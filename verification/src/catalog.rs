//! The catalog: every song that an inventory of paths holds, each with its segments.

use vstd::prelude::*;
use vstd::string::*;
use crate::errors::{DjError, ErrorView};
use crate::segment::{
    detect_file_type, file_type_of, get_song_name, names_format, parse_segment, segment_format_of,
    segment_id_of, song_name_of, FileType, SegmentView, SongSegment,
};
use crate::song::{position_from, Song, SongView};
use crate::text::{
    chars_of, find_first, find_last, first_from, last_index, lemma_last_index_bounds, same_str,
    slice_of, texts,
};

verus! {

/// One entry of the inventory: the path of a file and, where the file is a song
/// archive, the names of the entries inside it.
#[derive(Debug, Clone, PartialEq, Eq)]
pub struct PathEntry {
    pub path: String,
    pub members: Vec<String>,
}

/// A `PathEntry` with its strings as character sequences.
pub struct EntryView {
    pub path: Seq<char>,
    pub members: Seq<Seq<char>>,
}

impl View for PathEntry {
    type V = EntryView;

    open spec fn view(&self) -> EntryView {
        EntryView { path: self.path@, members: texts(self.members@) }
    }
}

impl PathEntry {
    /// The entry of a plain file.
    pub fn file(path: &str) -> (r: PathEntry)
        ensures
            r@ == (EntryView { path: path@, members: Seq::empty() }),
    {
        let r = PathEntry { path: String::from_str(path), members: Vec::new() };
        assert(texts(r.members@) =~= Seq::empty());
        r
    }

    /// The entry of a song archive that holds `members`.
    pub fn archive(path: &str, members: Vec<String>) -> (r: PathEntry)
        ensures
            r@ == (EntryView { path: path@, members: texts(members@) }),
    {
        PathEntry { path: String::from_str(path), members }
    }
}

/// The views of a vector of entries, one by one.
pub open spec fn entry_views(v: Seq<PathEntry>) -> Seq<EntryView> {
    v.map_values(|e: PathEntry| e@)
}

/// The views of a vector of songs, one by one.
pub open spec fn song_views(v: Seq<Song>) -> Seq<SongView> {
    v.map_values(|s: Song| s@)
}

/// The name of the file at `path`: what follows the last `/`.
pub open spec fn base_name(path: Seq<char>) -> Seq<char> {
    path.subrange(last_index(path, '/') + 1, path.len() as int)
}

/// The song that the archive `name` holds: what stands before the first `.`.
pub open spec fn archive_song_name(name: Seq<char>) -> Seq<char> {
    name.subrange(0, first_from(name, '.', 0))
}

/// The first position at or after `from` of a song named `id`, or the length of
/// `songs`.
pub open spec fn song_position(songs: Seq<SongView>, id: Seq<char>, from: int) -> int
    decreases songs.len() - from,
{
    if from < 0 || from >= songs.len() {
        songs.len() as int
    } else if songs[from].id == id {
        from
    } else {
        song_position(songs, id, from + 1)
    }
}

/// The catalog holds a song named `id`.
pub open spec fn has_song(songs: Seq<SongView>, id: Seq<char>) -> bool {
    song_position(songs, id, 0) < songs.len()
}

/// No two songs share a name, and each song is well formed.
pub open spec fn catalog_wf(songs: Seq<SongView>) -> bool {
    &&& forall|i: int, j: int| 0 <= i < j < songs.len() ==> songs[i].id != songs[j].id
    &&& forall|i: int| 0 <= i < songs.len() ==> (#[trigger] songs[i]).wf()
}

/// `songs` with a song named `id` in it: a new one is added at the end, without
/// segments, where there was none.
pub open spec fn with_song(songs: Seq<SongView>, id: Seq<char>, is_archive: bool) -> Seq<
    SongView,
> {
    if has_song(songs, id) {
        songs
    } else {
        songs.push(SongView::empty(id, is_archive))
    }
}

/// `songs` with `segment` added to the song named `id`, or the error where that
/// song has a segment of this name.
pub open spec fn with_segment_in(songs: Seq<SongView>, id: Seq<char>, segment: SegmentView)
    -> Result<Seq<SongView>, ErrorView> {
    let k = song_position(songs, id, 0);
    if songs[k].has_segment(segment.id) {
        Err(ErrorView::MultipleSegmentsWithSameId(songs[k].id, segment.id))
    } else {
        Ok(songs.update(k, songs[k].with_segment(segment)))
    }
}

/// The segment that the name `name` describes, with nothing to follow it yet.
pub open spec fn parsed_segment(name: Seq<char>) -> SegmentView {
    SegmentView {
        id: segment_id_of(name),
        format: segment_format_of(name),
        transitions: Seq::empty(),
    }
}

/// `songs` after the plain segment file `name` was taken in.
pub open spec fn ingest_file(songs: Seq<SongView>, name: Seq<char>) -> Result<
    Seq<SongView>,
    ErrorView,
> {
    if song_name_of(name).len() == 0 {
        Err(ErrorView::InvalidFileName(name))
    } else if !names_format(name) {
        Err(ErrorView::UnrecognizedSongFormat(name))
    } else {
        with_segment_in(
            with_song(songs, song_name_of(name), false),
            song_name_of(name),
            parsed_segment(name),
        )
    }
}

/// `songs` after the first `upto` of `members` were added to the song `id`, in
/// their order; the first error ends it.
pub open spec fn ingest_members(
    songs: Seq<SongView>,
    id: Seq<char>,
    members: Seq<Seq<char>>,
    upto: int,
) -> Result<Seq<SongView>, ErrorView>
    decreases upto,
{
    if upto <= 0 {
        Ok(songs)
    } else {
        match ingest_members(songs, id, members, upto - 1) {
            Err(e) => Err(e),
            Ok(before) => if !names_format(members[upto - 1]) {
                Err(ErrorView::UnrecognizedSongFormat(members[upto - 1]))
            } else {
                with_segment_in(before, id, parsed_segment(members[upto - 1]))
            },
        }
    }
}

/// `songs` after one entry of the inventory was taken in. A file of an unknown
/// extension is passed over.
pub open spec fn ingest_entry(songs: Seq<SongView>, entry: EntryView) -> Result<
    Seq<SongView>,
    ErrorView,
> {
    let name = base_name(entry.path);
    match file_type_of(name) {
        None => Ok(songs),
        Some(FileType::SegmentFormat) => ingest_file(songs, name),
        Some(FileType::SongArchiveFormat) => ingest_members(
            with_song(songs, archive_song_name(name), true),
            archive_song_name(name),
            entry.members,
            entry.members.len() as int,
        ),
    }
}

/// The catalog after the first `upto` entries of the inventory were taken in, in
/// their order; the first error ends it.
pub open spec fn ingest(entries: Seq<EntryView>, upto: int) -> Result<Seq<SongView>, ErrorView>
    decreases upto,
{
    if upto <= 0 {
        Ok(Seq::empty())
    } else {
        match ingest(entries, upto - 1) {
            Err(e) => Err(e),
            Ok(before) => ingest_entry(before, entries[upto - 1]),
        }
    }
}

/// Where `song_position` points: at the first song of that name at or after
/// `from`, or behind the last song.
pub proof fn lemma_song_position(songs: Seq<SongView>, id: Seq<char>, from: int)
    requires
        0 <= from <= songs.len(),
    ensures
        from <= song_position(songs, id, from) <= songs.len(),
        song_position(songs, id, from) < songs.len() ==> songs[song_position(songs, id, from)].id
            == id,
        forall|j: int| from <= j < song_position(songs, id, from) ==> songs[j].id != id,
    decreases songs.len() - from,
{
    if from < songs.len() && songs[from].id != id {
        lemma_song_position(songs, id, from + 1);
    }
}

/// Where a song stands depends on the songs' names alone.
pub proof fn lemma_song_position_names(
    a: Seq<SongView>,
    b: Seq<SongView>,
    id: Seq<char>,
    from: int,
)
    requires
        a.len() == b.len(),
        forall|i: int| 0 <= i < a.len() ==> a[i].id == b[i].id,
        0 <= from <= a.len(),
    ensures
        song_position(a, id, from) == song_position(b, id, from),
    decreases a.len() - from,
{
    if from < a.len() && a[from].id != id {
        lemma_song_position_names(a, b, id, from + 1);
    }
}

/// An error among the first members is the error of them all.
pub proof fn lemma_members_error(
    songs: Seq<SongView>,
    id: Seq<char>,
    members: Seq<Seq<char>>,
    at: int,
    upto: int,
)
    requires
        at <= upto,
        ingest_members(songs, id, members, at).is_err(),
    ensures
        ingest_members(songs, id, members, upto) == ingest_members(songs, id, members, at),
    decreases upto - at,
{
    if at < upto {
        lemma_members_error(songs, id, members, at, upto - 1);
    }
}

/// An error among the first entries is the error of the whole inventory.
pub proof fn lemma_ingest_error(entries: Seq<EntryView>, at: int, upto: int)
    requires
        at <= upto,
        ingest(entries, at).is_err(),
    ensures
        ingest(entries, upto) == ingest(entries, at),
    decreases upto - at,
{
    if at < upto {
        lemma_ingest_error(entries, at, upto - 1);
    }
}

/// Two plain files that name the same segment of the same song cannot both be
/// taken in, whatever their formats: the inventory of the two is refused for the
/// second segment of that name.
pub proof fn lemma_duplicate_refused(first: EntryView, second: EntryView)
    requires
        file_type_of(base_name(first.path)) == Some(FileType::SegmentFormat),
        file_type_of(base_name(second.path)) == Some(FileType::SegmentFormat),
        song_name_of(base_name(first.path)).len() > 0,
        names_format(base_name(first.path)),
        names_format(base_name(second.path)),
        song_name_of(base_name(first.path)) == song_name_of(base_name(second.path)),
        segment_id_of(base_name(first.path)) == segment_id_of(base_name(second.path)),
    ensures
        ingest(seq![first, second], 2) == Err::<Seq<SongView>, ErrorView>(
            ErrorView::MultipleSegmentsWithSameId(
                song_name_of(base_name(first.path)),
                segment_id_of(base_name(first.path)),
            ),
        ),
{
    let entries = seq![first, second];
    let song = song_name_of(base_name(first.path));
    let segment = parsed_segment(base_name(first.path));
    let none = Seq::<SongView>::empty();
    assert(ingest(entries, 0) == Ok::<Seq<SongView>, ErrorView>(none));
    assert(ingest(entries, 1) == ingest_entry(none, first)) by {
        reveal_with_fuel(ingest, 2);
    }
    let made = with_song(none, song, false);
    assert(made == seq![SongView::empty(song, false)]);
    assert(song_position(made, song, 0) == 0) by {
        reveal_with_fuel(song_position, 2);
    }
    assert(position_from(made[0].segments, segment.id, 0) == 0);
    let one = made.update(0, made[0].with_segment(segment));
    assert(ingest(entries, 1) == Ok::<Seq<SongView>, ErrorView>(one));
    assert(song_position(one, song, 0) == 0) by {
        reveal_with_fuel(song_position, 2);
    }
    assert(with_song(one, song, false) == one);
    assert(one[0].segments[0] == segment);
    assert(position_from(one[0].segments, segment.id, 0) == 0) by {
        reveal_with_fuel(position_from, 2);
    }
    assert(one[0].has_segment(segment.id));
    assert(ingest(entries, 2) == ingest_entry(one, second));
}

/// Where the song named `id` stands in the catalog.
pub fn find_song(songs: &Vec<Song>, id: &str) -> (r: Option<usize>)
    ensures
        match r {
            Some(i) => has_song(song_views(songs@), id@) && i as int == song_position(
                song_views(songs@),
                id@,
                0,
            ),
            None => !has_song(song_views(songs@), id@),
        },
{
    let mut i: usize = 0;
    while i < songs.len()
        invariant
            i <= songs.len(),
            song_position(song_views(songs@), id@, 0) == song_position(
                song_views(songs@),
                id@,
                i as int,
            ),
        decreases songs.len() - i,
    {
        if same_str(songs[i].id(), id) {
            return Some(i);
        }
        i += 1;
    }
    None
}

/// Makes sure that the catalog holds a song named `id`, and says where it stands.
fn find_or_add_song(songs: &mut Vec<Song>, id: &str, is_archive: bool) -> (k: usize)
    ensures
        song_views(final(songs)@) == with_song(song_views(old(songs)@), id@, is_archive),
        k as int == song_position(song_views(final(songs)@), id@, 0),
        k < final(songs).len(),
        song_views(final(songs)@)[k as int].id == id@,
        catalog_wf(song_views(old(songs)@)) ==> catalog_wf(song_views(final(songs)@)),
{
    match find_song(songs, id) {
        Some(k) => {
            proof {
                lemma_song_position(song_views(songs@), id@, 0);
            }
            k
        },
        None => {
            let ghost before = song_views(songs@);
            proof {
                lemma_song_position(before, id@, 0);
            }
            songs.push(Song::new(id, is_archive));
            proof {
                let after = song_views(songs@);
                assert(after =~= before.push(SongView::empty(id@, is_archive)));
                lemma_song_position(after, id@, 0);
                assert(after[before.len() as int].id == id@);
                assert forall|j: int| 0 <= j < before.len() implies after[j].id != id@ by {
                    assert(after[j] == before[j]);
                }
                if catalog_wf(before) {
                    assert forall|i: int| 0 <= i < after.len() implies (#[trigger] after[i]).wf() by {
                        if i < before.len() {
                            assert(after[i] == before[i]);
                        }
                    }
                    assert forall|i: int, j: int| 0 <= i < j < after.len() implies after[i].id
                        != after[j].id by {
                        assert(after[i] == before[i]);
                        if j < before.len() {
                            assert(after[j] == before[j]);
                        }
                    }
                }
            }
            songs.len() - 1
        },
    }
}

/// Adds `segment` to the song at position `k`.
fn add_segment(songs: &mut Vec<Song>, k: usize, segment: SongSegment) -> (r: Result<(), DjError>)
    requires
        k < old(songs).len(),
        k as int == song_position(song_views(old(songs)@), song_views(old(songs)@)[k as int].id, 0),
    ensures
        match r {
            Ok(_) => Ok::<Seq<SongView>, ErrorView>(song_views(final(songs)@)) == with_segment_in(
                song_views(old(songs)@),
                song_views(old(songs)@)[k as int].id,
                segment@,
            ),
            Err(e) => Err::<Seq<SongView>, ErrorView>(e@) == with_segment_in(
                song_views(old(songs)@),
                song_views(old(songs)@)[k as int].id,
                segment@,
            ),
        },
        final(songs).len() == old(songs).len(),
        forall|i: int|
            0 <= i < old(songs).len() ==> song_views(final(songs)@)[i].id == song_views(
                old(songs)@,
            )[i].id,
        catalog_wf(song_views(old(songs)@)) ==> catalog_wf(song_views(final(songs)@)),
{
    let ghost before = song_views(songs@);
    let ghost added = segment@;
    let r = songs[k].insert_segment(segment);
    proof {
        let after = song_views(songs@);
        assert(after.len() == before.len());
        assert(after[k as int] == songs@[k as int]@);
        assert forall|i: int| 0 <= i < before.len() && i != k implies after[i] == before[i] by {
            assert(after[i] == songs@[i]@);
        }
        if r.is_ok() {
            assert(after =~= before.update(k as int, before[k as int].with_segment(added)));
        } else {
            assert(after =~= before);
        }
        if catalog_wf(before) {
            assert forall|i: int| 0 <= i < after.len() implies (#[trigger] after[i]).wf() by {
                if i != k {
                    assert(after[i] == before[i]);
                }
            }
        }
    }
    r
}

/// Builds the catalog from an inventory of paths, in their order.
///
/// A file whose extension is unknown is passed over. A plain segment file
/// `<song>_<segment>.<format>` adds its segment to its song, an archive adds one
/// segment for each of its members to the song that it is named after, and a song
/// is made when its first file is met. The first file that cannot be taken in
/// ends the build with its error: a name without a song or without a format, or a
/// segment that its song already has.
pub fn initialize_songs(paths: &Vec<PathEntry>) -> (r: Result<Vec<Song>, DjError>)
    ensures
        match r {
            Ok(songs) => ingest(entry_views(paths@), paths@.len() as int) == Ok::<
                Seq<SongView>,
                ErrorView,
            >(song_views(songs@)) && catalog_wf(song_views(songs@)),
            Err(e) => ingest(entry_views(paths@), paths@.len() as int) == Err::<
                Seq<SongView>,
                ErrorView,
            >(e@),
        },
{
    let mut songs: Vec<Song> = Vec::new();
    let ghost entries = entry_views(paths@);
    assert(song_views(songs@) =~= Seq::empty());
    let mut i: usize = 0;
    while i < paths.len()
        invariant
            i <= paths.len(),
            entries == entry_views(paths@),
            ingest(entries, i as int) == Ok::<Seq<SongView>, ErrorView>(song_views(songs@)),
            catalog_wf(song_views(songs@)),
        decreases paths.len() - i,
    {
        let entry = &paths[i];
        assert(entries[i as int] == entry@);
        match ingest_one(&mut songs, entry) {
            Ok(_) => {},
            Err(e) => {
                proof {
                    lemma_ingest_error(entries, i + 1, paths@.len() as int);
                }
                return Err(e);
            },
        }
        i += 1;
    }
    Ok(songs)
}

/// Takes one entry of the inventory into the catalog.
fn ingest_one(songs: &mut Vec<Song>, entry: &PathEntry) -> (r: Result<(), DjError>)
    ensures
        match r {
            Ok(_) => ingest_entry(song_views(old(songs)@), entry@) == Ok::<
                Seq<SongView>,
                ErrorView,
            >(song_views(final(songs)@)),
            Err(e) => ingest_entry(song_views(old(songs)@), entry@) == Err::<
                Seq<SongView>,
                ErrorView,
            >(e@),
        },
        catalog_wf(song_views(old(songs)@)) ==> catalog_wf(song_views(final(songs)@)),
{
    let path = chars_of(entry.path.as_str());
    proof {
        lemma_last_index_bounds(path@, '/');
    }
    let from: usize = match find_last(&path, '/') {
        Some(k) => k + 1,
        None => 0,
    };
    let file_name = slice_of(entry.path.as_str(), from, path.len());
    let name = file_name.as_str();
    assert(name@ == base_name(entry@.path));
    match detect_file_type(name) {
        Err(_) => Ok(()),
        Ok(FileType::SegmentFormat) => {
            let song_id = get_song_name(name)?;
            let segment = parse_segment(name)?;
            let k = find_or_add_song(songs, song_id.as_str(), false);
            add_segment(songs, k, segment)
        },
        Ok(FileType::SongArchiveFormat) => {
            let chars = chars_of(name);
            let dot: usize = find_first(&chars, '.', 0);
            let song_id = slice_of(name, 0, dot);
            let k = find_or_add_song(songs, song_id.as_str(), true);
            let ghost start = song_views(songs@);
            let ghost members = entry@.members;
            let ghost whole = ingest_entry(song_views(old(songs)@), entry@);
            let mut j: usize = 0;
            while j < entry.members.len()
                invariant
                    j <= entry.members.len(),
                    members == texts(entry.members@),
                    whole == ingest_entry(song_views(old(songs)@), entry@),
                    whole == ingest_members(start, song_id@, members, members.len() as int),
                    k < songs.len(),
                    k as int == song_position(song_views(songs@), song_id@, 0),
                    song_views(songs@)[k as int].id == song_id@,
                    ingest_members(start, song_id@, members, j as int) == Ok::<
                        Seq<SongView>,
                        ErrorView,
                    >(song_views(songs@)),
                    catalog_wf(song_views(old(songs)@)) ==> catalog_wf(song_views(songs@)),
                decreases entry.members.len() - j,
            {
                let member = entry.members[j].as_str();
                assert(members[j as int] == member@);
                let ghost before = song_views(songs@);
                let segment = match parse_segment(member) {
                    Ok(s) => s,
                    Err(e) => {
                        proof {
                            assert(ingest_members(start, song_id@, members, j + 1).is_err());
                            lemma_members_error(start, song_id@, members, j + 1, members.len() as int);
                        }
                        return Err(e);
                    },
                };
                match add_segment(songs, k, segment) {
                    Ok(_) => {},
                    Err(e) => {
                        proof {
                            assert(ingest_members(start, song_id@, members, j + 1).is_err());
                            lemma_members_error(start, song_id@, members, j + 1, members.len() as int);
                        }
                        return Err(e);
                    },
                }
                proof {
                    assert(ingest_members(start, song_id@, members, j + 1) == Ok::<
                        Seq<SongView>,
                        ErrorView,
                    >(song_views(songs@)));
                    lemma_song_position_names(before, song_views(songs@), song_id@, 0);
                }
                j += 1;
            }
            Ok(())
        },
    }
}

} // verus!
