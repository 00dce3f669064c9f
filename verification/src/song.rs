//! A song: its segments by name, and what their names say of the song as a whole.

use vstd::prelude::*;
use vstd::string::*;
use crate::errors::{DjError, ErrorView};
use crate::segment::{
    end_id, end_word, has_loop_shape, has_transition_shape, is_end_id, loop_id, loop_shaped,
    loop_word, names_end, transition_shaped, SegmentView, SongSegment,
};
use crate::text::{chars_of, same_str, same_text};

verus! {

/// A song with its strings as character sequences and its segments in the order
/// in which they were added.
pub struct SongView {
    pub id: Seq<char>,
    pub segments: Seq<SegmentView>,
    pub has_end: bool,
    pub has_global_ending: bool,
    pub has_multiple_loops: bool,
    pub has_dedicated_transitions: bool,
    pub is_archive: bool,
}

/// The views of a vector of segments, one by one.
pub open spec fn segment_views(v: Seq<SongSegment>) -> Seq<SegmentView> {
    v.map_values(|s: SongSegment| s@)
}

/// The first position at or after `from` of a segment named `id`, or the length
/// of `segments`.
pub open spec fn position_from(segments: Seq<SegmentView>, id: Seq<char>, from: int) -> int
    decreases segments.len() - from,
{
    if from < 0 || from >= segments.len() {
        segments.len() as int
    } else if segments[from].id == id {
        from
    } else {
        position_from(segments, id, from + 1)
    }
}

/// `id` names a numbered loop: it has the shape of a loop and is not `loop` itself.
pub open spec fn is_numbered_loop(id: Seq<char>) -> bool {
    id != loop_id() && loop_shaped(id)
}

impl SongView {
    /// A song without segments.
    pub open spec fn empty(id: Seq<char>, is_archive: bool) -> SongView {
        SongView {
            id,
            segments: Seq::empty(),
            has_end: false,
            has_global_ending: false,
            has_multiple_loops: false,
            has_dedicated_transitions: false,
            is_archive,
        }
    }

    /// Where the segment named `id` stands, or the number of segments.
    pub open spec fn position(self, id: Seq<char>) -> int {
        position_from(self.segments, id, 0)
    }

    /// The song has a segment named `id`.
    pub open spec fn has_segment(self, id: Seq<char>) -> bool {
        self.position(id) < self.segments.len()
    }

    /// The segment named `id`, where the song has one.
    pub open spec fn segment(self, id: Seq<char>) -> SegmentView {
        self.segments[self.position(id)]
    }

    /// No two segments share a name.
    pub open spec fn names_unique(self) -> bool {
        forall|i: int, j: int|
            0 <= i < j < self.segments.len() ==> self.segments[i].id != self.segments[j].id
    }

    /// The song's flags say what its segments' names show: an ending, a numbered
    /// loop, a dedicated transition; a global ending only with a segment `end`.
    pub open spec fn flags_match(self) -> bool {
        &&& self.has_end <==> exists|i: int|
            0 <= i < self.segments.len() && is_end_id(#[trigger] self.segments[i].id)
        &&& self.has_multiple_loops <==> exists|i: int|
            0 <= i < self.segments.len() && is_numbered_loop(#[trigger] self.segments[i].id)
        &&& self.has_dedicated_transitions <==> exists|i: int|
            0 <= i < self.segments.len() && transition_shaped(#[trigger] self.segments[i].id)
        &&& self.has_global_ending ==> self.has_end && self.has_segment(end_id())
    }

    /// The song is well formed: its names are unique and its flags match them.
    pub open spec fn wf(self) -> bool {
        self.names_unique() && self.flags_match()
    }

    /// The song with one more segment. The first ending that is added decides
    /// whether the song has a global ending: it has one where that ending is `end`.
    pub open spec fn with_segment(self, segment: SegmentView) -> SongView {
        SongView {
            id: self.id,
            segments: self.segments.push(segment),
            has_end: self.has_end || is_end_id(segment.id),
            has_global_ending: if !self.has_end && is_end_id(segment.id) {
                segment.id == end_id()
            } else {
                self.has_global_ending
            },
            has_multiple_loops: self.has_multiple_loops || is_numbered_loop(segment.id),
            has_dedicated_transitions: self.has_dedicated_transitions || transition_shaped(
                segment.id,
            ),
            is_archive: self.is_archive,
        }
    }
}

/// Where `position_from` points: at the first segment of that name at or after
/// `from`, or behind the last segment.
pub proof fn lemma_position_from(segments: Seq<SegmentView>, id: Seq<char>, from: int)
    requires
        0 <= from <= segments.len(),
    ensures
        from <= position_from(segments, id, from) <= segments.len(),
        position_from(segments, id, from) < segments.len() ==> segments[position_from(
            segments,
            id,
            from,
        )].id == id,
        forall|j: int| from <= j < position_from(segments, id, from) ==> segments[j].id != id,
    decreases segments.len() - from,
{
    if from < segments.len() && segments[from].id != id {
        lemma_position_from(segments, id, from + 1);
    }
}

/// A segment named `id` at `j` puts the first such segment at or before `j`.
pub proof fn lemma_position_found(segments: Seq<SegmentView>, id: Seq<char>, j: int)
    requires
        0 <= j < segments.len(),
        segments[j].id == id,
    ensures
        position_from(segments, id, 0) <= j,
{
    lemma_position_from(segments, id, 0);
}

/// A set of interchangeable segments that one piece of music is assembled from.
#[derive(Debug, Clone, PartialEq, Eq)]
pub struct Song {
    pub(crate) id: String,
    pub(crate) segments: Vec<SongSegment>,
    pub(crate) has_end: bool,
    pub(crate) has_global_ending: bool,
    pub(crate) has_multiple_loops: bool,
    pub(crate) has_dedicated_transitions: bool,
    pub(crate) is_archive: bool,
}

impl View for Song {
    type V = SongView;

    open(crate) spec fn view(&self) -> SongView {
        SongView {
            id: self.id@,
            segments: segment_views(self.segments@),
            has_end: self.has_end,
            has_global_ending: self.has_global_ending,
            has_multiple_loops: self.has_multiple_loops,
            has_dedicated_transitions: self.has_dedicated_transitions,
            is_archive: self.is_archive,
        }
    }
}

impl Song {
    /// A song without segments.
    pub fn new(id: &str, is_archive: bool) -> (r: Song)
        ensures
            r@ == SongView::empty(id@, is_archive),
            r@.wf(),
    {
        let r = Song {
            id: String::from_str(id),
            segments: Vec::new(),
            has_end: false,
            has_global_ending: false,
            has_multiple_loops: false,
            has_dedicated_transitions: false,
            is_archive,
        };
        assert(segment_views(r.segments@) =~= Seq::empty());
        r
    }

    /// The song's name.
    pub fn id(&self) -> (r: &str)
        ensures
            r@ == self@.id,
    {
        self.id.as_str()
    }

    /// The segments in the order in which they were added.
    pub fn segments(&self) -> (r: &Vec<SongSegment>)
        ensures
            segment_views(r@) == self@.segments,
    {
        &self.segments
    }

    /// Whether some segment of the song is an ending.
    pub fn has_end(&self) -> (r: bool)
        ensures
            r == self@.has_end,
    {
        self.has_end
    }

    /// Whether the first ending that the song got was `end`, the ending of all
    /// its loops.
    pub fn has_global_ending(&self) -> (r: bool)
        ensures
            r == self@.has_global_ending,
    {
        self.has_global_ending
    }

    /// Whether the song has a numbered loop.
    pub fn has_multiple_loops(&self) -> (r: bool)
        ensures
            r == self@.has_multiple_loops,
    {
        self.has_multiple_loops
    }

    /// Whether the song has a dedicated transition.
    pub fn has_dedicated_transitions(&self) -> (r: bool)
        ensures
            r == self@.has_dedicated_transitions,
    {
        self.has_dedicated_transitions
    }

    /// Whether the song's segments lie in one archive.
    pub fn is_archive(&self) -> (r: bool)
        ensures
            r == self@.is_archive,
    {
        self.is_archive
    }

    /// Where the segment named `id` stands among the song's segments.
    pub fn find_segment(&self, id: &str) -> (r: Option<usize>)
        ensures
            match r {
                Some(i) => self@.has_segment(id@) && i as int == self@.position(id@),
                None => !self@.has_segment(id@),
            },
    {
        let mut i: usize = 0;
        while i < self.segments.len()
            invariant
                i <= self.segments.len(),
                self@.segments.len() == self.segments.len(),
                position_from(self@.segments, id@, 0) == position_from(self@.segments, id@, i as int),
            decreases self.segments.len() - i,
        {
            if same_str(self.segments[i].id.as_str(), id) {
                return Some(i);
            }
            i += 1;
        }
        None
    }

    /// The segment named `id`.
    pub fn segment(&self, id: &str) -> (r: Option<&SongSegment>)
        ensures
            match r {
                Some(s) => self@.has_segment(id@) && s@ == self@.segment(id@),
                None => !self@.has_segment(id@),
            },
    {
        match self.find_segment(id) {
            Some(i) => Some(&self.segments[i]),
            None => None,
        }
    }

    /// Adds a segment and brings the song's flags up to date. A song holds each
    /// name once: a second segment of a name is refused and the song stays as it was.
    pub fn insert_segment(&mut self, segment: SongSegment) -> (r: Result<(), DjError>)
        ensures
            match r {
                Ok(_) => !old(self)@.has_segment(segment@.id) && final(self)@ == old(
                    self,
                )@.with_segment(segment@),
                Err(e) => old(self)@.has_segment(segment@.id) && final(self)@ == old(self)@ && e@
                    == ErrorView::MultipleSegmentsWithSameId(old(self)@.id, segment@.id),
            },
            old(self)@.wf() ==> final(self)@.wf(),
    {
        if self.find_segment(segment.id.as_str()).is_some() {
            return Err(
                DjError::MultipleSegmentsWithSameId(self.id.clone(), segment.id.clone()),
            );
        }
        let id = chars_of(segment.id.as_str());
        let word_loop = loop_word();
        let word_end = end_word();
        let ends = names_end(&id);
        if !self.has_end && ends {
            self.has_end = true;
            self.has_global_ending = same_text(&id, &word_end);
        }
        if !same_text(&id, &word_loop) && has_loop_shape(&id) {
            self.has_multiple_loops = true;
        }
        if has_transition_shape(&id) {
            self.has_dedicated_transitions = true;
        }
        let ghost before = old(self)@;
        let ghost added = segment@;
        self.segments.push(segment);
        proof {
            assert(segment_views(self.segments@) =~= before.segments.push(added));
            assert(self@ == before.with_segment(added));
            if before.wf() {
                lemma_with_segment_wf(before, added);
            }
        }
        Ok(())
    }
}

/// A segment of a new name keeps a song well formed.
pub proof fn lemma_with_segment_wf(song: SongView, segment: SegmentView)
    requires
        song.wf(),
        !song.has_segment(segment.id),
    ensures
        song.with_segment(segment).wf(),
{
    let after = song.with_segment(segment);
    let n = song.segments.len() as int;
    lemma_position_from(song.segments, segment.id, 0);
    assert(after.segments[n] == segment);
    assert forall|i: int| 0 <= i < n implies after.segments[i] == song.segments[i] by {}
    assert(after.names_unique());
    if after.has_end {
        if song.has_end {
            let i = choose|i: int| 0 <= i < n && is_end_id(#[trigger] song.segments[i].id);
            assert(is_end_id(after.segments[i].id));
        } else {
            assert(is_end_id(after.segments[n].id));
        }
    }
    if after.has_multiple_loops {
        if song.has_multiple_loops {
            let i = choose|i: int| 0 <= i < n && is_numbered_loop(#[trigger] song.segments[i].id);
            assert(is_numbered_loop(after.segments[i].id));
        } else {
            assert(is_numbered_loop(after.segments[n].id));
        }
    }
    if after.has_dedicated_transitions {
        if song.has_dedicated_transitions {
            let i = choose|i: int| 0 <= i < n && transition_shaped(#[trigger] song.segments[i].id);
            assert(transition_shaped(after.segments[i].id));
        } else {
            assert(transition_shaped(after.segments[n].id));
        }
    }
    if after.has_global_ending {
        if song.has_global_ending {
            let k = song.position(end_id());
            lemma_position_from(song.segments, end_id(), 0);
            assert(after.segments[k].id == end_id());
            lemma_position_found(after.segments, end_id(), k);
        } else {
            lemma_position_found(after.segments, end_id(), n);
        }
    }
}

} // verus!
