//! Segments of a song and the grammar of their names.
//!
//! A plain file is named `<song>_<segment>.<format>`; a segment is `start`,
//! `end`, `loop`, `loop<N>`, `loop<N>-end` or `loop<F>-to-<T>`, where the
//! numbers are written in ASCII digits.

use vstd::prelude::*;
use vstd::string::*;
use crate::errors::{DjError, ErrorView};
use crate::text::{
    lemma_digit_run_bounds, lemma_last_index_bounds, chars_of, count_digits, digit_run, ends_with, find_first, find_last, first_from, has_prefix,
    has_suffix, is_digit, last_index, matches_at, occurs_at, slice_of, texts,
};

verus! {

/// The name of the segment that a song begins with: `start`.
pub open spec fn start_id() -> Seq<char> {
    seq!['s', 't', 'a', 'r', 't']
}

/// The name of a song's global ending: `end`.
pub open spec fn end_id() -> Seq<char> {
    seq!['e', 'n', 'd']
}

/// The name of the loop of a song that has one loop: `loop`.
pub open spec fn loop_id() -> Seq<char> {
    seq!['l', 'o', 'o', 'p']
}

/// The first numbered loop, `loop0`.
pub open spec fn first_loop_id() -> Seq<char> {
    seq!['l', 'o', 'o', 'p', '0']
}

/// What separates the two numbers of a dedicated transition: `-to-`.
pub open spec fn to_infix() -> Seq<char> {
    seq!['-', 't', 'o', '-']
}

/// What follows a loop's name at the start of its dedicated transitions: `-to`.
pub open spec fn to_mark() -> Seq<char> {
    seq!['-', 't', 'o']
}

/// What follows a loop's name in the name of its own ending: `-end`.
pub open spec fn end_mark() -> Seq<char> {
    seq!['-', 'e', 'n', 'd']
}

/// At position `i` of `s` stands `loop`, and only digits follow up to the end.
pub open spec fn loop_at(s: Seq<char>, i: int) -> bool {
    occurs_at(s, loop_id(), i) && i + 4 + digit_run(s, i + 4) == s.len()
}

/// `s` ends in `loop` or in `loop` and a number.
pub open spec fn loop_shaped(s: Seq<char>) -> bool {
    exists|i: int| loop_at(s, i)
}

/// At position `i` of `s` stands `loop<F>-to-<T>`, each number of one digit or more.
pub open spec fn transition_at(s: Seq<char>, i: int) -> bool {
    let from = i + 4;
    let infix = from + digit_run(s, from);
    let to = infix + 4;
    occurs_at(s, loop_id(), i) && digit_run(s, from) >= 1 && occurs_at(s, to_infix(), infix)
        && digit_run(s, to) >= 1
}

/// The least position at or after `from` where `loop<F>-to-<T>` stands in `s`, or
/// the length of `s`.
pub open spec fn first_transition(s: Seq<char>, from: int) -> int
    decreases s.len() - from,
{
    if from < 0 || from >= s.len() {
        s.len() as int
    } else if transition_at(s, from) {
        from
    } else {
        first_transition(s, from + 1)
    }
}

/// `s` names a dedicated transition: `loop<F>-to-<T>` stands somewhere in it.
pub open spec fn transition_shaped(s: Seq<char>) -> bool {
    exists|i: int| transition_at(s, i)
}

/// The loop that the dedicated transition `s` leads to: `loop` and the number
/// `<T>` of the first `loop<F>-to-<T>` in `s`.
pub open spec fn transition_target(s: Seq<char>) -> Seq<char> {
    let i = first_transition(s, 0);
    let from = i + 4;
    let to = from + digit_run(s, from) + 4;
    loop_id() + s.subrange(to, to + digit_run(s, to))
}

/// `s` names a loop: it has the shape of one and is no dedicated transition.
pub open spec fn is_loop_id(s: Seq<char>) -> bool {
    loop_shaped(s) && !transition_shaped(s)
}

/// `s` names an ending: it ends in `end`.
pub open spec fn is_end_id(s: Seq<char>) -> bool {
    has_suffix(s, end_id())
}

/// Where `first_transition` points: at the first `loop<F>-to-<T>` at or after
/// `from`, or behind the last character.
pub proof fn lemma_first_transition(s: Seq<char>, from: int)
    requires
        0 <= from <= s.len(),
    ensures
        from <= first_transition(s, from) <= s.len(),
        first_transition(s, from) < s.len() ==> transition_at(s, first_transition(s, from)),
        forall|j: int| from <= j < first_transition(s, from) ==> !transition_at(s, j),
    decreases s.len() - from,
{
    if from < s.len() && !transition_at(s, from) {
        lemma_first_transition(s, from + 1);
    }
}

/// The loop that a dedicated transition leads to is `loop` and one digit or
/// more: a numbered loop by its shape, and none of `start`, `end` and `loop`.
pub proof fn lemma_transition_target(s: Seq<char>)
    requires
        transition_shaped(s),
    ensures
        transition_target(s).len() >= 5,
        has_prefix(transition_target(s), loop_id()),
        loop_shaped(transition_target(s)),
        !transition_shaped(transition_target(s)),
        !is_end_id(transition_target(s)),
{
    let w = choose|i: int| transition_at(s, i);
    lemma_first_transition(s, 0);
    let i = first_transition(s, 0);
    assert(i <= w);
    let from = i + 4;
    let to = from + digit_run(s, from) + 4;
    let n = digit_run(s, to) as int;
    lemma_digit_run_bounds(s, to);
    let digits = s.subrange(to, to + n);
    let target = transition_target(s);
    assert(target == loop_id() + digits);
    assert(target.subrange(0, 4) =~= loop_id());
    assert forall|j: int| 0 <= j < n implies is_digit(#[trigger] target[4 + j]) by {
        assert(target[4 + j] == s[to + j]);
    }
    lemma_all_digits(target, 4);
    assert(loop_at(target, 0));
    assert(is_digit(target[4 + (n - 1)]));
    if is_end_id(target) {
        assert(target.subrange(target.len() - 3, target.len() as int)[2] == 'd');
    }
    assert forall|k: int| !transition_at(target, k) by {
        if transition_at(target, k) {
            assert(target.subrange(k, k + 4)[0] == target[k]);
            assert(target.subrange(0, 4)[1] == target[1]);
            assert(target.subrange(0, 4)[2] == target[2]);
            assert(target.subrange(0, 4)[3] == target[3]);
            if k >= 4 {
                assert(is_digit(target[4 + (k - 4)]));
            }
            assert(k == 0);
        }
    }
}

/// Where only digits stand from `i` to the end, the run of digits at `i` is all
/// of it.
pub proof fn lemma_all_digits(s: Seq<char>, i: int)
    requires
        0 <= i <= s.len(),
        forall|j: int| i <= j < s.len() ==> is_digit(#[trigger] s[j]),
    ensures
        i + digit_run(s, i) == s.len(),
    decreases s.len() - i,
{
    if i < s.len() {
        lemma_all_digits(s, i + 1);
    }
}

/// A name with the shape of a loop or of a dedicated transition holds `loop`.
pub proof fn lemma_shapes_hold_loop(s: Seq<char>)
    requires
        loop_shaped(s) || transition_shaped(s),
    ensures
        exists|i: int| occurs_at(s, loop_id(), i),
{
    if loop_shaped(s) {
        let i = choose|i: int| loop_at(s, i);
        assert(occurs_at(s, loop_id(), i));
    } else {
        let i = choose|i: int| transition_at(s, i);
        assert(occurs_at(s, loop_id(), i));
    }
}

/// `start` and `end` hold no `loop`: they are neither loops nor dedicated
/// transitions. `end` is an ending; `start`, `loop` and `loop0` are none.
pub proof fn lemma_fixed_names()
    ensures
        !loop_shaped(start_id()),
        !transition_shaped(start_id()),
        !loop_shaped(end_id()),
        !transition_shaped(end_id()),
        !transition_shaped(loop_id()),
        !transition_shaped(first_loop_id()),
        is_end_id(end_id()),
        !is_end_id(start_id()),
        !is_end_id(loop_id()),
        !is_end_id(first_loop_id()),
{
    assert forall|i: int| !occurs_at(start_id(), loop_id(), i) by {
        if occurs_at(start_id(), loop_id(), i) {
            assert(start_id().subrange(i, i + 4)[0] == start_id()[i]);
        }
    }
    assert forall|i: int| !occurs_at(end_id(), loop_id(), i) by {}
    if loop_shaped(start_id()) || transition_shaped(start_id()) {
        lemma_shapes_hold_loop(start_id());
    }
    if loop_shaped(end_id()) || transition_shaped(end_id()) {
        lemma_shapes_hold_loop(end_id());
    }
    assert forall|i: int| !transition_at(loop_id(), i) by {
        if transition_at(loop_id(), i) {
            assert(i == 0);
            assert(digit_run(loop_id(), 4) == 0);
        }
    }
    assert forall|i: int| !transition_at(first_loop_id(), i) by {
        if transition_at(first_loop_id(), i) {
            let from = i + 4;
            lemma_digit_run_bounds(first_loop_id(), from);
        }
    }
    assert(end_id().subrange(0, 3) =~= end_id());
    assert(start_id().subrange(2, 5)[0] == 'a');
    assert(loop_id().subrange(1, 4)[0] == 'o');
    assert(first_loop_id().subrange(2, 5)[0] == 'o');
}

/// `loop` and `loop0` name loops.
pub proof fn lemma_fixed_loops()
    ensures
        is_loop_id(loop_id()),
        is_loop_id(first_loop_id()),
{
    lemma_fixed_names();
    assert(loop_at(loop_id(), 0)) by {
        assert(loop_id().subrange(0, 4) =~= loop_id());
    }
    assert(loop_at(first_loop_id(), 0)) by {
        assert(first_loop_id().subrange(0, 4) =~= loop_id());
        reveal_with_fuel(digit_run, 3);
    }
}

/// The characters of `start`.
pub fn start_word() -> (v: Vec<char>)
    ensures
        v@ == start_id(),
{
    let v = vec!['s', 't', 'a', 'r', 't'];
    assert(v@ =~= start_id());
    v
}

/// The characters of `end`.
pub fn end_word() -> (v: Vec<char>)
    ensures
        v@ == end_id(),
{
    let v = vec!['e', 'n', 'd'];
    assert(v@ =~= end_id());
    v
}

/// The characters of `loop`.
pub fn loop_word() -> (v: Vec<char>)
    ensures
        v@ == loop_id(),
{
    let v = vec!['l', 'o', 'o', 'p'];
    assert(v@ =~= loop_id());
    v
}

/// Whether `s` ends in `loop` or in `loop` and a number.
pub fn has_loop_shape(s: &Vec<char>) -> (r: bool)
    ensures
        r == loop_shaped(s@),
{
    let word = loop_word();
    let mut i: usize = 0;
    while i < s.len()
        invariant
            word@ == loop_id(),
            forall|j: int| j < i ==> !loop_at(s@, j),
        decreases s.len() - i,
    {
        if matches_at(s, &word, i) {
            let n: usize = count_digits(s, i + 4);
            if i + 4 + n == s.len() {
                assert(loop_at(s@, i as int));
                return true;
            }
        }
        i += 1;
    }
    false
}

/// Where the first `loop<F>-to-<T>` stands in `s`.
pub fn find_transition(s: &Vec<char>) -> (r: Option<usize>)
    ensures
        match r {
            Some(i) => i as int == first_transition(s@, 0) && transition_at(s@, i as int),
            None => first_transition(s@, 0) == s@.len() && !transition_shaped(s@),
        },
{
    let word = loop_word();
    let infix = vec!['-', 't', 'o', '-'];
    assert(infix@ =~= to_infix());
    let mut i: usize = 0;
    while i < s.len()
        invariant
            word@ == loop_id(),
            infix@ == to_infix(),
            i <= s.len(),
            first_transition(s@, 0) == first_transition(s@, i as int),
            forall|j: int| j < i ==> !transition_at(s@, j),
        decreases s.len() - i,
    {
        if matches_at(s, &word, i) {
            let a: usize = count_digits(s, i + 4);
            if a >= 1 {
                let b: usize = i + 4 + a;
                if matches_at(s, &infix, b) {
                    let c: usize = count_digits(s, b + 4);
                    if c >= 1 {
                        assert(transition_at(s@, i as int));
                        return Some(i);
                    }
                }
            }
        }
        assert(!transition_at(s@, i as int));
        i += 1;
    }
    None
}

/// Whether `s` names a dedicated transition.
pub fn has_transition_shape(s: &Vec<char>) -> (r: bool)
    ensures
        r == transition_shaped(s@),
{
    find_transition(s).is_some()
}

/// Whether `s` names a loop.
pub fn names_loop(s: &Vec<char>) -> (r: bool)
    ensures
        r == is_loop_id(s@),
{
    has_loop_shape(s) && !has_transition_shape(s)
}

/// Whether `s` names an ending.
pub fn names_end(s: &Vec<char>) -> (r: bool)
    ensures
        r == is_end_id(s@),
{
    let word = end_word();
    ends_with(s, &word)
}

/// A segment with its strings as character sequences.
pub struct SegmentView {
    pub id: Seq<char>,
    pub format: Seq<char>,
    /// The segments that may follow this one, in the order in which they were found.
    pub transitions: Seq<Seq<char>>,
}

/// One playable piece of a song.
#[derive(Debug, Clone, PartialEq, Eq)]
pub struct SongSegment {
    pub(crate) id: String,
    pub(crate) format: String,
    pub(crate) allowed_transitions: Vec<String>,
}

impl View for SongSegment {
    type V = SegmentView;

    open(crate) spec fn view(&self) -> SegmentView {
        SegmentView {
            id: self.id@,
            format: self.format@,
            transitions: texts(self.allowed_transitions@),
        }
    }
}

/// A copy of a vector of strings.
pub fn copy_strings(v: &Vec<String>) -> (r: Vec<String>)
    ensures
        r@ == v@,
{
    let mut r: Vec<String> = Vec::new();
    let mut i: usize = 0;
    while i < v.len()
        invariant
            i <= v.len(),
            r@ == v@.subrange(0, i as int),
        decreases v.len() - i,
    {
        r.push(v[i].clone());
        assert(r@ =~= v@.subrange(0, i + 1));
        i += 1;
    }
    assert(r@ =~= v@);
    r
}

impl SongSegment {
    /// A segment that nothing follows yet.
    pub fn new(id: &str, format: &str) -> (r: SongSegment)
        ensures
            r@ == (SegmentView { id: id@, format: format@, transitions: Seq::empty() }),
    {
        let r = SongSegment {
            id: String::from_str(id),
            format: String::from_str(format),
            allowed_transitions: Vec::new(),
        };
        assert(texts(r.allowed_transitions@) =~= Seq::empty());
        r
    }

    /// The segment's name.
    pub fn id(&self) -> (r: &str)
        ensures
            r@ == self@.id,
    {
        self.id.as_str()
    }

    /// The audio format of the segment's file, as its extension gives it.
    pub fn format(&self) -> (r: &str)
        ensures
            r@ == self@.format,
    {
        self.format.as_str()
    }

    /// The segments that may follow this one.
    pub fn allowed_transitions(&self) -> (r: &Vec<String>)
        ensures
            texts(r@) == self@.transitions,
    {
        &self.allowed_transitions
    }

    /// A copy of the segment.
    pub fn duplicate(&self) -> (r: SongSegment)
        ensures
            r@ == self@,
    {
        SongSegment {
            id: self.id.clone(),
            format: self.format.clone(),
            allowed_transitions: copy_strings(&self.allowed_transitions),
        }
    }

    /// Whether the segment is a loop: `loop` or `loop<N>` at the end of its name,
    /// and no dedicated transition.
    pub fn is_loop(&self) -> (r: bool)
        ensures
            r == is_loop_id(self@.id),
    {
        let id = chars_of(self.id.as_str());
        names_loop(&id)
    }

    /// Whether the segment bridges from one numbered loop to another:
    /// `loop<F>-to-<T>` somewhere in its name.
    pub fn is_dedicated_transition(&self) -> (r: bool)
        ensures
            r == transition_shaped(self@.id),
    {
        let id = chars_of(self.id.as_str());
        has_transition_shape(&id)
    }

    /// Whether the segment is an ending: its name ends in `end`.
    pub fn is_end(&self) -> (r: bool)
        ensures
            r == is_end_id(self@.id),
    {
        let id = chars_of(self.id.as_str());
        names_end(&id)
    }
}

/// What a file in the songs directory holds, by its extension.
#[derive(Debug, Clone, Copy, PartialEq, Eq)]
pub enum FileType {
    SegmentFormat,
    SongArchiveFormat,
}

/// What follows the last `.` of `name`; all of `name` where it holds none.
pub open spec fn extension_of(name: Seq<char>) -> Seq<char> {
    name.subrange(last_index(name, '.') + 1, name.len() as int)
}

/// The extensions of the audio formats that a segment may have.
pub open spec fn is_audio_extension(ext: Seq<char>) -> bool {
    ext == seq!['w', 'a', 'v'] || ext == seq!['o', 'g', 'g'] || ext == seq!['m', 'p', '3'] || ext
        == seq!['f', 'l', 'a', 'c']
}

/// The extension of a song archive.
pub open spec fn is_archive_extension(ext: Seq<char>) -> bool {
    ext == seq!['z', 'i', 'p']
}

/// The kind of file that `name` names, where its extension is known.
pub open spec fn file_type_of(name: Seq<char>) -> Option<FileType> {
    if is_audio_extension(extension_of(name)) {
        Some(FileType::SegmentFormat)
    } else if is_archive_extension(extension_of(name)) {
        Some(FileType::SongArchiveFormat)
    } else {
        None
    }
}

/// The song that the file `name` belongs to: what stands before its last `_`.
pub open spec fn song_name_of(name: Seq<char>) -> Seq<char> {
    if last_index(name, '_') < 0 {
        Seq::empty()
    } else {
        name.subrange(0, last_index(name, '_'))
    }
}

/// Where the segment's name begins in `name`: behind the last `_`.
pub open spec fn segment_start(name: Seq<char>) -> int {
    last_index(name, '_') + 1
}

/// Where the segment's name ends in `name`: at the first `.` behind the last `_`.
pub open spec fn segment_dot(name: Seq<char>) -> int {
    first_from(name, '.', segment_start(name))
}

/// Whether a `.` follows the last `_` of `name`, so that a format is given.
pub open spec fn names_format(name: Seq<char>) -> bool {
    segment_dot(name) < name.len()
}

/// The segment's name in `name`: from behind the last `_` up to the next `.`.
pub open spec fn segment_id_of(name: Seq<char>) -> Seq<char> {
    name.subrange(segment_start(name), segment_dot(name))
}

/// The format of the segment in `name`: from behind the segment's `.` up to the
/// next `.` or the end.
pub open spec fn segment_format_of(name: Seq<char>) -> Seq<char> {
    name.subrange(segment_dot(name) + 1, first_from(name, '.', segment_dot(name) + 1))
}

/// Whether `s` from position `from` on is exactly `word`.
fn rest_is(s: &Vec<char>, from: usize, word: Vec<char>) -> (r: bool)
    requires
        from <= s.len(),
    ensures
        r == (s@.subrange(from as int, s@.len() as int) == word@),
{
    word.len() == s.len() - from && matches_at(s, &word, from)
}

/// Tells a segment file from a song archive by the extension of `file_name`.
pub fn detect_file_type(file_name: &str) -> (r: Result<FileType, DjError>)
    ensures
        match r {
            Ok(t) => file_type_of(file_name@) == Some(t),
            Err(e) => file_type_of(file_name@).is_none() && e@ == ErrorView::UnrecognizedSongFormat(
                file_name@,
            ),
        },
{
    let name = chars_of(file_name);
    proof {
        lemma_last_index_bounds(name@, '.');
    }
    let from: usize = match find_last(&name, '.') {
        Some(i) => i + 1,
        None => 0,
    };
    let wav = vec!['w', 'a', 'v'];
    let ogg = vec!['o', 'g', 'g'];
    let mp3 = vec!['m', 'p', '3'];
    let flac = vec!['f', 'l', 'a', 'c'];
    let zip = vec!['z', 'i', 'p'];
    proof {
        assert(wav@ =~= seq!['w', 'a', 'v']);
        assert(ogg@ =~= seq!['o', 'g', 'g']);
        assert(mp3@ =~= seq!['m', 'p', '3']);
        assert(flac@ =~= seq!['f', 'l', 'a', 'c']);
        assert(zip@ =~= seq!['z', 'i', 'p']);
    }
    if rest_is(&name, from, wav) || rest_is(&name, from, ogg) || rest_is(&name, from, mp3)
        || rest_is(&name, from, flac) {
        Ok(FileType::SegmentFormat)
    } else if rest_is(&name, from, zip) {
        Ok(FileType::SongArchiveFormat)
    } else {
        Err(DjError::UnrecognizedSongFormat(String::from_str(file_name)))
    }
}

/// The song that a segment file belongs to, from the file's name.
pub fn get_song_name(file_name: &str) -> (r: Result<String, DjError>)
    ensures
        match r {
            Ok(name) => name@ == song_name_of(file_name@) && name@.len() > 0,
            Err(e) => song_name_of(file_name@).len() == 0 && e@ == ErrorView::InvalidFileName(
                file_name@,
            ),
        },
{
    let name = chars_of(file_name);
    proof {
        lemma_last_index_bounds(name@, '_');
    }
    match find_last(&name, '_') {
        Some(i) => {
            if i > 0 {
                Ok(slice_of(file_name, 0, i))
            } else {
                Err(DjError::InvalidFileName(String::from_str(file_name)))
            }
        },
        None => Err(DjError::InvalidFileName(String::from_str(file_name))),
    }
}

/// The segment that a file holds, from the file's name; nothing follows it yet.
pub fn parse_segment(file_name: &str) -> (r: Result<SongSegment, DjError>)
    ensures
        match r {
            Ok(segment) => names_format(file_name@) && segment@ == (SegmentView {
                id: segment_id_of(file_name@),
                format: segment_format_of(file_name@),
                transitions: Seq::empty(),
            }),
            Err(e) => !names_format(file_name@) && e@ == ErrorView::UnrecognizedSongFormat(
                file_name@,
            ),
        },
{
    let name = chars_of(file_name);
    proof {
        lemma_last_index_bounds(name@, '_');
    }
    let from: usize = match find_last(&name, '_') {
        Some(i) => i + 1,
        None => 0,
    };
    let dot: usize = find_first(&name, '.', from);
    if dot >= name.len() {
        return Err(DjError::UnrecognizedSongFormat(String::from_str(file_name)));
    }
    let stop: usize = find_first(&name, '.', dot + 1);
    let id = slice_of(file_name, from, dot);
    let format = slice_of(file_name, dot + 1, stop);
    Ok(SongSegment::new(id.as_str(), format.as_str()))
}

} // verus!
