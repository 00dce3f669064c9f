//! The transition graph of a song: which segments may follow each segment.

use vstd::prelude::*;
use vstd::string::*;
use crate::segment::{
    end_id, end_mark, find_transition, first_loop_id, has_transition_shape, is_end_id,
    is_loop_id, lemma_fixed_loops, lemma_fixed_names, lemma_transition_target, loop_at, loop_id, loop_shaped,
    loop_word, names_loop, start_id, start_word, to_mark, transition_shaped, transition_target,
    SegmentView, SongSegment,
};
use crate::song::{
    is_numbered_loop, lemma_position_from, position_from, segment_views, Song, SongView,
};
use crate::text::{
    chars_of, count_digits, digit_run, has_prefix, is_digit, lemma_digit_run_bounds, same_text,
    slice_of, starts_with, texts,
};

verus! {

/// Whether the numbered loop `id` may be followed by the segment `other`: by its
/// own dedicated transitions where the song has such transitions, by its own
/// ending where the song has no global one, and by every other loop where the
/// song has no dedicated transitions.
pub open spec fn follows(song: SongView, id: Seq<char>, other: Seq<char>) -> bool {
    ||| song.has_dedicated_transitions && transition_shaped(other) && has_prefix(
        other,
        id + to_mark(),
    )
    ||| !song.has_global_ending && other == id + end_mark()
    ||| !song.has_dedicated_transitions && is_loop_id(other) && other != id
}

/// `follows` for one song and one loop, as a predicate on the other segment.
pub open spec fn follows_fn(song: SongView, id: Seq<char>) -> spec_fn(Seq<char>) -> bool {
    |other: Seq<char>| follows(song, id, other)
}

/// The names of the song's segments, in their order.
pub open spec fn segment_ids(song: SongView) -> Seq<Seq<char>> {
    song.segments.map_values(|s: SegmentView| s.id)
}

/// `end` where the song has a global ending, else nothing.
pub open spec fn global_end(song: SongView) -> Seq<Seq<char>> {
    if song.has_end && song.has_global_ending {
        seq![end_id()]
    } else {
        Seq::empty()
    }
}

/// The segments that may follow the segment named `id` in `song`, in order.
pub open spec fn allowed_from(song: SongView, id: Seq<char>) -> Seq<Seq<char>> {
    if transition_shaped(id) {
        seq![transition_target(id)]
    } else if song.has_multiple_loops && is_loop_id(id) {
        global_end(song) + segment_ids(song).filter(follows_fn(song, id))
    } else if id == start_id() {
        seq![if song.has_multiple_loops { first_loop_id() } else { loop_id() }]
    } else if id == loop_id() {
        global_end(song)
    } else {
        Seq::empty()
    }
}

/// `segment` with what may follow it in `song`.
pub open spec fn linked(song: SongView, segment: SegmentView) -> SegmentView {
    SegmentView {
        id: segment.id,
        format: segment.format,
        transitions: allowed_from(song, segment.id),
    }
}

/// `song` with the transitions of every segment set from the song's names and flags.
pub open spec fn with_transitions(song: SongView) -> SongView {
    SongView {
        id: song.id,
        segments: song.segments.map_values(|s: SegmentView| linked(song, s)),
        has_end: song.has_end,
        has_global_ending: song.has_global_ending,
        has_multiple_loops: song.has_multiple_loops,
        has_dedicated_transitions: song.has_dedicated_transitions,
        is_archive: song.is_archive,
    }
}

/// The song's graph is built: every segment holds the transitions that the
/// song's names and flags give it.
pub open spec fn is_built(song: SongView) -> bool {
    forall|i: int|
        0 <= i < song.segments.len() ==> (#[trigger] song.segments[i]).transitions == allowed_from(
            song,
            song.segments[i].id,
        )
}

/// `s` and `t`, one after the other.
fn joined(s: &Vec<char>, t: Vec<char>) -> (r: Vec<char>)
    ensures
        r@ == s@ + t@,
{
    let mut r: Vec<char> = Vec::new();
    let mut i: usize = 0;
    while i < s.len()
        invariant
            i <= s.len(),
            r@ == s@.subrange(0, i as int),
        decreases s.len() - i,
    {
        r.push(s[i]);
        assert(r@ =~= s@.subrange(0, i + 1));
        i += 1;
    }
    let mut j: usize = 0;
    while j < t.len()
        invariant
            j <= t.len(),
            r@ == s@ + t@.subrange(0, j as int),
        decreases t.len() - j,
    {
        r.push(t[j]);
        assert(r@ =~= s@ + t@.subrange(0, j + 1));
        j += 1;
    }
    assert(r@ =~= s@ + t@);
    r
}

/// A vector that holds `end` where the song has a global ending.
fn global_end_of(song: &Song) -> (r: Vec<String>)
    ensures
        texts(r@) == global_end(song@),
{
    let mut r: Vec<String> = Vec::new();
    if song.has_end && song.has_global_ending {
        r.push(String::from_str("end"));
        proof {
            reveal_strlit("end");
            assert("end"@ =~= end_id());
            assert(texts(r@) =~= seq![end_id()]);
        }
    } else {
        assert(texts(r@) =~= Seq::empty());
    }
    r
}

/// The loop that the dedicated transition `id` leads to.
fn target_of(id: &str) -> (r: String)
    requires
        transition_shaped(id@),
    ensures
        r@ == transition_target(id@),
{
    let chars = chars_of(id);
    let at: usize = match find_transition(&chars) {
        Some(i) => i,
        None => 0,
    };
    proof {
        lemma_digit_run_bounds(chars@, at + 4);
    }
    let from: usize = at + 4;
    let to: usize = from + count_digits(&chars, from) + 4;
    proof {
        lemma_digit_run_bounds(chars@, to as int);
    }
    let n: usize = count_digits(&chars, to);
    let number = slice_of(id, to, to + n);
    let mut r = String::from_str("loop");
    r.append(number.as_str());
    proof {
        reveal_strlit("loop");
        assert("loop"@ =~= loop_id());
    }
    r
}

/// The segments that may follow `segment` in `song`.
pub fn transitions_from(song: &Song, segment: &SongSegment) -> (r: Vec<String>)
    ensures
        texts(r@) == allowed_from(song@, segment@.id),
{
    let id = chars_of(segment.id.as_str());
    if has_transition_shape(&id) {
        let mut r: Vec<String> = Vec::new();
        r.push(target_of(segment.id.as_str()));
        assert(texts(r@) =~= seq![transition_target(segment@.id)]);
        return r;
    }
    if song.has_multiple_loops && names_loop(&id) {
        return loop_transitions(song, &id);
    }
    let word_start = start_word();
    let word_loop = loop_word();
    if same_text(&id, &word_start) {
        let mut r: Vec<String> = Vec::new();
        if song.has_multiple_loops {
            r.push(String::from_str("loop0"));
            proof {
                reveal_strlit("loop0");
                assert("loop0"@ =~= first_loop_id());
                assert(texts(r@) =~= seq![first_loop_id()]);
            }
        } else {
            r.push(String::from_str("loop"));
            proof {
                reveal_strlit("loop");
                assert("loop"@ =~= loop_id());
                assert(texts(r@) =~= seq![loop_id()]);
            }
        }
        r
    } else if same_text(&id, &word_loop) {
        global_end_of(song)
    } else {
        let r: Vec<String> = Vec::new();
        assert(texts(r@) =~= Seq::empty());
        r
    }
}

/// The segments that may follow the numbered loop `id` in `song`.
fn loop_transitions(song: &Song, id: &Vec<char>) -> (r: Vec<String>)
    ensures
        texts(r@) == global_end(song@) + segment_ids(song@).filter(follows_fn(song@, id@)),
{
    let mark_to = vec!['-', 't', 'o'];
    let mark_end = vec!['-', 'e', 'n', 'd'];
    assert(mark_to@ =~= to_mark());
    assert(mark_end@ =~= end_mark());
    let own_transitions = joined(id, mark_to);
    let own_end = joined(id, mark_end);
    let mut r = global_end_of(song);
    let ghost ids = segment_ids(song@);
    let ghost keep = follows_fn(song@, id@);
    assert(ids.subrange(0, 0) =~= Seq::empty());
    let mut i: usize = 0;
    while i < song.segments.len()
        invariant
            i <= song.segments.len(),
            ids == segment_ids(song@),
            ids.len() == song.segments.len(),
            keep == follows_fn(song@, id@),
            own_transitions@ == id@ + to_mark(),
            own_end@ == id@ + end_mark(),
            texts(r@) == global_end(song@) + ids.subrange(0, i as int).filter(keep),
        decreases song.segments.len() - i,
    {
        let other = &song.segments[i];
        let other_id = chars_of(other.id.as_str());
        assert(ids[i as int] == other_id@);
        let follows_it = if song.has_dedicated_transitions && has_transition_shape(&other_id)
            && starts_with(&other_id, &own_transitions) {
            true
        } else if !song.has_global_ending && same_text(&other_id, &own_end) {
            true
        } else {
            !song.has_dedicated_transitions && names_loop(&other_id) && !same_text(&other_id, id)
        };
        proof {
            assert(follows_it == keep(other_id@));
            assert(ids.subrange(0, i + 1) =~= ids.subrange(0, i as int).push(other_id@));
            ids.subrange(0, i as int).lemma_filter_push(other_id@, keep);
        }
        if follows_it {
            let ghost before = texts(r@);
            r.push(other.id.clone());
            assert(texts(r@) =~= before.push(other_id@));
            assert(texts(r@) =~= global_end(song@) + ids.subrange(0, i + 1).filter(keep));
        }
        i += 1;
    }
    assert(ids.subrange(0, i as int) =~= ids);
    r
}

impl Song {
    /// Sets what may follow each segment, from the song's names and flags as they
    /// stand, and puts the new segments in place of the old ones at once.
    pub fn build_transitions(&mut self)
        ensures
            final(self)@ == with_transitions(old(self)@),
            is_built(final(self)@),
            old(self)@.wf() ==> final(self)@.wf(),
    {
        let mut segments: Vec<SongSegment> = Vec::new();
        let ghost before = self@;
        let mut i: usize = 0;
        while i < self.segments.len()
            invariant
                i <= self.segments.len(),
                before == self@,
                segments.len() == i,
                forall|k: int|
                    0 <= k < i ==> (#[trigger] segments[k])@ == linked(before, before.segments[k]),
            decreases self.segments.len() - i,
        {
            let segment = &self.segments[i];
            let next = transitions_from(self, segment);
            let linked_segment = SongSegment {
                id: segment.id.clone(),
                format: segment.format.clone(),
                allowed_transitions: next,
            };
            assert(linked_segment@ == linked(before, before.segments[i as int]));
            segments.push(linked_segment);
            i += 1;
        }
        assert(segment_views(segments@) =~= with_transitions(before).segments);
        self.segments = segments;
        proof {
            lemma_with_transitions_built(before);
            if before.wf() {
                lemma_with_transitions_wf(before);
            }
        }
    }
}

/// What may follow a segment depends on the song's names and flags alone, so a
/// song whose transitions were set holds a built graph.
pub proof fn lemma_with_transitions_built(song: SongView)
    ensures
        is_built(with_transitions(song)),
{
    let after = with_transitions(song);
    assert(segment_ids(after) =~= segment_ids(song));
    assert forall|i: int| 0 <= i < after.segments.len() implies (#[trigger] after.segments[i]).transitions
        == allowed_from(after, after.segments[i].id) by {
        let id = song.segments[i].id;
        assert(after.segments[i] == linked(song, song.segments[i]));
        assert(follows_fn(after, id) =~= follows_fn(song, id));
        assert(allowed_from(after, id) == allowed_from(song, id));
    }
}

/// What a filter kept was there before and meets the filter's predicate.
pub proof fn lemma_filtered(s: Seq<Seq<char>>, keep: spec_fn(Seq<char>) -> bool, x: Seq<char>)
    requires
        s.filter(keep).contains(x),
    ensures
        s.contains(x),
        keep(x),
{
    s.lemma_filter_contains_rev(keep, x);
    let i = choose|i: int| 0 <= i < s.filter(keep).len() && s.filter(keep)[i] == x;
    s.lemma_filter_pred(keep, i);
}

/// A segment that follows a numbered loop is one of the song's segments, and is
/// none of `start`, `end` and the loop itself.
pub proof fn lemma_follows(song: SongView, id: Seq<char>, other: Seq<char>)
    requires
        segment_ids(song).filter(follows_fn(song, id)).contains(other),
    ensures
        exists|k: int| 0 <= k < song.segments.len() && song.segments[k].id == other,
        other != end_id(),
        other != start_id(),
        other != id,
{
    lemma_filtered(segment_ids(song), follows_fn(song, id), other);
    let k = choose|k: int| 0 <= k < segment_ids(song).len() && segment_ids(song)[k] == other;
    assert(song.segments[k].id == other);
    lemma_fixed_names();
    assert(follows(song, id, other));
    if other == id + end_mark() {
        assert(other.len() == id.len() + 4);
        assert(other[other.len() - 1] == 'd');
    }
    if has_prefix(other, id + to_mark()) {
        assert(other.subrange(0, (id + to_mark()).len() as int).len() == id.len() + 3);
    }
}

/// In a song without an ending no segment is followed by `end`.
pub proof fn lemma_no_end_without_ending(song: SongView, id: Seq<char>)
    requires
        !song.has_end,
    ensures
        !allowed_from(song, id).contains(end_id()),
{
    lemma_fixed_names();
    let next = allowed_from(song, id);
    if next.contains(end_id()) {
        let j = choose|j: int| 0 <= j < next.len() && next[j] == end_id();
        if transition_shaped(id) {
            lemma_transition_target(id);
        } else if song.has_multiple_loops && is_loop_id(id) {
            assert(next =~= segment_ids(song).filter(follows_fn(song, id)));
            lemma_follows(song, id, end_id());
        }
    }
}

/// No segment is followed by `start`.
pub proof fn lemma_no_way_back_to_start(song: SongView, id: Seq<char>)
    ensures
        !allowed_from(song, id).contains(start_id()),
{
    lemma_fixed_names();
    let next = allowed_from(song, id);
    if next.contains(start_id()) {
        let j = choose|j: int| 0 <= j < next.len() && next[j] == start_id();
        if transition_shaped(id) {
            lemma_transition_target(id);
            assert(transition_target(id).subrange(0, 4)[0] == transition_target(id)[0]);
        } else if song.has_multiple_loops && is_loop_id(id) {
            let rest = segment_ids(song).filter(follows_fn(song, id));
            if j >= global_end(song).len() {
                assert(rest[j - global_end(song).len()] == start_id());
                assert(rest.contains(start_id()));
                lemma_follows(song, id, start_id());
            }
        }
    }
}

/// Nothing follows an ending, unless its name is that of a dedicated transition
/// as well.
pub proof fn lemma_endings_lead_nowhere(song: SongView, id: Seq<char>)
    requires
        is_end_id(id),
        !transition_shaped(id),
    ensures
        allowed_from(song, id).len() == 0,
{
    lemma_fixed_names();
    let n = id.len() as int;
    assert(id.subrange(n - 3, n)[2] == id[n - 1]);
    if loop_shaped(id) {
        let i = choose|i: int| loop_at(id, i);
        lemma_digit_run_bounds(id, i + 4);
        if digit_run(id, i + 4) == 0 {
            assert(id.subrange(i, i + 4)[3] == id[n - 1]);
        } else {
            assert(is_digit(id[n - 1]));
        }
    }
    assert(id[n - 1] == 'd');
}

/// In a song with a global ending something may follow every loop.
pub proof fn lemma_loop_leads_on(song: SongView, id: Seq<char>)
    requires
        song.has_end && song.has_global_ending,
        is_loop_id(id),
        song.has_multiple_loops || id == loop_id(),
    ensures
        allowed_from(song, id).len() > 0,
{
    assert(global_end(song).len() == 1);
    assert(id != start_id()) by {
        lemma_fixed_names();
    }
}

/// A song with a numbered loop among its segments has the flag for it.
pub proof fn lemma_numbered_loop_flag(song: SongView, k: int)
    requires
        song.flags_match(),
        0 <= k < song.segments.len(),
        is_numbered_loop(song.segments[k].id),
    ensures
        song.has_multiple_loops,
{
}

/// The loop that a dedicated transition leads to is a numbered loop.
pub proof fn lemma_target_is_numbered(id: Seq<char>)
    requires
        transition_shaped(id),
    ensures
        is_numbered_loop(transition_target(id)),
        is_loop_id(transition_target(id)),
{
    let target = transition_target(id);
    assert(target.len() >= 5 && loop_shaped(target) && !transition_shaped(target)) by {
        lemma_transition_target(id);
    }
    assert(loop_id().len() == 4);
    assert(target != loop_id());
}

/// In a song with a global ending, whatever may follow a segment is an ending or
/// is followed by something itself: no walk through the graph is stuck before
/// an ending.
pub proof fn lemma_global_ending_leads_on(song: SongView, id: Seq<char>, next: Seq<char>)
    requires
        song.flags_match(),
        song.has_end && song.has_global_ending,
        allowed_from(song, id).contains(next),
        song.has_segment(next),
        !is_end_id(next),
    ensures
        allowed_from(song, next).len() > 0,
{
    let all = allowed_from(song, id);
    let j = choose|j: int| 0 <= j < all.len() && all[j] == next;
    if transition_shaped(next) {
    } else if transition_shaped(id) {
        lemma_target_is_numbered(id);
        lemma_position_from(song.segments, next, 0);
        lemma_numbered_loop_flag(song, song.position(next));
        lemma_loop_leads_on(song, next);
    } else if song.has_multiple_loops && is_loop_id(id) {
        lemma_follower_leads_on(song, id, next, j);
    } else if id == start_id() {
        lemma_fixed_loops();
        lemma_loop_leads_on(song, next);
    } else {
        assert(is_end_id(end_id())) by {
            lemma_fixed_names();
        }
    }
}

/// In a song with a global ending something may follow each loop that may
/// follow a numbered loop.
proof fn lemma_follower_leads_on(song: SongView, id: Seq<char>, next: Seq<char>, j: int)
    requires
        song.has_end && song.has_global_ending,
        song.has_multiple_loops,
        0 <= j < (global_end(song) + segment_ids(song).filter(follows_fn(song, id))).len(),
        (global_end(song) + segment_ids(song).filter(follows_fn(song, id)))[j] == next,
        !is_end_id(next),
        !transition_shaped(next),
    ensures
        allowed_from(song, next).len() > 0,
{
    assert(is_end_id(end_id())) by {
        lemma_fixed_names();
    }
    let rest = segment_ids(song).filter(follows_fn(song, id));
    assert(rest[j - 1] == next);
    assert(rest.contains(next));
    lemma_filtered(segment_ids(song), follows_fn(song, id), next);
    assert(follows(song, id, next));
    lemma_loop_leads_on(song, next);
}

/// A song of `start` and numbered loops alone, with one loop at least, knows no
/// `loop`: no segment has that name, and none is followed by it.
pub proof fn lemma_no_plain_loop(song: SongView, id: Seq<char>)
    requires
        song.flags_match(),
        forall|k: int|
            0 <= k < song.segments.len() ==> (#[trigger] song.segments[k]).id == start_id()
                || is_numbered_loop(song.segments[k].id),
        exists|k: int| 0 <= k < song.segments.len() && is_numbered_loop(#[trigger] song.segments[k].id),
    ensures
        forall|k: int| 0 <= k < song.segments.len() ==> (#[trigger] song.segments[k]).id != loop_id(),
        !allowed_from(song, id).contains(loop_id()),
{
    lemma_fixed_names();
    assert(song.has_multiple_loops);
    assert forall|k: int| 0 <= k < song.segments.len() implies (#[trigger] song.segments[k]).id
        != loop_id() by {}
    let next = allowed_from(song, id);
    if next.contains(loop_id()) {
        let j = choose|j: int| 0 <= j < next.len() && next[j] == loop_id();
        if transition_shaped(id) {
            lemma_transition_target(id);
        } else if song.has_multiple_loops && is_loop_id(id) {
            let rest = segment_ids(song).filter(follows_fn(song, id));
            if j >= global_end(song).len() {
                assert(rest[j - global_end(song).len()] == loop_id());
                assert(rest.contains(loop_id()));
                lemma_follows(song, id, loop_id());
            }
        }
    }
}

/// What may follow a segment was set from the song's names and flags: setting
/// it changes neither, so the song stays well formed.
pub proof fn lemma_with_transitions_wf(song: SongView)
    requires
        song.wf(),
    ensures
        with_transitions(song).wf(),
{
    let after = with_transitions(song);
    assert forall|i: int| 0 <= i < song.segments.len() implies (#[trigger] after.segments[i]).id
        == song.segments[i].id by {}
    lemma_same_names(song, after, end_id(), 0);
    if song.has_end {
        let i = choose|i: int| 0 <= i < song.segments.len() && is_end_id(#[trigger] song.segments[i].id);
        assert(is_end_id(after.segments[i].id));
    }
    if song.has_multiple_loops {
        let i = choose|i: int|
            0 <= i < song.segments.len() && is_numbered_loop(#[trigger] song.segments[i].id);
        assert(is_numbered_loop(after.segments[i].id));
    }
    if song.has_dedicated_transitions {
        let i = choose|i: int|
            0 <= i < song.segments.len() && transition_shaped(#[trigger] song.segments[i].id);
        assert(transition_shaped(after.segments[i].id));
    }
    assert(after.flags_match());
}

/// Where a segment stands depends on the segments' names alone.
pub proof fn lemma_same_names(a: SongView, b: SongView, id: Seq<char>, from: int)
    requires
        a.segments.len() == b.segments.len(),
        forall|i: int| 0 <= i < a.segments.len() ==> a.segments[i].id == b.segments[i].id,
        0 <= from <= a.segments.len(),
    ensures
        position_from(a.segments, id, from) == position_from(b.segments, id, from),
    decreases a.segments.len() - from,
{
    if from < a.segments.len() && a.segments[from].id != id {
        lemma_same_names(a, b, id, from + 1);
    }
}

/// A filter keeps a sequence free of repeats.
pub proof fn lemma_filter_distinct(s: Seq<Seq<char>>, keep: spec_fn(Seq<char>) -> bool)
    requires
        s.no_duplicates(),
    ensures
        s.filter(keep).no_duplicates(),
    decreases s.len(),
{
    reveal(Seq::filter);
    if s.len() > 0 {
        let front = s.drop_last();
        lemma_filter_distinct(front, keep);
        let kept = front.filter(keep);
        assert forall|i: int| 0 <= i < kept.len() implies kept[i] != s.last() by {
            assert(kept.contains(kept[i]));
            front.lemma_filter_contains_rev(keep, kept[i]);
            let j = choose|j: int| 0 <= j < front.len() && front[j] == kept[i];
            assert(s[j] == front[j]);
        }
    }
}

/// Where no two segments of a song share a name, no segment is followed by the
/// same segment twice: the transitions of a segment are a set.
pub proof fn lemma_transitions_distinct(song: SongView, id: Seq<char>)
    requires
        song.names_unique(),
    ensures
        allowed_from(song, id).no_duplicates(),
{
    if !transition_shaped(id) && song.has_multiple_loops && is_loop_id(id) {
        let ids = segment_ids(song);
        let rest = ids.filter(follows_fn(song, id));
        lemma_filter_distinct(ids, follows_fn(song, id));
        let first = global_end(song);
        let next = first + rest;
        assert forall|i: int, j: int| 0 <= i < j < next.len() implies next[i] != next[j] by {
            if i < first.len() {
                assert(rest.contains(rest[j - first.len()]));
                lemma_follows(song, id, rest[j - first.len()]);
            }
        }
    }
}

/// Builds the transition graph of every song in the catalog.
pub fn initialize_transitions(songs: &mut Vec<Song>)
    ensures
        final(songs).len() == old(songs).len(),
        forall|i: int|
            0 <= i < old(songs).len() ==> (#[trigger] final(songs)[i])@ == with_transitions(
                old(songs)[i]@,
            ),
        forall|i: int| 0 <= i < final(songs).len() ==> is_built((#[trigger] final(songs)[i])@),
        forall|i: int|
            0 <= i < old(songs).len() && old(songs)[i]@.wf() ==> (#[trigger] final(songs)[i])@.wf(),
{
    let mut i: usize = 0;
    while i < songs.len()
        invariant
            i <= songs.len(),
            songs.len() == old(songs).len(),
            forall|k: int| 0 <= k < i ==> (#[trigger] songs[k])@ == with_transitions(old(songs)[k]@),
            forall|k: int| 0 <= k < i ==> is_built((#[trigger] songs[k])@),
            forall|k: int| 0 <= k < i && old(songs)[k]@.wf() ==> (#[trigger] songs[k])@.wf(),
            forall|k: int| i <= k < songs.len() ==> songs[k] == old(songs)[k],
        decreases songs.len() - i,
    {
        proof {
            if songs[i as int]@.wf() {
                lemma_with_transitions_wf(songs[i as int]@);
            }
        }
        songs[i].build_transitions();
        i += 1;
    }
}

} // verus!
