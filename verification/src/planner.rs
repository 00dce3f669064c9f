//! The planner: one playthrough of a song, as a walk through its transition graph.

use rand::rngs::ThreadRng;
use rand::seq::SliceRandom;
use vstd::prelude::*;
use vstd::string::*;
use crate::errors::{DjError, ErrorView};
use crate::segment::{
    end_id, has_transition_shape, is_end_id, lemma_fixed_names, lemma_transition_target,
    names_end, start_id, transition_shaped, transition_target, SegmentView, SongSegment,
};
use crate::graph::{
    allowed_from, is_built, lemma_global_ending_leads_on, lemma_no_end_without_ending,
};
use crate::song::{lemma_position_from, segment_views, Song, SongView};
use crate::text::{chars_of, has_prefix, starts_with, texts};

verus! {

/// `rand::rngs::ThreadRng`, the random source of the thread: handed through to
/// the calls that draw from it, with nothing known of what it holds.
#[verifier::external_type_specification]
#[verifier::external_body]
pub struct ExThreadRng(ThreadRng);

/// `rand::seq::SliceRandom::choose` on the slice of a vector: nothing where the
/// vector is empty, else one of its elements. Which one is left open.
#[verifier::external_body]
fn choose_one<'a>(candidates: &'a Vec<String>, rng: &mut ThreadRng) -> (r: Option<&'a String>)
    ensures
        r.is_none() <==> candidates@.len() == 0,
        match r {
            Some(chosen) => candidates@.contains(*chosen),
            None => true,
        },
{
    candidates.choose(rng)
}

/// The longest plan that the planner goes on from.
pub const STEP_LIMIT: usize = 100;

/// Whether a plan of `len` segments is long enough to be brought to its end: more
/// than 7 segments for a song with an ending, more than 4 for one without.
pub open spec fn past_length(song: SongView, len: int) -> bool {
    (song.has_end && len > 7) || (!song.has_end && len > 4)
}

/// Some ending of the song begins with `id`: the segment leads to its own ending.
pub open spec fn leads_to_end(song: SongView, id: Seq<char>) -> bool {
    exists|k: int|
        0 <= k < song.segments.len() && is_end_id(#[trigger] song.segments[k].id) && has_prefix(
            song.segments[k].id,
            id,
        )
}

/// `is_end_id` as a predicate to filter with.
pub open spec fn ends_fn() -> spec_fn(Seq<char>) -> bool {
    |id: Seq<char>| is_end_id(id)
}

/// `leads_to_end` for one song, as a predicate to filter with.
pub open spec fn leads_fn(song: SongView) -> spec_fn(Seq<char>) -> bool {
    |id: Seq<char>| leads_to_end(song, id)
}

/// The segments that the planner chooses from after `plan`. Once a song with an
/// ending has more than 7 segments in its plan, endings go first, then segments
/// that lead to an ending of their own; where there is neither, and before that,
/// it is every segment that may follow the last one.
pub open spec fn candidates(song: SongView, plan: Seq<SegmentView>) -> Seq<Seq<char>> {
    let all = plan.last().transitions;
    if song.has_end && plan.len() > 7 {
        if all.filter(ends_fn()).len() > 0 {
            all.filter(ends_fn())
        } else if all.filter(leads_fn(song)).len() > 0 {
            all.filter(leads_fn(song))
        } else {
            all
        }
    } else {
        all
    }
}

/// The plan after the segment named `next` was chosen, and whether it is complete.
///
/// An ending completes the plan. A plan that is long enough goes on after a
/// dedicated transition, is closed with `end` where the song has a global
/// ending, is complete as it stands where the song has no ending, and goes on
/// where the song has endings of single loops only.
pub open spec fn step(song: SongView, plan: Seq<SegmentView>, next: Seq<char>) -> (
    Seq<SegmentView>,
    bool,
) {
    let longer = plan.push(song.segment(next));
    if is_end_id(next) {
        (longer, true)
    } else if past_length(song, longer.len() as int) {
        if song.has_dedicated_transitions && transition_shaped(next) {
            (longer, false)
        } else if song.has_end && song.has_global_ending {
            (longer.push(song.segment(end_id())), true)
        } else if !song.has_end {
            (longer, true)
        } else {
            (longer, false)
        }
    } else {
        (longer, false)
    }
}

/// The planner can come to `plan`, complete or not, by some choices: it starts
/// from `start` alone, and each choice is one of the candidates of the plan
/// before it.
pub open spec fn reached(song: SongView, plan: Seq<SegmentView>, done: bool) -> bool
    decreases plan.len(),
{
    if plan.len() <= 1 {
        plan == seq![song.segment(start_id())] && !done
    } else {
        let one = plan.drop_last();
        let two = plan.drop_last().drop_last();
        ||| reached(song, one, false) && candidates(song, one).contains(plan.last().id) && step(
            song,
            one,
            plan.last().id,
        ) == (plan, done)
        ||| plan.len() >= 3 && reached(song, two, false) && candidates(song, two).contains(
            one.last().id,
        ) && step(song, two, one.last().id) == (plan, done)
    }
}

/// What the planner may return for `song`: a plan that it completed, or one that
/// it came to and that nothing can follow.
pub open spec fn is_plan(song: SongView, plan: Seq<SegmentView>) -> bool {
    reached(song, plan, true) || (reached(song, plan, false) && candidates(song, plan).len() == 0)
}

/// The song can be planned: it has a `start`, every transition leads to a segment
/// of the song, and a song with a global ending has the segment `end`.
pub open spec fn plannable(song: SongView) -> bool {
    &&& song.has_segment(start_id())
    &&& forall|i: int, j: int|
        0 <= i < song.segments.len() && 0 <= j < song.segments[i].transitions.len()
            ==> song.has_segment(#[trigger] song.segments[i].transitions[j])
    &&& song.has_end && song.has_global_ending ==> song.has_segment(end_id())
}

/// Every segment of a plan that the planner can come to is a segment of the song.
pub proof fn lemma_reached_in_song(song: SongView, plan: Seq<SegmentView>, done: bool)
    requires
        plannable(song),
        reached(song, plan, done),
    ensures
        plan.len() >= 1,
        plan[0] == song.segment(start_id()),
        forall|i: int| 0 <= i < plan.len() ==> song.segments.contains(#[trigger] plan[i]),
    decreases plan.len(),
{
    lemma_position_from(song.segments, start_id(), 0);
    lemma_position_from(song.segments, end_id(), 0);
    if plan.len() <= 1 {
        assert(plan[0] == song.segment(start_id()));
    } else {
        let one = plan.drop_last();
        let two = one.drop_last();
        if reached(song, one, false) && candidates(song, one).contains(plan.last().id) && step(
            song,
            one,
            plan.last().id,
        ) == (plan, done) {
            lemma_reached_in_song(song, one, false);
            lemma_candidate_in_song(song, one, plan.last().id);
            let next = plan.last().id;
            lemma_position_from(song.segments, next, 0);
            assert(plan[0] == one[0]);
            assert forall|i: int| 0 <= i < plan.len() implies song.segments.contains(
                #[trigger] plan[i],
            ) by {
                if i < one.len() {
                    assert(plan[i] == one[i]);
                }
            }
        } else {
            lemma_reached_in_song(song, two, false);
            lemma_candidate_in_song(song, two, one.last().id);
            let next = one.last().id;
            lemma_position_from(song.segments, next, 0);
            assert(plan[0] == two[0]);
            assert forall|i: int| 0 <= i < plan.len() implies song.segments.contains(
                #[trigger] plan[i],
            ) by {
                if i < two.len() {
                    assert(plan[i] == two[i]);
                }
            }
        }
    }
}

/// A candidate is one of the transitions of the plan's last segment, and so a
/// segment of the song.
pub proof fn lemma_candidate_in_song(song: SongView, plan: Seq<SegmentView>, next: Seq<char>)
    requires
        plannable(song),
        plan.len() >= 1,
        song.segments.contains(plan.last()),
        candidates(song, plan).contains(next),
    ensures
        plan.last().transitions.contains(next),
        song.has_segment(next),
{
    let all = plan.last().transitions;
    if all.filter(ends_fn()).contains(next) {
        all.lemma_filter_contains_rev(ends_fn(), next);
    }
    if all.filter(leads_fn(song)).contains(next) {
        all.lemma_filter_contains_rev(leads_fn(song), next);
    }
    assert(all.contains(next));
    let i = choose|i: int| 0 <= i < song.segments.len() && song.segments[i] == plan.last();
    let j = choose|j: int| 0 <= j < all.len() && all[j] == next;
    assert(song.has_segment(song.segments[i].transitions[j]));
}

/// The strings of `all` that name an ending.
fn only_ends(all: &Vec<String>) -> (r: Vec<String>)
    ensures
        texts(r@) == texts(all@).filter(ends_fn()),
{
    let mut r: Vec<String> = Vec::new();
    let ghost ids = texts(all@);
    assert(ids.subrange(0, 0) =~= Seq::empty());
    assert(texts(r@) =~= Seq::empty());
    let mut i: usize = 0;
    while i < all.len()
        invariant
            i <= all.len(),
            ids == texts(all@),
            texts(r@) == ids.subrange(0, i as int).filter(ends_fn()),
        decreases all.len() - i,
    {
        let id = chars_of(all[i].as_str());
        let keep = names_end(&id);
        proof {
            assert(ids.subrange(0, i + 1) =~= ids.subrange(0, i as int).push(id@));
            ids.subrange(0, i as int).lemma_filter_push(id@, ends_fn());
        }
        if keep {
            let ghost before = texts(r@);
            r.push(all[i].clone());
            assert(texts(r@) =~= before.push(id@));
        }
        i += 1;
    }
    assert(ids.subrange(0, i as int) =~= ids);
    r
}

impl Song {
    /// Whether some ending of the song begins with `id`.
    fn has_ending_from(&self, id: &Vec<char>) -> (r: bool)
        ensures
            r == leads_to_end(self@, id@),
    {
        let mut k: usize = 0;
        while k < self.segments.len()
            invariant
                k <= self.segments.len(),
                forall|j: int|
                    0 <= j < k ==> !(is_end_id(#[trigger] self@.segments[j].id) && has_prefix(
                        self@.segments[j].id,
                        id@,
                    )),
            decreases self.segments.len() - k,
        {
            let other = chars_of(self.segments[k].id.as_str());
            assert(self@.segments[k as int].id == other@);
            if names_end(&other) && starts_with(&other, id) {
                return true;
            }
            k += 1;
        }
        false
    }

    /// The strings of `all` that lead to an ending of their own.
    fn only_leading(&self, all: &Vec<String>) -> (r: Vec<String>)
        ensures
            texts(r@) == texts(all@).filter(leads_fn(self@)),
    {
        let mut r: Vec<String> = Vec::new();
        let ghost ids = texts(all@);
        assert(ids.subrange(0, 0) =~= Seq::empty());
        assert(texts(r@) =~= Seq::empty());
        let mut i: usize = 0;
        while i < all.len()
            invariant
                i <= all.len(),
                ids == texts(all@),
                texts(r@) == ids.subrange(0, i as int).filter(leads_fn(self@)),
            decreases all.len() - i,
        {
            let id = chars_of(all[i].as_str());
            let keep = self.has_ending_from(&id);
            proof {
                assert(ids.subrange(0, i + 1) =~= ids.subrange(0, i as int).push(id@));
                ids.subrange(0, i as int).lemma_filter_push(id@, leads_fn(self@));
            }
            if keep {
                let ghost before = texts(r@);
                r.push(all[i].clone());
                assert(texts(r@) =~= before.push(id@));
            }
            i += 1;
        }
        assert(ids.subrange(0, i as int) =~= ids);
        r
    }

    /// The segments to choose the next one from, after `plan`.
    pub fn plan_candidates(&self, plan: &Vec<SongSegment>) -> (r: Vec<String>)
        requires
            plan.len() >= 1,
        ensures
            texts(r@) == candidates(self@, segment_views(plan@)),
    {
        let last = &plan[plan.len() - 1];
        assert(segment_views(plan@).last() == last@);
        if self.has_end && plan.len() > 7 {
            let ends = only_ends(&last.allowed_transitions);
            if ends.len() > 0 {
                return ends;
            }
            let leading = self.only_leading(&last.allowed_transitions);
            if leading.len() > 0 {
                return leading;
            }
        }
        crate::segment::copy_strings(&last.allowed_transitions)
    }

    /// Puts the segment named `next` at the end of `plan`, closes the plan with
    /// `end` where that is due, and says whether the plan is complete.
    pub fn extend_plan(&self, plan: &mut Vec<SongSegment>, next: &str) -> (done: bool)
        requires
            self@.has_segment(next@),
            self@.has_end && self@.has_global_ending ==> self@.has_segment(end_id()),
        ensures
            (segment_views(final(plan)@), done) == step(
                self@,
                segment_views(old(plan)@),
                next@,
            ),
    {
        let ghost before = segment_views(plan@);
        match self.segment(next) {
            Some(segment) => {
                plan.push(segment.duplicate());
            },
            None => {},
        }
        let ghost longer = segment_views(plan@);
        assert(longer =~= before.push(self@.segment(next@)));
        let id = chars_of(next);
        if names_end(&id) {
            return true;
        }
        let long_enough = if self.has_end {
            plan.len() > 7
        } else {
            plan.len() > 4
        };
        if long_enough {
            if self.has_dedicated_transitions && has_transition_shape(&id) {
                return false;
            }
            if self.has_end && self.has_global_ending {
                proof {
                    reveal_strlit("end");
                    assert("end"@ =~= end_id());
                }
                match self.segment("end") {
                    Some(segment) => {
                        plan.push(segment.duplicate());
                    },
                    None => {},
                }
                assert(segment_views(plan@) =~= longer.push(self@.segment(end_id())));
                return true;
            }
            if !self.has_end {
                return true;
            }
        }
        false
    }

    /// Whether the song can be planned.
    pub fn can_plan(&self) -> (r: bool)
        ensures
            r == plannable(self@),
    {
        proof {
            reveal_strlit("start");
            assert("start"@ =~= start_id());
            reveal_strlit("end");
            assert("end"@ =~= end_id());
        }
        if self.find_segment("start").is_none() {
            return false;
        }
        if self.has_end && self.has_global_ending && self.find_segment("end").is_none() {
            return false;
        }
        let mut i: usize = 0;
        while i < self.segments.len()
            invariant
                i <= self.segments.len(),
                forall|a: int, b: int|
                    0 <= a < i && 0 <= b < self@.segments[a].transitions.len()
                        ==> self@.has_segment(#[trigger] self@.segments[a].transitions[b]),
            decreases self.segments.len() - i,
        {
            let next = &self.segments[i].allowed_transitions;
            assert(self@.segments[i as int].transitions == texts(next@));
            let mut j: usize = 0;
            while j < next.len()
                invariant
                    j <= next.len(),
                    i < self.segments.len(),
                    self@.segments[i as int].transitions == texts(next@),
                    forall|b: int| 0 <= b < j ==> self@.has_segment(#[trigger] texts(next@)[b]),
                decreases next.len() - j,
            {
                if self.find_segment(next[j].as_str()).is_none() {
                    assert(!self@.has_segment(self@.segments[i as int].transitions[j as int]));
                    return false;
                }
                j += 1;
            }
            i += 1;
        }
        true
    }

    /// Plans one playthrough: from `start`, one segment chosen at random from the
    /// candidates after another, until the plan is complete or nothing can follow.
    /// A plan that is still open with more than 100 segments is given up; that
    /// does not happen to a song with a built graph that has no ending or a
    /// global one.
    pub fn make_plan(&self, rng: &mut ThreadRng) -> (r: Result<Vec<SongSegment>, DjError>)
        requires
            plannable(self@),
        ensures
            match r {
                Ok(plan) => {
                    &&& is_plan(self@, segment_views(plan@))
                    &&& 1 <= plan.len() <= STEP_LIMIT + 2
                    &&& plan[0]@.id == start_id()
                    &&& self@.has_end ==> is_end_id(plan[plan.len() - 1]@.id) || candidates(
                        self@,
                        segment_views(plan@),
                    ).len() == 0
                },
                Err(e) => e@ == ErrorView::PlanTooLong,
            },
            always_ends(self@) ==> r.is_ok(),
    {
        let r = self.walk(rng);
        proof {
            if r.is_ok() {
                let plan = segment_views(r.unwrap()@);
                lemma_plan_starts(self@, plan);
                if self@.has_end {
                    lemma_plan_ends(self@, plan);
                }
            }
        }
        r
    }

    /// The walk through the graph that `make_plan` returns.
    fn walk(&self, rng: &mut ThreadRng) -> (r: Result<Vec<SongSegment>, DjError>)
        requires
            plannable(self@),
        ensures
            match r {
                Ok(plan) => is_plan(self@, segment_views(plan@)) && 1 <= plan.len() <= STEP_LIMIT
                    + 2,
                Err(e) => e@ == ErrorView::PlanTooLong,
            },
            always_ends(self@) ==> r.is_ok(),
    {
        let mut plan: Vec<SongSegment> = Vec::new();
        proof {
            reveal_strlit("start");
            assert("start"@ =~= start_id());
        }
        match self.segment("start") {
            Some(segment) => {
                plan.push(segment.duplicate());
            },
            None => {},
        }
        assert(segment_views(plan@) =~= seq![self@.segment(start_id())]);
        loop
            invariant
                plannable(self@),
                1 <= plan.len() <= STEP_LIMIT + 2,
                reached(self@, segment_views(plan@), false),
                always_ends(self@) ==> is_short(self@, segment_views(plan@)),
            decreases STEP_LIMIT + 2 - plan.len(),
        {
            if plan.len() > STEP_LIMIT {
                return Err(DjError::PlanTooLong);
            }
            let ghost before = segment_views(plan@);
            let options = self.plan_candidates(&plan);
            match choose_one(&options, rng) {
                None => {
                    assert(texts(options@).len() == 0);
                    return Ok(plan);
                },
                Some(next) => {
                    proof {
                        let k = choose|k: int| 0 <= k < options@.len() && options@[k] == *next;
                        assert(texts(options@)[k] == next@);
                        assert(candidates(self@, before).contains(next@));
                        lemma_reached_in_song(self@, before, false);
                        lemma_candidate_in_song(self@, before, next@);
                    }
                    let done = self.extend_plan(&mut plan, next.as_str());
                    proof {
                        lemma_step_reached(self@, before, next@);
                        if always_ends(self@) {
                            lemma_step_short(self@, before, next@);
                        }
                    }
                    if done {
                        return Ok(plan);
                    }
                },
            }
        }
    }
}

/// The song's graph is built, and the song has no ending or a global one: its
/// plans are complete soon after they are long enough.
pub open spec fn always_ends(song: SongView) -> bool {
    is_built(song) && (!song.has_end || song.has_global_ending)
}

/// The plan is not yet long enough to be brought to its end, or is so by one
/// segment, a dedicated transition that has yet to lead into its loop.
pub open spec fn is_short(song: SongView, plan: Seq<SegmentView>) -> bool {
    let enough: int = if song.has_end { 7 } else { 4 };
    plan.len() <= enough || (plan.len() == enough + 1 && transition_shaped(plan.last().id))
}

/// One step from a short plan completes the plan or leaves it short.
pub proof fn lemma_step_short(song: SongView, plan: Seq<SegmentView>, next: Seq<char>)
    requires
        plannable(song),
        always_ends(song),
        reached(song, plan, false),
        candidates(song, plan).contains(next),
        is_short(song, plan),
    ensures
        step(song, plan, next).1 || is_short(song, step(song, plan, next).0),
{
    lemma_reached_in_song(song, plan, false);
    lemma_candidate_in_song(song, plan, next);
    lemma_position_from(song.segments, next, 0);
    let last = plan.last();
    let k = choose|k: int| 0 <= k < song.segments.len() && song.segments[k] == last;
    assert(last.transitions == allowed_from(song, last.id));
    if transition_shaped(last.id) {
        lemma_transition_target(last.id);
        let j = choose|j: int| 0 <= j < last.transitions.len() && last.transitions[j] == next;
        assert(next == transition_target(last.id));
    }
}

/// One step from a plan that the planner can come to gives another such plan.
pub proof fn lemma_step_reached(song: SongView, plan: Seq<SegmentView>, next: Seq<char>)
    requires
        plan.len() >= 1,
        reached(song, plan, false),
        candidates(song, plan).contains(next),
        song.has_segment(next),
    ensures
        reached(song, step(song, plan, next).0, step(song, plan, next).1),
        plan.len() < step(song, plan, next).0.len() <= plan.len() + 2,
{
    let after = step(song, plan, next).0;
    let longer = plan.push(song.segment(next));
    lemma_position_from(song.segments, next, 0);
    assert(song.segment(next).id == next);
    assert(longer.drop_last() =~= plan);
    if after == longer {
        assert(after.last().id == song.segment(next).id);
    } else {
        assert(after == longer.push(song.segment(end_id())));
        assert(after.drop_last() =~= longer);
        assert(after.drop_last().drop_last() =~= plan);
    }
}

/// The last choice on the way to a plan of two segments or more: the plan before
/// it and the segment that was chosen.
pub proof fn lemma_last_step(song: SongView, plan: Seq<SegmentView>, done: bool) -> (r: (
    Seq<SegmentView>,
    Seq<char>,
))
    requires
        plannable(song),
        reached(song, plan, done),
        plan.len() >= 2,
    ensures
        reached(song, r.0, false),
        r.0.len() >= 1,
        song.segments.contains(r.0.last()),
        candidates(song, r.0).contains(r.1),
        r.0.last().transitions.contains(r.1),
        song.has_segment(r.1),
        song.segment(r.1).id == r.1,
        step(song, r.0, r.1) == (plan, done),
{
    let one = plan.drop_last();
    let two = one.drop_last();
    let r = if reached(song, one, false) && candidates(song, one).contains(plan.last().id) && step(
        song,
        one,
        plan.last().id,
    ) == (plan, done) {
        (one, plan.last().id)
    } else {
        (two, one.last().id)
    };
    lemma_reached_in_song(song, r.0, false);
    lemma_candidate_in_song(song, r.0, r.1);
    lemma_position_from(song.segments, r.1, 0);
    r
}

/// Every plan begins with `start`.
pub proof fn lemma_plan_starts(song: SongView, plan: Seq<SegmentView>)
    requires
        plannable(song),
        is_plan(song, plan),
    ensures
        plan.len() >= 1,
        plan[0].id == start_id(),
{
    lemma_position_from(song.segments, start_id(), 0);
    if reached(song, plan, true) {
        lemma_reached_in_song(song, plan, true);
    } else {
        lemma_reached_in_song(song, plan, false);
    }
}

/// The plan of a song with an ending ends in an ending, unless it came to a
/// segment that nothing can follow.
pub proof fn lemma_plan_ends(song: SongView, plan: Seq<SegmentView>)
    requires
        plannable(song),
        song.has_end,
        is_plan(song, plan),
    ensures
        is_end_id(plan.last().id) || (reached(song, plan, false) && candidates(song, plan).len()
            == 0),
        reached(song, plan, true) ==> is_end_id(plan.last().id),
{
    if reached(song, plan, true) {
        let (before, next) = lemma_last_step(song, plan, true);
        lemma_position_from(song.segments, end_id(), 0);
        lemma_fixed_names();
    }
}

/// The plan of a song with a global ending ends in an ending, where the song's
/// flags match its segments and its graph is built.
pub proof fn lemma_global_ending_plan_ends(song: SongView, plan: Seq<SegmentView>)
    requires
        plannable(song),
        is_built(song),
        song.flags_match(),
        song.has_end && song.has_global_ending,
        is_plan(song, plan),
    ensures
        is_end_id(plan.last().id),
{
    lemma_plan_ends(song, plan);
    if reached(song, plan, false) {
        lemma_fixed_names();
        lemma_position_from(song.segments, start_id(), 0);
        lemma_reached_in_song(song, plan, false);
        let last = plan.last();
        let k = choose|k: int| 0 <= k < song.segments.len() && song.segments[k] == last;
        assert(last.transitions == allowed_from(song, last.id));
        if plan.len() >= 2 {
            let (before, next) = lemma_last_step(song, plan, false);
            let b = choose|b: int| 0 <= b < song.segments.len() && song.segments[b] == before.last();
            assert(before.last().transitions == allowed_from(song, before.last().id));
            assert(!is_end_id(next));
            lemma_global_ending_leads_on(song, before.last().id, next);
            assert(last == song.segment(next));
        }
        assert(last.transitions.len() > 0);
        assert(candidates(song, plan).len() > 0);
    }
}

/// The plan of a song without an ending does not end in `end`.
pub proof fn lemma_endless_plan(song: SongView, plan: Seq<SegmentView>)
    requires
        plannable(song),
        is_built(song),
        !song.has_end,
        is_plan(song, plan),
    ensures
        plan.last().id != end_id(),
{
    let done = reached(song, plan, true);
    lemma_position_from(song.segments, start_id(), 0);
    if plan.len() >= 2 {
        let (before, next) = lemma_last_step(song, plan, done);
        lemma_no_end_without_ending(song, before.last().id);
        let k = choose|k: int| 0 <= k < song.segments.len() && song.segments[k] == before.last();
        assert(song.segments[k].transitions == allowed_from(song, song.segments[k].id));
    }
}

/// A plan has two segments at least; that of a song with an ending has three,
/// unless nothing can follow the loop that `start` leads to.
pub proof fn lemma_plan_length(song: SongView, plan: Seq<SegmentView>)
    requires
        plannable(song),
        is_built(song),
        is_plan(song, plan),
    ensures
        plan.len() >= 2,
        song.has_end && allowed_from(song, plan[1].id).len() > 0 ==> plan.len() >= 3,
{
    let done = reached(song, plan, true);
    lemma_fixed_names();
    lemma_position_from(song.segments, start_id(), 0);
    let first = song.segment(start_id());
    assert(first.transitions == allowed_from(song, first.id));
    assert(allowed_from(song, start_id()).len() == 1);
    if plan.len() == 2 {
        let (before, next) = lemma_last_step(song, plan, done);
        assert(before.len() == 1);
        assert(before.last() == first);
        let j = choose|j: int| 0 <= j < first.transitions.len() && first.transitions[j] == next;
        assert(!is_end_id(next));
        assert(!done);
        let k = song.position(next);
        lemma_position_from(song.segments, next, 0);
        assert(song.segments[k].transitions == allowed_from(song, song.segments[k].id));
        assert(plan[1] == song.segment(next));
    }
}

/// No plan ends in a dedicated transition, in a song whose flags match its
/// segments and that has no dedicated transition whose name ends in `end`.
pub proof fn lemma_plan_leaves_transitions(song: SongView, plan: Seq<SegmentView>)
    requires
        plannable(song),
        is_built(song),
        song.flags_match(),
        forall|k: int|
            0 <= k < song.segments.len() ==> !(transition_shaped(#[trigger] song.segments[k].id)
                && is_end_id(song.segments[k].id)),
        is_plan(song, plan),
    ensures
        !transition_shaped(plan.last().id),
{
    let done = reached(song, plan, true);
    lemma_fixed_names();
    lemma_position_from(song.segments, start_id(), 0);
    lemma_position_from(song.segments, end_id(), 0);
    lemma_reached_in_song(song, plan, done);
    let last = plan.last();
    let k = choose|k: int| 0 <= k < song.segments.len() && song.segments[k] == last;
    assert(song.segments[k].transitions == allowed_from(song, song.segments[k].id));
    if transition_shaped(last.id) {
        assert(song.has_dedicated_transitions);
        let all = last.transitions;
        assert(all == seq![transition_target(last.id)]);
        assert(all.len() == 1);
        assert(candidates(song, plan).len() > 0);
        assert(done);
        let (before, next) = lemma_last_step(song, plan, done);
        let at = song.position(next);
        assert(song.segments[at].id == next);
    }
}

} // verus!
