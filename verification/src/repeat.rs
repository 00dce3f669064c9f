//! A decoded segment that is played a given number of times over, from one
//! shared buffer.

use std::sync::Arc;
use vstd::prelude::*;

verus! {

/// A run of samples that share a channel count and a sample rate.
pub struct Frame<T> {
    pub channels: u16,
    pub rate: u32,
    pub data: Vec<T>,
}

/// The channel count that is reported where no frame is left.
pub const SILENT_CHANNELS: u16 = 1;

/// The sample rate that is reported where no frame is left.
pub const SILENT_RATE: u32 = 44100;

/// The samples of `frames` from position `position` of frame `frame` on.
pub open spec fn rest_from<T>(frames: Seq<Frame<T>>, frame: int, position: int) -> Seq<T>
    decreases frames.len() - frame,
{
    if frame < 0 || frame >= frames.len() {
        Seq::empty()
    } else {
        frames[frame].data@.subrange(position, frames[frame].data@.len() as int) + rest_from(
            frames,
            frame + 1,
            0,
        )
    }
}

/// All samples of `frames`, in their order.
pub open spec fn samples_of<T>(frames: Seq<Frame<T>>) -> Seq<T> {
    rest_from(frames, 0, 0)
}

/// `s`, `n` times over.
pub open spec fn repeated<T>(s: Seq<T>, n: nat) -> Seq<T>
    decreases n,
{
    if n == 0 {
        Seq::empty()
    } else {
        s + repeated(s, (n - 1) as nat)
    }
}

/// The first frame at or after `frame` that holds a sample, or the number of frames.
pub open spec fn next_filled<T>(frames: Seq<Frame<T>>, frame: int) -> int
    decreases frames.len() - frame,
{
    if frame < 0 || frame >= frames.len() {
        frames.len() as int
    } else if frames[frame].data@.len() > 0 {
        frame
    } else {
        next_filled(frames, frame + 1)
    }
}

/// How often a segment that was wrapped with `count` is played: `count` times,
/// and once where `count` is less than one.
pub open spec fn plays(count: int) -> nat {
    if count < 1 {
        1
    } else {
        count as nat
    }
}

/// A sample stream that plays one decoded segment a number of times. Copies share
/// the decoded samples; each has a place and a count of its own.
pub struct RepeatCount<T> {
    pub(crate) frames: Arc<Vec<Frame<T>>>,
    pub(crate) frame: usize,
    pub(crate) position: usize,
    pub(crate) count: i32,
    pub(crate) count_remaining: i32,
}

impl<T> RepeatCount<T> {
    /// The decoded frames, shared by all copies.
    pub open(crate) spec fn buffer(&self) -> Seq<Frame<T>> {
        (*self.frames)@
    }

    /// The count that the stream was made with.
    pub open(crate) spec fn count(&self) -> int {
        self.count as int
    }

    /// How many times the segment is still played, the current time included.
    pub open(crate) spec fn plays_left(&self) -> nat {
        plays(self.count_remaining as int)
    }

    /// The place stands on a sample, or behind the last frame.
    #[verifier::type_invariant]
    spec fn wf(&self) -> bool {
        &&& self.frame <= self.buffer().len()
        &&& self.frame < self.buffer().len() ==> self.position < self.buffer()[
            self.frame as int
        ].data@.len()
        &&& self.count_remaining <= self.count
    }

    /// The samples that are left of the current time through the segment.
    pub open(crate) spec fn current(&self) -> Seq<T> {
        rest_from(self.buffer(), self.frame as int, self.position as int)
    }

    /// Every sample that the stream still yields, in order.
    pub open(crate) spec fn remaining(&self) -> Seq<T> {
        self.current() + repeated(samples_of(self.buffer()), (self.plays_left() - 1) as nat)
    }
}

/// The first frame at or after `frame` that holds a sample.
fn skip_empty<T>(frames: &Vec<Frame<T>>, frame: usize) -> (r: usize)
    requires
        frame <= frames.len(),
    ensures
        r as int == next_filled(frames@, frame as int),
        frame <= r <= frames.len(),
        r < frames.len() ==> frames[r as int].data@.len() > 0,
        rest_from(frames@, r as int, 0) == rest_from(frames@, frame as int, 0),
{
    let mut r: usize = frame;
    while r < frames.len() && frames[r].data.len() == 0
        invariant
            frame <= r <= frames.len(),
            next_filled(frames@, r as int) == next_filled(frames@, frame as int),
            rest_from(frames@, r as int, 0) == rest_from(frames@, frame as int, 0),
        decreases frames.len() - r,
    {
        assert(frames@[r as int].data@.subrange(0, 0) =~= Seq::empty());
        assert(rest_from(frames@, r as int, 0) =~= rest_from(frames@, r + 1, 0));
        r += 1;
    }
    r
}

/// Wraps the decoded frames of a segment so that they are played `count` times,
/// and once where `count` is less than one.
pub fn repeat_with_count<T: Copy>(input: Vec<Frame<T>>, count: i32) -> (r: RepeatCount<T>)
    ensures
        r.buffer() == input@,
        r.count() == count,
        r.remaining() == repeated(samples_of(input@), plays(count as int)),
        r.remaining().len() == plays(count as int) * samples_of(input@).len(),
{
    proof {
        lemma_repeated_len(samples_of(input@), plays(count as int));
    }
    let start: usize = skip_empty(&input, 0);
    let r = RepeatCount {
        frames: Arc::new(input),
        frame: start,
        position: 0,
        count,
        count_remaining: count,
    };
    r
}

impl<T: Copy> RepeatCount<T> {
    /// The next sample. When the segment is through and is to be played again,
    /// the stream goes back to the first sample of the shared buffer.
    pub fn next(&mut self) -> (r: Option<T>)
        ensures
            final(self).buffer() == old(self).buffer(),
            final(self).count() == old(self).count(),
            match r {
                Some(sample) => old(self).remaining().len() > 0 && sample == old(
                    self,
                ).remaining()[0] && final(self).remaining() == old(self).remaining().drop_first(),
                None => old(self).remaining().len() == 0 && final(self).remaining().len() == 0,
            },
    {
        proof {
            use_type_invariant(&*self);
        }
        if self.frame >= self.frames.len() {
            if self.count_remaining > 1 {
                self.count_remaining -= 1;
                self.position = 0;
                self.frame = skip_empty(&self.frames, 0);
                proof {
                    assert(old(self).current() =~= Seq::empty());
                    assert(old(self).remaining() =~= self.remaining());
                }
            }
        }
        if self.frame >= self.frames.len() {
            proof {
                if self.plays_left() > 1 {
                    assert(samples_of(self.buffer()) =~= Seq::empty());
                    lemma_repeated_empty(samples_of(self.buffer()), (self.plays_left() - 1) as nat);
                }
                assert(self.current() =~= Seq::empty());
            }
            return None;
        }
        let ghost before = self.remaining();
        let ghost data = self.buffer()[self.frame as int].data@;
        let ghost tail = rest_from(self.buffer(), self.frame + 1, 0);
        let ghost later = repeated(samples_of(self.buffer()), (self.plays_left() - 1) as nat);
        let ghost place = self.position as int;
        let sample = self.frames[self.frame].data[self.position];
        let len: usize = self.frames[self.frame].data.len();
        proof {
            assert(before =~= data.subrange(place, data.len() as int) + tail + later);
            assert(before[0] == sample);
        }
        if self.position + 1 >= len {
            self.position = 0;
            self.frame = skip_empty(&self.frames, self.frame + 1);
            proof {
                assert(data.subrange(place, data.len() as int) =~= seq![sample]);
                assert(self.remaining() =~= tail + later);
            }
        } else {
            self.position += 1;
            assert(self.remaining() =~= data.subrange(place + 1, data.len() as int) + tail
                + later);
        }
        assert(self.remaining() =~= before.drop_first());
        Some(sample)
    }

    /// How many samples are left in the current frame; at the end of the segment,
    /// how many the first frame holds.
    pub fn current_frame_len(&self) -> (r: usize)
        ensures
            self.frame_at() < self.buffer().len() ==> r == self.buffer()[self.frame_at()].data@.len()
                - self.position_at(),
            self.frame_at() >= self.buffer().len() ==> r == 0,
    {
        let at: usize = self.frame_index();
        if at < self.frames.len() {
            self.frames[at].data.len() - self.place_in(at)
        } else {
            0
        }
    }

    /// The channel count of the frame that the next sample comes from.
    pub fn channels(&self) -> (r: u16)
        ensures
            r == if self.frame_at() < self.buffer().len() {
                self.buffer()[self.frame_at()].channels
            } else {
                SILENT_CHANNELS
            },
    {
        let at: usize = self.frame_index();
        if at < self.frames.len() {
            self.frames[at].channels
        } else {
            SILENT_CHANNELS
        }
    }

    /// The sample rate of the frame that the next sample comes from.
    pub fn sample_rate(&self) -> (r: u32)
        ensures
            r == if self.frame_at() < self.buffer().len() {
                self.buffer()[self.frame_at()].rate
            } else {
                SILENT_RATE
            },
    {
        let at: usize = self.frame_index();
        if at < self.frames.len() {
            self.frames[at].rate
        } else {
            SILENT_RATE
        }
    }

    /// The frame that the stream reports on: the current one, and at the end of
    /// the segment the first frame that holds a sample.
    pub open(crate) spec fn frame_at(&self) -> int {
        if self.frame < self.buffer().len() {
            self.frame as int
        } else {
            next_filled(self.buffer(), 0)
        }
    }

    /// The place in the frame that the stream reports on.
    pub open(crate) spec fn position_at(&self) -> int {
        if self.frame < self.buffer().len() {
            self.position as int
        } else {
            0
        }
    }

    /// The frame that the stream reports on.
    fn frame_index(&self) -> (r: usize)
        ensures
            r as int == self.frame_at(),
            r <= self.buffer().len(),
            r < self.buffer().len() ==> self.position_at() < self.buffer()[r as int].data@.len(),
    {
        proof {
            use_type_invariant(self);
        }
        if self.frame < self.frames.len() {
            self.frame
        } else {
            skip_empty(&self.frames, 0)
        }
    }

    /// The place in the frame that the stream reports on.
    fn place_in(&self, at: usize) -> (r: usize)
        requires
            at as int == self.frame_at(),
        ensures
            r as int == self.position_at(),
    {
        if self.frame < self.frames.len() {
            self.position
        } else {
            0
        }
    }

    /// A copy that shares the decoded samples and has a place and a count of its own.
    pub fn duplicate(&self) -> (r: RepeatCount<T>)
        ensures
            r.buffer() == self.buffer(),
            r.count() == self.count(),
            r.remaining() == self.remaining(),
    {
        proof {
            use_type_invariant(self);
        }
        RepeatCount {
            frames: self.frames.clone(),
            frame: self.frame,
            position: self.position,
            count: self.count,
            count_remaining: self.count_remaining,
        }
    }
}

/// Nothing, however often it is repeated, is nothing.
pub proof fn lemma_repeated_empty<T>(s: Seq<T>, n: nat)
    requires
        s.len() == 0,
    ensures
        repeated(s, n).len() == 0,
    decreases n,
{
    if n > 0 {
        lemma_repeated_empty(s, (n - 1) as nat);
    }
}

/// A sequence that is repeated `n` times has `n` times its length.
pub proof fn lemma_repeated_len<T>(s: Seq<T>, n: nat)
    ensures
        repeated(s, n).len() == n * s.len(),
    decreases n,
{
    let k = n as int;
    let l = s.len() as int;
    if n > 0 {
        lemma_repeated_len(s, (n - 1) as nat);
        assert(k * l == l + (k - 1) * l) by (nonlinear_arith);
    } else {
        assert(k * l == 0) by (nonlinear_arith)
            requires
                k == 0,
        ;
    }
}

} // verus!
