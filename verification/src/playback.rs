//! What the player needs to know of a planned segment: where its audio lies and
//! how often it is played.

use rand::rngs::ThreadRng;
use rand::Rng;
use vstd::prelude::*;
use vstd::string::*;
use crate::segment::{is_loop_id, SongSegment};
use crate::song::Song;

verus! {

/// The least number of times that a loop is played.
pub const MIN_REPEATS: u32 = 5;

/// How a segment of a plan is rendered.
#[derive(Debug, Clone, Copy, PartialEq, Eq)]
pub enum Rendering {
    /// The segment is played once.
    Once,
    /// The segment is a loop and is played this many times.
    Repeated(u32),
}

/// `rand::Rng::gen_range` on two `u32`: some number from `low` up to, and not
/// including, `high`. It panics where `low` is not below `high`.
#[verifier::external_body]
fn pick_between(rng: &mut ThreadRng, low: u32, high: u32) -> (r: u32)
    requires
        low < high,
    ensures
        low <= r < high,
{
    rng.gen_range(low, high)
}

/// How `segment` is rendered: a loop is played a number of times that is chosen
/// at random, at least `MIN_REPEATS` and less than `max_repeats`; every other
/// segment is played once.
pub fn choose_rendering(segment: &SongSegment, rng: &mut ThreadRng, max_repeats: u32) -> (r:
    Rendering)
    requires
        is_loop_id(segment@.id) ==> MIN_REPEATS < max_repeats,
    ensures
        match r {
            Rendering::Once => !is_loop_id(segment@.id),
            Rendering::Repeated(n) => is_loop_id(segment@.id) && MIN_REPEATS <= n < max_repeats,
        },
{
    if segment.is_loop() && !segment.is_dedicated_transition() {
        Rendering::Repeated(pick_between(rng, MIN_REPEATS, max_repeats))
    } else {
        Rendering::Once
    }
}

/// The name under which a segment lies in the archive of its song:
/// `<segment>.<format>`.
pub open spec fn member_name_of(id: Seq<char>, format: Seq<char>) -> Seq<char> {
    id + "."@ + format
}

/// The path of the file that holds a segment of a song below `songs_dir`: the
/// song's archive, `<song>.zip`, or the plain file `<song>_<segment>.<format>`.
pub open spec fn file_path_of(
    songs_dir: Seq<char>,
    song: Seq<char>,
    is_archive: bool,
    id: Seq<char>,
    format: Seq<char>,
) -> Seq<char> {
    if is_archive {
        songs_dir + "/"@ + song + ".zip"@
    } else {
        songs_dir + "/"@ + song + "_"@ + id + "."@ + format
    }
}

impl SongSegment {
    /// The name of the segment's entry in the archive of its song.
    pub fn member_name(&self) -> (r: String)
        ensures
            r@ == member_name_of(self@.id, self@.format),
    {
        let mut r = self.id.clone();
        r.append(".");
        r.append(self.format.as_str());
        r
    }
}

impl Song {
    /// The path of the file that holds `segment`, below the directory `songs_dir`.
    pub fn file_path(&self, segment: &SongSegment, songs_dir: &str) -> (r: String)
        ensures
            r@ == file_path_of(
                songs_dir@,
                self@.id,
                self@.is_archive,
                segment@.id,
                segment@.format,
            ),
    {
        let mut r = String::from_str(songs_dir);
        r.append("/");
        r.append(self.id.as_str());
        if self.is_archive {
            r.append(".zip");
        } else {
            r.append("_");
            r.append(segment.id.as_str());
            r.append(".");
            r.append(segment.format.as_str());
        }
        r
    }
}

} // verus!
