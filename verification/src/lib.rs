//! Core of a thumbnail-generation pipeline: message types exchanged with a
//! caller, per-order data, and the verified stage logic in `thumbnailer`.
//!
//! The pipeline discovers files under a source root, filters them, assigns
//! them round-robin to worker lanes, and writes a bounded-size PNG copy of
//! each image that decodes. Threads, channels and the directory walk live
//! outside this crate; every decision they act on is computed here.

pub mod thumbnailer;

use std::collections::VecDeque;
use vstd::prelude::*;
use vstd::arithmetic::div_mod::lemma_div_is_ordered;
use vstd::arithmetic::div_mod::lemma_div_multiples_vanish;

verus! {

/// An error of the thumbnail codec or of order setup.
#[derive(Debug, Clone, Copy, PartialEq, Eq, Structural)]
pub enum ThumbError {
    /// The source file could not be opened or decoded as an image.
    Decode,
    /// The resized image could not be written to the target directory.
    Encode,
    /// The order's target directory could not be created.
    DirCreate,
}

/// The two paths of one produced thumbnail: where the copy was written and
/// which source file it was made from.
#[derive(Debug, Clone, PartialEq, Eq)]
pub struct ThumbnailPaths {
    pub thumbnail: String,
    pub original: String,
}

/// Progress toward a known maximum.
#[derive(Debug, Clone, Copy, Hash, PartialEq, Eq, PartialOrd, Ord)]
pub struct Progress<T> {
    pub maximum: T,
    pub progression: T,
}

impl<T> Progress<T> {
    pub fn new(maximum: T, progression: T) -> (p: Self)
        ensures
            p.maximum == maximum,
            p.progression == progression,
    {
        Self { maximum, progression }
    }
}

impl Progress<usize> {
    /// True once progression has reached the maximum.
    pub fn is_completed(&self) -> (r: bool)
        ensures
            r == !(self.progression < self.maximum),
    {
        !(self.progression < self.maximum)
    }

    /// Sets the progression, but never past the maximum.
    pub fn set_progress_capped(&mut self, progression: usize)
        ensures
            final(self).maximum == old(self).maximum,
            final(self).progression == if progression < old(self).maximum {
                progression as int
            } else {
                old(self).maximum as int
            },
    {
        if progression < self.maximum {
            self.progression = progression;
        } else {
            self.progression = self.maximum;
        }
    }
}

/// A status signal sent from the pipeline back to the caller.
#[derive(Debug)]
pub enum ThumbnailerStatus {
    Finished,
    ProgressUpdate(Progress<usize>),
    Failed(Option<ThumbError>),
}

/// A message from the pipeline to the caller: either one produced thumbnail
/// or an informational status signal.
#[derive(Debug)]
pub enum ThumbnailerToApp {
    CreatedThumbnail(ThumbnailPaths),
    Status(ThumbnailerStatus),
}

/// A command from the caller to the pipeline controller: submit one order,
/// or stop accepting orders.
#[derive(Debug)]
pub enum AppToThumbnailer {
    ThumbnailOrder(LoadData),
    KillCmd,
}

/// One caller-initiated order: thumbnail everything under `path` into
/// `target_path`, with `thread_count` worker lanes and thumbnails bounded
/// by `max_x` x `max_y`.
#[derive(Debug)]
pub struct LoadData {
    path: String,
    target_path: String,
    thread_count: usize,
    max_x: u32,
    max_y: u32,
}

impl LoadData {
    #[verifier::type_invariant]
    pub closed spec fn wf(&self) -> bool {
        self.thread_count >= 1
    }

    pub closed spec fn spec_path(&self) -> Seq<char> {
        self.path@
    }

    pub closed spec fn spec_target_path(&self) -> Seq<char> {
        self.target_path@
    }

    pub closed spec fn spec_thread_count(&self) -> usize {
        self.thread_count
    }

    pub closed spec fn spec_max_x(&self) -> u32 {
        self.max_x
    }

    pub closed spec fn spec_max_y(&self) -> u32 {
        self.max_y
    }

    /// Builds an order. A worker count of zero is coerced up to one: every
    /// order runs with at least one lane.
    pub fn new(path: String, target_path: String, thread_count: usize, max_x: u32, max_y: u32) -> (d:
        Self)
        ensures
            d.spec_path() == path@,
            d.spec_target_path() == target_path@,
            d.spec_thread_count() == if thread_count == 0 {
                1int
            } else {
                thread_count as int
            },
            d.spec_max_x() == max_x,
            d.spec_max_y() == max_y,
    {
        let count: usize = if thread_count == 0 {
            1
        } else {
            thread_count
        };
        Self { path, target_path, thread_count: count, max_x, max_y }
    }

    pub fn path(&self) -> (r: &String)
        ensures
            r@ == self.spec_path(),
    {
        &self.path
    }

    pub fn target_path(&self) -> (r: &String)
        ensures
            r@ == self.spec_target_path(),
    {
        &self.target_path
    }

    /// The number of worker lanes; always at least one.
    pub fn thread_count(&self) -> (r: usize)
        ensures
            r == self.spec_thread_count(),
            r >= 1,
    {
        proof {
            use_type_invariant(self);
        }
        self.thread_count
    }

    pub fn max_x(&self) -> (r: u32)
        ensures
            r == self.spec_max_x(),
    {
        self.max_x
    }

    pub fn max_y(&self) -> (r: u32)
        ensures
            r == self.spec_max_y(),
    {
        self.max_y
    }
}

impl Clone for LoadData {
    fn clone(&self) -> (d: Self)
        ensures
            d == *self,
    {
        proof {
            use_type_invariant(self);
        }
        Self {
            path: self.path.clone(),
            target_path: self.target_path.clone(),
            thread_count: self.thread_count,
            max_x: self.max_x,
            max_y: self.max_y,
        }
    }
}

/// What the caller's load dialog holds before an order is built from it.
#[derive(Debug, Clone)]
pub struct LoadDialougeData {
    pub path: String,
    pub thread_count: usize,
    pub max_x: u32,
    pub max_y: u32,
}

impl Default for LoadDialougeData {
    fn default() -> (d: Self)
        ensures
            d.path@ =~= "C:\\"@,
            d.thread_count == 8,
            d.max_x == 128,
            d.max_y == 128,
    {
        Self { path: String::from_str("C:\\"), thread_count: 8, max_x: 128, max_y: 128 }
    }
}

/// Nanoseconds from an earlier clock reading `t` to `now`; zero when the
/// clock did not advance.
pub open spec fn spec_elapsed(now: u64, t: u64) -> u64 {
    if now >= t {
        (now - t) as u64
    } else {
        0u64
    }
}

/// A frame-time deque after dropping stale records from its back: a record
/// older than the averaging window goes, but the newest record stays even
/// when stale. Each record is a clock reading paired with the frame delta
/// measured then.
pub open spec fn spec_pruned(s: Seq<(u64, u64)>, now: u64, window: u64) -> Seq<(u64, u64)>
    decreases s.len(),
{
    if s.len() > 1 && spec_elapsed(now, s.last().0) > window {
        spec_pruned(s.drop_last(), now, window)
    } else {
        s
    }
}

/// The sum of the recorded frame deltas.
pub open spec fn spec_sum_deltas(s: Seq<(u64, u64)>) -> int
    decreases s.len(),
{
    if s.len() == 0 {
        0
    } else {
        spec_sum_deltas(s.drop_last()) + s.last().1
    }
}

/// The largest recorded frame delta; zero for an empty record.
pub open spec fn spec_max_delta(s: Seq<(u64, u64)>) -> u64
    decreases s.len(),
{
    if s.len() == 0 {
        0u64
    } else if spec_max_delta(s.drop_last()) >= s.last().1 {
        spec_max_delta(s.drop_last())
    } else {
        s.last().1
    }
}

/// The smallest recorded frame delta; zero for an empty record.
pub open spec fn spec_min_delta(s: Seq<(u64, u64)>) -> u64
    decreases s.len(),
{
    if s.len() == 0 {
        0u64
    } else if s.len() == 1 {
        s.last().1
    } else if spec_min_delta(s.drop_last()) <= s.last().1 {
        spec_min_delta(s.drop_last())
    } else {
        s.last().1
    }
}

/// What one `frame_begin` call does to the frame records: stale records
/// leave from the back, the new delta is measured against the newest
/// remaining record, and the new record goes on the front.
pub open spec fn spec_frame_update(frames: Seq<(u64, u64)>, window: u64, now: u64) -> (
    Seq<(u64, u64)>,
    u64,
) {
    let pruned = spec_pruned(frames, now, window);
    let delta = if pruned.len() > 0 {
        spec_elapsed(now, pruned[0].0)
    } else {
        0u64
    };
    (seq![(now, delta)] + pruned, delta)
}

proof fn lemma_sum_deltas_bound(s: Seq<(u64, u64)>)
    ensures
        0 <= spec_sum_deltas(s) <= s.len() * (u64::MAX as int),
    decreases s.len(),
{
    if s.len() > 0 {
        lemma_sum_deltas_bound(s.drop_last());
        assert(s.len() * (u64::MAX as int) == (s.len() - 1) * (u64::MAX as int) + u64::MAX as int)
            by (nonlinear_arith);
    }
}

/// Frame-time statistics over a sliding window, all in nanoseconds.
#[derive(Debug, Clone)]
pub struct Timings {
    pub avg_delta: u64,
    pub max_delta: u64,
    pub min_delta: u64,
    pub last_delta: u64,
    pub last_durs: VecDeque<(u64, u64)>,
    pub averaging_dur: u64,
}

impl Timings {
    /// The recorded frames, newest first: each a clock reading paired with
    /// the frame delta measured then.
    pub open spec fn spec_frames(&self) -> Seq<(u64, u64)> {
        self.last_durs@
    }

    /// How long a frame record is kept, in nanoseconds.
    pub open spec fn spec_window(&self) -> u64 {
        self.averaging_dur
    }

    pub open spec fn spec_avg(&self) -> u64 {
        self.avg_delta
    }

    pub open spec fn spec_max(&self) -> u64 {
        self.max_delta
    }

    pub open spec fn spec_min(&self) -> u64 {
        self.min_delta
    }

    pub open spec fn spec_last(&self) -> u64 {
        self.last_delta
    }

    pub fn new(averaging_duration: u64) -> (t: Self)
        ensures
            t.spec_frames() == Seq::<(u64, u64)>::empty(),
            t.spec_window() == averaging_duration,
            t.spec_avg() == 0,
            t.spec_max() == 0,
            t.spec_min() == 0,
            t.spec_last() == 0,
    {
        Self {
            last_durs: VecDeque::new(),
            averaging_dur: averaging_duration,
            avg_delta: 0,
            last_delta: 0,
            max_delta: 0,
            min_delta: 0,
        }
    }

    /// Opens a new frame at clock reading `now`: drops records older than
    /// the averaging window (keeping at least the newest), measures the
    /// delta since the newest record, records the new frame, and refreshes
    /// the average, maximum and minimum over what is recorded.
    pub fn frame_begin(&mut self, now: u64)
        ensures
            final(self).spec_window() == old(self).spec_window(),
            final(self).spec_frames() == spec_frame_update(
                old(self).spec_frames(),
                old(self).spec_window(),
                now,
            ).0,
            final(self).spec_last() == spec_frame_update(
                old(self).spec_frames(),
                old(self).spec_window(),
                now,
            ).1,
            final(self).spec_avg() == spec_sum_deltas(final(self).spec_frames()) / (final(
                self).spec_frames().len() as int),
            final(self).spec_max() == spec_max_delta(final(self).spec_frames()),
            final(self).spec_min() == spec_min_delta(final(self).spec_frames()),
    {
        while self.last_durs.len() > 1 && now.saturating_sub(
            self.last_durs[self.last_durs.len() - 1].0,
        ) > self.averaging_dur
            invariant
                self.averaging_dur == old(self).averaging_dur,
                self.avg_delta == old(self).avg_delta,
                self.max_delta == old(self).max_delta,
                self.min_delta == old(self).min_delta,
                self.last_delta == old(self).last_delta,
                spec_pruned(self.last_durs@, now, self.averaging_dur) == spec_pruned(
                    old(self).last_durs@,
                    now,
                    old(self).averaging_dur,
                ),
            decreases self.last_durs@.len(),
        {
            let ghost before = self.last_durs@;
            let _ = self.last_durs.pop_back();
            proof {
                assert(self.last_durs@ =~= before.drop_last());
            }
        }
        let pruned_len = self.last_durs.len();
        proof {
            assert(spec_pruned(self.last_durs@, now, self.averaging_dur) == self.last_durs@);
        }
        let delta: u64 = if pruned_len > 0 {
            now.saturating_sub(self.last_durs[0].0)
        } else {
            0
        };
        self.last_durs.push_front((now, delta));
        self.last_delta = delta;
        let ghost frames = self.last_durs@;
        let n = self.last_durs.len();
        let mut sum: u128 = 0;
        let mut max: u64 = 0;
        let mut i: usize = 0;
        while i < n
            invariant
                i <= n,
                n == frames.len(),
                frames == self.last_durs@,
                sum == spec_sum_deltas(frames.take(i as int)),
                max == spec_max_delta(frames.take(i as int)),
            decreases n - i,
        {
            proof {
                assert(frames.take(i + 1).drop_last() =~= frames.take(i as int));
                assert(frames.take(i + 1).last() == frames[i as int]);
                lemma_sum_deltas_bound(frames.take(i as int));
                assert(frames.take(i as int).len() * (u64::MAX as int) <= (u128::MAX - u64::MAX))
                    by (nonlinear_arith)
                    requires
                        frames.take(i as int).len() <= usize::MAX,
                ;
            }
            let d = self.last_durs[i].1;
            sum = sum + d as u128;
            if d > max {
                max = d;
            }
            i += 1;
        }
        proof {
            assert(frames.take(n as int) =~= frames);
        }
        let avg128 = sum / (n as u128);
        proof {
            lemma_sum_deltas_bound(frames);
            assert((frames.len() * (u64::MAX as int)) / (frames.len() as int) == u64::MAX) by {
                lemma_div_multiples_vanish(u64::MAX as int, frames.len() as int);
                assert(frames.len() * (u64::MAX as int) == (u64::MAX as int) * frames.len())
                    by (nonlinear_arith);
            }
            lemma_div_is_ordered(
                spec_sum_deltas(frames),
                frames.len() * (u64::MAX as int),
                frames.len() as int,
            );
        }
        self.avg_delta = avg128 as u64;
        self.max_delta = max;
        let mut min: u64 = self.last_durs[0].1;
        let mut j: usize = 1;
        proof {
            assert(frames.take(1) =~= seq![frames[0]]);
            assert(frames.take(1).drop_last() =~= Seq::<(u64, u64)>::empty());
        }
        while j < n
            invariant
                1 <= j <= n,
                n == frames.len(),
                frames == self.last_durs@,
                min == spec_min_delta(frames.take(j as int)),
            decreases n - j,
        {
            proof {
                assert(frames.take(j + 1).drop_last() =~= frames.take(j as int));
                assert(frames.take(j + 1).last() == frames[j as int]);
            }
            let d = self.last_durs[j].1;
            if d < min {
                min = d;
            }
            j += 1;
        }
        self.min_delta = min;
    }
}

/// Something that can be loaded from a file on disk, given its path.
pub trait LoadFromPath: Sized {
    /// Loads a value of this type from the file at `path`.
    fn load_from_path(path: &str) -> Result<Self, ThumbError>;
}

/// A size on disk, counted in whole bytes.
#[derive(Debug, Clone, Copy, Hash, PartialEq, Eq, PartialOrd, Ord, Structural)]
pub struct StorageSize {
    bytes: u64,
}

impl StorageSize {
    /// The number of bytes this size stands for.
    pub closed spec fn spec_bytes(&self) -> u64 {
        self.bytes
    }

    pub fn new(bytes: u64) -> (s: Self)
        ensures
            s.spec_bytes() == bytes,
    {
        Self { bytes }
    }

    pub fn get_bytes_mut(&mut self) -> (r: &mut u64)
        ensures
            *r == old(self).spec_bytes(),
            final(self).spec_bytes() == *final(r),
    {
        &mut self.bytes
    }

    pub fn get_bytes(&self) -> (b: u64)
        ensures
            b == self.spec_bytes(),
    {
        self.bytes
    }

    pub fn as_bytes(&self) -> (b: u64)
        ensures
            b == self.spec_bytes(),
    {
        self.get_bytes()
    }
}

impl Default for StorageSize {
    fn default() -> (s: Self)
        ensures
            s.spec_bytes() == 0,
    {
        Self { bytes: 0 }
    }
}

} // verus!
