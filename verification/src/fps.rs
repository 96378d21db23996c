//! A counter of frames per second over the last hundred frames.

use vstd::prelude::*;

verus! {

/// The number of frames that the counter looks back.
pub const WINDOW: usize = 100;

/// The sum of the first `n` durations.
pub open spec fn total(frames: Seq<u32>, n: int) -> int
    decreases n,
{
    if n <= 0 {
        0
    } else {
        total(frames, n - 1) + frames[n - 1]
    }
}

/// The sum changes by what one duration changes.
proof fn lemma_total_update(frames: Seq<u32>, i: int, value: u32, n: int)
    requires
        0 <= i < frames.len(),
        0 <= n <= frames.len(),
    ensures
        total(frames.update(i, value), n) == total(frames, n) + (if i < n {
            value - frames[i]
        } else {
            0
        }),
    decreases n,
{
    if n > 0 {
        lemma_total_update(frames, i, value, n - 1);
    }
}

/// The durations of the last hundred frames, in microseconds, and their sum.
pub struct FpsCounter {
    frames: [u32; 100],
    i: usize,
    sum: u64,
}

impl FpsCounter {
    /// The durations that the counter holds, the oldest at `next()`.
    pub closed spec fn frames(&self) -> Seq<u32> {
        self.frames@
    }

    /// The place of the duration that the next frame replaces.
    pub closed spec fn next(&self) -> int {
        self.i as int
    }

    /// The sum that the counter keeps.
    pub closed spec fn sum(&self) -> int {
        self.sum as int
    }

    /// The counter holds a hundred durations and their sum.
    pub open spec fn wf(&self) -> bool {
        &&& self.frames().len() == WINDOW
        &&& 0 <= self.next() < WINDOW
        &&& self.sum() == total(self.frames(), WINDOW as int)
    }

    /// A counter that has seen no frame.
    pub fn new() -> (counter: FpsCounter)
        ensures
            counter.wf(),
            counter.next() == 0,
            counter.sum() == 0,
            forall|k: int| 0 <= k < WINDOW ==> counter.frames()[k] == 0,
    {
        let counter = FpsCounter { frames: [0; 100], i: 0, sum: 0 };
        proof {
            lemma_total_zero(counter.frames(), WINDOW as int);
        }
        counter
    }

    /// Takes the duration of one more frame in place of the oldest.
    pub fn update(&mut self, micros: u32)
        requires
            old(self).wf(),
        ensures
            final(self).wf(),
            final(self).frames() == old(self).frames().update(old(self).next(), micros),
            final(self).next() == (old(self).next() + 1) % (WINDOW as int),
            final(self).sum() == old(self).sum() - old(self).frames()[old(self).next()] + micros,
    {
        proof {
            lemma_total_update(self.frames(), self.i as int, micros, WINDOW as int);
            lemma_total_bound(self.frames(), WINDOW as int);
            lemma_total_bound(self.frames().update(self.i as int, micros), WINDOW as int);
        }
        let old_value = self.frames[self.i];
        self.sum = self.sum - old_value as u64 + micros as u64;
        self.frames[self.i] = micros;
        self.i = (self.i + 1) % WINDOW;
    }

    /// The sum of the durations of the last hundred frames, in microseconds.
    pub fn total_micros(&self) -> (sum: u64)
        requires
            self.wf(),
        ensures
            sum == total(self.frames(), WINDOW as int),
    {
        self.sum
    }
}

/// Durations that are all 0 sum up to 0.
proof fn lemma_total_zero(frames: Seq<u32>, n: int)
    requires
        0 <= n <= frames.len(),
        forall|k: int| 0 <= k < n ==> frames[k] == 0,
    ensures
        total(frames, n) == 0,
    decreases n,
{
    if n > 0 {
        lemma_total_zero(frames, n - 1);
    }
}

/// A sum of `n` durations is at most `n` times the largest duration, and at
/// least each of them.
proof fn lemma_total_bound(frames: Seq<u32>, n: int)
    requires
        0 <= n <= frames.len(),
    ensures
        0 <= total(frames, n) <= n * u32::MAX,
        forall|k: int| 0 <= k < n ==> total(frames, n) >= #[trigger] frames[k],
    decreases n,
{
    if n > 0 {
        lemma_total_bound(frames, n - 1);
    }
}

} // verus!
