//! Frames per second over the last frames.

use std::collections::VecDeque;
use vstd::prelude::*;

verus! {

/// Shortest frame time that is counted, in nanoseconds.
pub const SHORTEST_FRAME: u64 = 10_000;

/// The durations of the last frames, oldest first, in nanoseconds.
#[derive(Debug)]
pub struct FpsMeter {
    samples: VecDeque<u64>,
    capacity: usize,
}

/// The sum of the first `n` durations.
pub open spec fn total(s: Seq<u64>, n: nat) -> int
    decreases n,
{
    if n == 0 {
        0
    } else {
        total(s, (n - 1) as nat) + s[n - 1]
    }
}

/// The durations once another frame was recorded: a full meter drops the
/// oldest.
pub open spec fn recorded(s: Seq<u64>, capacity: usize, dt: u64) -> Seq<u64> {
    let kept = if s.len() == capacity && s.len() > 0 {
        s.drop_first()
    } else {
        s
    };
    kept.push(
        if dt < SHORTEST_FRAME {
            SHORTEST_FRAME
        } else {
            dt
        },
    )
}

impl FpsMeter {
    /// The durations kept, oldest first.
    pub closed spec fn window(&self) -> Seq<u64> {
        self.samples@
    }

    /// How many durations are kept.
    pub closed spec fn limit(&self) -> usize {
        self.capacity
    }

    /// Every duration counts at least the shortest.
    pub closed spec fn wf(&self) -> bool {
        &&& forall|i: int|
            0 <= i < self.samples@.len() ==> #[trigger] self.samples@[i] >= SHORTEST_FRAME
        &&& self.samples@.len() <= usize::MAX
    }

    pub fn new(capacity: usize) -> (m: Self)
        ensures
            m.wf(),
            m.window() == Seq::<u64>::empty(),
            m.limit() == capacity,
    {
        FpsMeter { samples: VecDeque::new(), capacity }
    }

    /// Record a frame's duration.
    pub fn record(&mut self, dt: u64)
        requires
            old(self).wf(),
            old(self).window().len() < usize::MAX,
        ensures
            final(self).wf(),
            final(self).limit() == old(self).limit(),
            final(self).window() == recorded(old(self).window(), old(self).limit(), dt),
    {
        if self.samples.len() == self.capacity {
            let _ = self.samples.pop_front();
        }
        self.samples.push_back(
            if dt < SHORTEST_FRAME {
                SHORTEST_FRAME
            } else {
                dt
            },
        );
        assert(self.samples@ =~= recorded(old(self).window(), old(self).limit(), dt));
    }

    /// Number of frames recorded, and how long they took together.
    pub fn totals(&self) -> (r: (usize, u128))
        requires
            self.wf(),
        ensures
            r.0 == self.window().len(),
            r.1 == total(self.window(), self.window().len()),
    {
        let n: usize = self.samples.len();
        let mut sum: u128 = 0;
        let mut i: usize = 0;
        while i < n
            invariant
                i <= n,
                n == self.samples@.len(),
                sum == total(self.samples@, i as nat),
                sum <= i * 0xffff_ffff_ffff_ffff,
            decreases n - i,
        {
            assert(i * 0xffff_ffff_ffff_ffff <= 0xffff_ffff_ffff_ffff * 0xffff_ffff_ffff_ffff)
                by (nonlinear_arith)
                requires
                    i <= 0xffff_ffff_ffff_ffff,
            ;
            sum = sum + self.samples[i] as u128;
            i = i + 1;
        }
        (n, sum)
    }

    /// Frames per second over the kept durations, in millionths; 0 before the
    /// first frame.
    pub fn fps(&self) -> (f: u128)
        requires
            self.wf(),
        ensures
            f == rate(self.window()),
    {
        let (frames, time) = self.totals();
        if frames == 0 {
            return 0;
        }
        proof {
            lemma_time_passes(self.window(), self.window().len());
        }
        frames as u128 * 1_000_000_000_000_000 / time
    }
}

/// Frames per second over some durations, in millionths.
pub open spec fn rate(s: Seq<u64>) -> int {
    if s.len() == 0 {
        0
    } else {
        (s.len() as int) * 1_000_000_000_000_000 / total(s, s.len())
    }
}

/// Frames take time.
proof fn lemma_time_passes(s: Seq<u64>, n: nat)
    requires
        n <= s.len(),
        forall|i: int| 0 <= i < s.len() ==> #[trigger] s[i] >= SHORTEST_FRAME,
    ensures
        total(s, n) >= n * SHORTEST_FRAME,
    decreases n,
{
    if n > 0 {
        lemma_time_passes(s, (n - 1) as nat);
        assert(s[n - 1] >= SHORTEST_FRAME);
    }
}

/// The rate is finite: no more than 100 000 frames per second are counted.
pub proof fn law_rate_is_bounded(s: Seq<u64>)
    requires
        forall|i: int| 0 <= i < s.len() ==> #[trigger] s[i] >= SHORTEST_FRAME,
    ensures
        0 <= rate(s) <= 100_000_000_000,
{
    if s.len() > 0 {
        lemma_time_passes(s, s.len());
        let n = s.len() as int;
        let t = total(s, s.len());
        assert(n * 1_000_000_000_000_000 <= 100_000_000_000 * t) by (nonlinear_arith)
            requires
                t >= n * 10_000,
        ;
        assert(0 <= n * 1_000_000_000_000_000 / t <= 100_000_000_000) by (nonlinear_arith)
            requires
                t > 0,
                0 <= n,
                n * 1_000_000_000_000_000 <= 100_000_000_000 * t,
        ;
    }
}

/// A meter that starts empty never keeps more durations than it has room for.
pub proof fn law_window_is_bounded(s: Seq<u64>, capacity: usize, dt: u64)
    requires
        0 < capacity,
        s.len() <= capacity,
    ensures
        recorded(s, capacity, dt).len() <= capacity,
        recorded(s, capacity, dt).last() >= dt,
{
}

} // verus!
