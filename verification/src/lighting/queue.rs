//! Work queue for light propagation, bucketed by level.
//!
//! Levels run from 0 to 15, and the brightest entry is always handled first,
//! so sixteen first-in-first-out buckets and a bit mask of the non-empty ones
//! give constant-time push and pop.

use std::collections::VecDeque;
use vstd::prelude::*;

use crate::voxel::coords::{chunk_of, BlockPos, ChunkCoord};

verus! {

/// One propagation step: consider spreading `from_level` outward from `pos`,
/// but not through a face whose bit is set in `propagation_mask`.
#[derive(Debug, Clone, Copy, PartialEq, Eq, Structural)]
pub struct QueueEntry {
    pub pos: BlockPos,
    pub from_level: u8,
    pub propagation_mask: u8,
}

/// Sixteen buckets indexed by level.
#[derive(Debug)]
pub struct BucketQueue {
    buckets: Vec<VecDeque<QueueEntry>>,
    nonempty_mask: u16,
}

/// Bit `i` of a bucket mask.
spec fn mask_bit(mask: u16, i: int) -> bool {
    (mask >> (i as u16)) & 1 != 0
}

proof fn lemma_mask_set(mask: u16, b: u16)
    requires
        b < 16,
    ensures
        forall|i: int|
            0 <= i < 16 ==> #[trigger] mask_bit(mask | (1u16 << b), i) == (i == b || mask_bit(
                mask,
                i,
            )),
{
    assert forall|i: int| 0 <= i < 16 implies #[trigger] mask_bit(mask | (1u16 << b), i) == (i == b
        || mask_bit(mask, i)) by {
        let j = i as u16;
        assert(((mask | (1u16 << b)) >> j) & 1 != 0 <==> (j == b || (mask >> j) & 1 != 0))
            by (bit_vector)
            requires
                j < 16,
                b < 16,
        ;
    }
}

proof fn lemma_mask_clear(mask: u16, b: u16)
    requires
        b < 16,
    ensures
        forall|i: int|
            0 <= i < 16 ==> #[trigger] mask_bit(mask & !(1u16 << b), i) == (i != b && mask_bit(
                mask,
                i,
            )),
{
    assert forall|i: int| 0 <= i < 16 implies #[trigger] mask_bit(mask & !(1u16 << b), i) == (i != b
        && mask_bit(mask, i)) by {
        let j = i as u16;
        assert(((mask & !(1u16 << b)) >> j) & 1 != 0 <==> (j != b && (mask >> j) & 1 != 0))
            by (bit_vector)
            requires
                j < 16,
                b < 16,
        ;
    }
}

proof fn lemma_mask_zero(mask: u16)
    ensures
        mask == 0 ==> forall|i: int| 0 <= i < 16 ==> !#[trigger] mask_bit(mask, i),
        mask != 0 ==> exists|i: int| 0 <= i < 16 && #[trigger] mask_bit(mask, i),
{
    assert(forall|j: u16| (0u16 >> j) & 1 == 0) by (bit_vector);
    if mask != 0 {
        let lz = vstd::std_specs::bits::u16_leading_zeros(mask);
        vstd::std_specs::bits::axiom_u16_leading_zeros(mask);
        assert(mask_bit(mask, 15 - lz));
    }
}

/// The entries of a list that lie outside chunk `coord`.
pub open spec fn outside_chunk(s: Seq<QueueEntry>, coord: ChunkCoord) -> Seq<QueueEntry> {
    s.filter(|e: QueueEntry| chunk_of(e.pos) != coord)
}

/// The brightest level at which something is queued, below `n`.
pub open spec fn top_level(buckets: Seq<Seq<QueueEntry>>, n: int) -> Option<int>
    decreases n,
{
    if n <= 0 {
        None
    } else if buckets[n - 1].len() > 0 {
        Some(n - 1)
    } else {
        top_level(buckets, n - 1)
    }
}

/// Number of entries in the first `n` buckets.
pub open spec fn entry_count(buckets: Seq<Seq<QueueEntry>>, n: int) -> nat
    decreases n,
{
    if n <= 0 {
        0
    } else {
        entry_count(buckets, n - 1) + buckets[n - 1].len()
    }
}

/// No entries at any level.
pub open spec fn no_entries() -> Seq<Seq<QueueEntry>> {
    Seq::new(16, |l: int| Seq::<QueueEntry>::empty())
}

impl View for BucketQueue {
    /// The queued entries of each level, oldest first.
    type V = Seq<Seq<QueueEntry>>;

    closed spec fn view(&self) -> Seq<Seq<QueueEntry>> {
        Seq::new(16, |l: int| self.buckets@[l]@)
    }
}

impl Default for BucketQueue {
    fn default() -> (q: Self)
        ensures
            q.wf(),
            q@ == no_entries(),
    {
        let mut buckets: Vec<VecDeque<QueueEntry>> = Vec::new();
        let mut i: usize = 0;
        while i < 16
            invariant
                i <= 16,
                buckets@.len() == i,
                forall|j: int|
                    0 <= j < i ==> (#[trigger] buckets@[j])@ == Seq::<QueueEntry>::empty(),
            decreases 16 - i,
        {
            buckets.push(VecDeque::new());
            i = i + 1;
        }
        proof {
            lemma_mask_zero(0);
        }
        let q = BucketQueue { buckets, nonempty_mask: 0 };
        assert(q@ =~= no_entries());
        q
    }
}

impl BucketQueue {
    /// Each bucket holds entries of its own level, and the mask marks exactly
    /// the non-empty buckets.
    pub closed spec fn wf(&self) -> bool {
        &&& self.buckets@.len() == 16
        &&& forall|i: int|
            0 <= i < 16 ==> mask_bit(self.nonempty_mask, i) == ((
            #[trigger] self.buckets@[i])@.len() > 0)
        &&& levels_capped(self@)
    }

    /// Every entry of a queue sits in the bucket of its level, those above 15 in
    /// the last.
    pub proof fn law_entries_sit_in_their_bucket(&self)
        requires
            self.wf(),
        ensures
            levels_capped(self@),
    {
    }

    /// Append an entry to the bucket of its level. A level above 15 is queued
    /// with level 15.
    pub fn push(&mut self, entry: QueueEntry)
        requires
            old(self).wf(),
        ensures
            final(self).wf(),
            final(self)@ == pushed(old(self)@, entry),
    {
        let bucket: usize = if entry.from_level > 15 {
            15
        } else {
            entry.from_level as usize
        };
        let ghost before = self.buckets@;
        proof {
            lemma_mask_set(self.nonempty_mask, bucket as u16);
        }
        self.buckets[bucket].push_back(entry);
        self.nonempty_mask = self.nonempty_mask | (1u16 << (bucket as u16));
        proof {
            assert(self@ =~= pushed(old(self)@, entry)) by {
                assert forall|l: int| 0 <= l < 16 implies self@[l] == pushed(
                    old(self)@,
                    entry,
                )[l] by {
                    if l != bucket {
                        assert(self.buckets@[l] == before[l]);
                    }
                }
            }
        }
    }

    /// Take the oldest entry of the highest level, or `None` when empty.
    pub fn pop_highest(&mut self) -> (r: Option<QueueEntry>)
        requires
            old(self).wf(),
        ensures
            final(self).wf(),
            match queue_pop(old(self)@) {
                Some((e, rest)) => r == Some(e) && final(self)@ == rest,
                None => r is None && old(self)@ == no_entries() && final(self)@ == old(self)@,
            },
    {
        if self.nonempty_mask == 0 {
            proof {
                lemma_mask_zero(self.nonempty_mask);
                assert forall|i: int| 0 <= i < 16 implies self@[i] == no_entries()[i] by {
                    assert(self.buckets@[i]@.len() == 0);
                    assert(self@[i] =~= Seq::<QueueEntry>::empty());
                }
                assert(self@ =~= no_entries());
                lemma_top_level_max(self@, 16);
            }
            return None;
        }
        proof {
            vstd::std_specs::bits::axiom_u16_leading_zeros(self.nonempty_mask);
        }
        let bit: usize = 15 - self.nonempty_mask.leading_zeros() as usize;
        let ghost before = self.buckets@;
        proof {
            assert(mask_bit(self.nonempty_mask, bit as int));
            assert(before[bit as int]@.len() > 0);
            assert forall|l: int| bit < l < 16 implies (#[trigger] self@[l]).len() == 0 by {
                assert((self.nonempty_mask >> (l as u16)) & 1 == 0);
                assert(!mask_bit(self.nonempty_mask, l));
                assert(before[l]@.len() == 0);
            }
            lemma_top_level(self@, bit as int, 16);
            lemma_mask_clear(self.nonempty_mask, bit as u16);
        }
        let entry = self.buckets[bit].pop_front().unwrap();
        if self.buckets[bit].len() == 0 {
            self.nonempty_mask = self.nonempty_mask & !(1u16 << (bit as u16));
        }
        proof {
            let rest = old(self)@.update(bit as int, old(self)@[bit as int].drop_first());
            assert forall|l: int| 0 <= l < 16 implies self@[l] == rest[l] by {
                if l != bit {
                    assert(self.buckets@[l] == before[l]);
                } else {
                    assert(self@[l] =~= rest[l]);
                }
            }
            assert(self@ =~= rest);
            assert(entry == old(self)@[bit as int][0]);
            assert(levels_capped(self@)) by {
                assert forall|l: int, k: int|
                    0 <= l < 16 && 0 <= k < self@[l].len() implies bucket_of(
                    (#[trigger] self@[l][k]).from_level,
                ) == l by {
                    if l == bit {
                        assert(self@[l][k] == old(self)@[l][k + 1]);
                    } else {
                        assert(self@[l][k] == old(self)@[l][k]);
                    }
                }
            }
        }
        Some(entry)
    }

    /// Drop every entry that lies in chunk `coord`.
    pub fn purge_chunk(&mut self, coord: ChunkCoord)
        requires
            old(self).wf(),
        ensures
            final(self).wf(),
            final(self)@ == old(self)@.map_values(
                |s: Seq<QueueEntry>| outside_chunk(s, coord),
            ),
    {
        let ghost before = self.buckets@;
        let mut b: usize = 0;
        while b < 16
            invariant
                b <= 16,
                before.len() == 16,
                self.buckets@.len() == 16,
                forall|i: int|
                    0 <= i < b ==> (#[trigger] self.buckets@[i])@ == outside_chunk(
                        before[i]@,
                        coord,
                    ),
                forall|i: int| b <= i < 16 ==> (#[trigger] self.buckets@[i]) == before[i],
                forall|i: int|
                    0 <= i < 16 ==> mask_bit(self.nonempty_mask, i) == ((
                    #[trigger] self.buckets@[i])@.len() > 0),
            decreases 16 - b,
        {
            let mut kept: VecDeque<QueueEntry> = VecDeque::new();
            let mut k: usize = 0;
            let n: usize = self.buckets[b].len();
            assert(before[b as int]@.take(0).filter(|e: QueueEntry| chunk_of(e.pos) != coord)
                =~= Seq::<QueueEntry>::empty()) by {
                reveal(Seq::filter);
            }
            while k < n
                invariant
                    b < 16,
                    before.len() == 16,
                    self.buckets@.len() == 16,
                    self.buckets@[b as int] == before[b as int],
                    k <= n,
                    n == before[b as int]@.len(),
                    kept@ == outside_chunk(before[b as int]@.take(k as int), coord),
                decreases n - k,
            {
                let e = self.buckets[b][k];
                proof {
                    let s = before[b as int]@;
                    let p = |e: QueueEntry| chunk_of(e.pos) != coord;
                    assert(s.take(k as int + 1).drop_last() =~= s.take(k as int));
                    assert(s.take(k as int + 1).last() == e);
                    reveal(Seq::filter);
                }
                if e.pos.to_chunk() != coord {
                    kept.push_back(e);
                }
                k = k + 1;
            }
            proof {
                assert(before[b as int]@.take(n as int) =~= before[b as int]@);
                lemma_mask_clear(self.nonempty_mask, b as u16);
            }
            let empty = kept.len() == 0;
            let ghost was = before[b as int]@;
            proof {
                lemma_outside_shrinks(was, coord);
            }
            self.buckets.set(b, kept);
            if empty {
                self.nonempty_mask = self.nonempty_mask & !(1u16 << (b as u16));
            }
            b = b + 1;
        }
        proof {
            let want = old(self)@.map_values(|s: Seq<QueueEntry>| outside_chunk(s, coord));
            assert forall|l: int| 0 <= l < 16 implies self@[l] == want[l] by {
                assert(self.buckets@[l]@ == outside_chunk(before[l]@, coord));
            }
            assert(self@ =~= want);
            assert forall|l: int, k: int| 0 <= l < 16 && 0 <= k < self@[l].len() implies bucket_of(
                (#[trigger] self@[l][k]).from_level,
            ) == l by {
                lemma_outside_member(old(self)@[l], coord, k);
            }
        }
    }

    pub fn is_empty(&self) -> (b: bool)
        requires
            self.wf(),
        ensures
            b == (self@ == no_entries()),
    {
        proof {
            lemma_mask_zero(self.nonempty_mask);
            if self.nonempty_mask == 0 {
                assert forall|i: int| 0 <= i < 16 implies self@[i] == no_entries()[i] by {
                    assert(self.buckets@[i]@.len() == 0);
                    assert(self@[i] =~= Seq::<QueueEntry>::empty());
                }
                assert(self@ =~= no_entries());
            } else {
                let i = choose|i: int| 0 <= i < 16 && #[trigger] mask_bit(self.nonempty_mask, i);
                assert(self.buckets@[i]@.len() > 0);
                assert(self@[i].len() > 0);
                assert(no_entries()[i].len() == 0);
            }
        }
        self.nonempty_mask == 0
    }

    /// Number of queued entries.
    pub fn len(&self) -> (n: usize)
        requires
            self.wf(),
            entry_count(self@, 16) <= usize::MAX,
        ensures
            n == entry_count(self@, 16),
    {
        let mut n: usize = 0;
        let mut b: usize = 0;
        while b < 16
            invariant
                b <= 16,
                self.wf(),
                n == entry_count(self@, b as int),
                entry_count(self@, 16) <= usize::MAX,
            decreases 16 - b,
        {
            proof {
                lemma_count_grows(self@, b as int + 1, 16);
                assert(self@[b as int].len() == self.buckets@[b as int]@.len());
            }
            n = n + self.buckets[b].len();
            b = b + 1;
        }
        n
    }
}

/// Every entry sits in the bucket of its level.
pub open spec fn levels_match(buckets: Seq<Seq<QueueEntry>>) -> bool {
    &&& buckets.len() == 16
    &&& forall|l: int, k: int|
        0 <= l < 16 && 0 <= k < buckets[l].len() ==> (#[trigger] buckets[l][k]).from_level == l
}

/// The bucket of a level: levels above 15 share that of 15.
pub open spec fn bucket_of(level: u8) -> int {
    if level > 15 {
        15
    } else {
        level as int
    }
}

/// Every entry sits in the bucket of its level, those above 15 in the last.
pub open spec fn levels_capped(buckets: Seq<Seq<QueueEntry>>) -> bool {
    &&& buckets.len() == 16
    &&& forall|l: int, k: int|
        0 <= l < 16 && 0 <= k < buckets[l].len() ==> bucket_of(
            (#[trigger] buckets[l][k]).from_level,
        ) == l
}

/// The queue after `e` joins the end of its level's bucket.
pub open spec fn pushed(buckets: Seq<Seq<QueueEntry>>, e: QueueEntry) -> Seq<Seq<QueueEntry>> {
    buckets.update(bucket_of(e.from_level), buckets[bucket_of(e.from_level)].push(e))
}

/// A pushed entry joins the bucket of its level.
pub proof fn lemma_push_keeps_levels(buckets: Seq<Seq<QueueEntry>>, e: QueueEntry)
    requires
        levels_match(buckets),
        e.from_level <= 15,
    ensures
        levels_match(pushed(buckets, e)),
{
    let t = pushed(buckets, e);
    assert forall|l: int, k: int| 0 <= l < 16 && 0 <= k < t[l].len() implies (
    #[trigger] t[l][k]).from_level == l by {
        if l != e.from_level || k < buckets[l].len() {
            assert(t[l][k] == buckets[l][k]);
        }
    }
}

/// One more entry is one more to count.
proof fn lemma_count_update(buckets: Seq<Seq<QueueEntry>>, e: QueueEntry, n: int)
    requires
        buckets.len() == 16,
        0 <= n <= 16,
    ensures
        entry_count(pushed(buckets, e), n) == entry_count(buckets, n) + (if n > bucket_of(
            e.from_level,
        ) {
            1int
        } else {
            0
        }),
    decreases n,
{
    if n > 0 {
        lemma_count_update(buckets, e, n - 1);
    }
}

/// An entry of any level joins the queue behind all entries of its level; one
/// above 15 counts as 15. It is taken before every entry of a lower level.
pub proof fn law_push_queues_behind_its_level(buckets: Seq<Seq<QueueEntry>>, e: QueueEntry)
    requires
        levels_capped(buckets),
    ensures
        levels_capped(pushed(buckets, e)),
        pushed(buckets, e)[bucket_of(e.from_level)] == buckets[bucket_of(e.from_level)].push(e),
        forall|l: int|
            0 <= l < 16 && l != bucket_of(e.from_level) ==> #[trigger] pushed(buckets, e)[l]
                == buckets[l],
        entry_count(pushed(buckets, e), 16) == entry_count(buckets, 16) + 1,
{
    let t = pushed(buckets, e);
    assert forall|l: int, k: int| 0 <= l < 16 && 0 <= k < t[l].len() implies bucket_of(
        (#[trigger] t[l][k]).from_level,
    ) == l by {
        if l != bucket_of(e.from_level) || k < buckets[l].len() {
            assert(t[l][k] == buckets[l][k]);
        }
    }
    lemma_count_update(buckets, e, 16);
}

/// What is popped is the oldest of its level, and nothing of a higher level
/// remains, where levels above 15 count as 15.
pub proof fn law_pop_takes_highest_level(buckets: Seq<Seq<QueueEntry>>)
    requires
        levels_capped(buckets),
        queue_pop(buckets) is Some,
    ensures
        ({
            let (e, rest) = queue_pop(buckets)->0;
            let b = bucket_of(e.from_level);
            &&& levels_capped(rest)
            &&& buckets[b] == seq![e] + rest[b]
            &&& forall|l: int| 0 <= l < b ==> #[trigger] rest[l] == buckets[l]
            &&& forall|l: int|
                b < l < 16 ==> (#[trigger] buckets[l]).len() == 0 && rest[l] == buckets[l]
        }),
{
    let (e, rest) = queue_pop(buckets)->0;
    lemma_top_level_max(buckets, 16);
    let t = top_level(buckets, 16)->0;
    assert(buckets[t][0] == e);
    assert(buckets[t] =~= seq![e] + rest[t]);
    assert forall|l: int, k: int| 0 <= l < 16 && 0 <= k < rest[l].len() implies bucket_of(
        (#[trigger] rest[l][k]).from_level,
    ) == l by {
        if l == t {
            assert(rest[l][k] == buckets[l][k + 1]);
        } else {
            assert(rest[l][k] == buckets[l][k]);
        }
    }
}

/// The oldest entry of the highest level and what remains without it.
pub open spec fn queue_pop(buckets: Seq<Seq<QueueEntry>>) -> Option<
    (QueueEntry, Seq<Seq<QueueEntry>>),
> {
    match top_level(buckets, 16) {
        Some(l) => Some((buckets[l][0], buckets.update(l, buckets[l].drop_first()))),
        None => None,
    }
}

/// What is popped is at least as bright as everything that remains, and the
/// rest keeps its place.
pub proof fn law_pop_takes_brightest(buckets: Seq<Seq<QueueEntry>>)
    requires
        levels_match(buckets),
        queue_pop(buckets) is Some,
    ensures
        levels_match((queue_pop(buckets)->0).1),
        (queue_pop(buckets)->0).0.from_level <= 15,
        forall|l: int, k: int|
            0 <= l < 16 && 0 <= k < ((queue_pop(buckets)->0).1)[l].len() ==> (
            #[trigger] ((queue_pop(buckets)->0).1)[l][k]).from_level
                <= (queue_pop(buckets)->0).0.from_level,
{
    let (e, rest) = queue_pop(buckets)->0;
    lemma_top_level_max(buckets, 16);
    let t = top_level(buckets, 16)->0;
    assert(buckets[t][0].from_level == t);
    assert forall|l: int, k: int| 0 <= l < 16 && 0 <= k < rest[l].len() implies (
    #[trigger] rest[l][k]).from_level == l && l <= t by {
        if l == t {
            assert(rest[l][k] == buckets[l][k + 1]);
        } else {
            assert(rest[l][k] == buckets[l][k]);
            assert(buckets[l].len() > 0);
        }
    }
}

/// Entries of one level come out in the order they went in: a push does not
/// change which entry of a non-empty level is next.
pub proof fn law_same_level_is_fifo(buckets: Seq<Seq<QueueEntry>>, e: QueueEntry)
    requires
        buckets.len() == 16,
    ensures
        buckets[bucket_of(e.from_level)].len() > 0 ==> pushed(buckets, e)[bucket_of(
            e.from_level,
        )][0] == buckets[bucket_of(e.from_level)][0],
        pushed(buckets, e)[bucket_of(e.from_level)].last() == e,
{
}

/// A lone entry comes straight back out and leaves the queue empty.
pub proof fn law_push_pop_round_trip(e: QueueEntry)
    ensures
        queue_pop(pushed(no_entries(), e)) == Some((e, no_entries())),
{
    let b = pushed(no_entries(), e);
    let l = bucket_of(e.from_level);
    assert forall|k: int| l < k < 16 implies (#[trigger] b[k]).len() == 0 by {
        assert(b[k] == no_entries()[k]);
    }
    assert(b[l].len() == 1);
    lemma_top_level(b, l, 16);
    assert(b.update(l, b[l].drop_first()) =~= no_entries()) by {
        assert(b[l].drop_first() =~= Seq::<QueueEntry>::empty());
    }
}

pub proof fn lemma_top_level_max(buckets: Seq<Seq<QueueEntry>>, n: int)
    ensures
        match top_level(buckets, n) {
            Some(t) => 0 <= t < n && buckets[t].len() > 0 && forall|l: int|
                t < l < n ==> (#[trigger] buckets[l]).len() == 0,
            None => forall|l: int| 0 <= l < n ==> (#[trigger] buckets[l]).len() == 0,
        },
    decreases n,
{
    if n > 0 && buckets[n - 1].len() == 0 {
        lemma_top_level_max(buckets, n - 1);
    }
}

proof fn lemma_top_level(buckets: Seq<Seq<QueueEntry>>, l: int, n: int)
    requires
        0 <= l < n,
        buckets[l].len() > 0,
        forall|k: int| l < k < n ==> (#[trigger] buckets[k]).len() == 0,
    ensures
        top_level(buckets, n) == Some(l),
    decreases n,
{
    if n - 1 > l {
        assert(buckets[n - 1].len() == 0);
        lemma_top_level(buckets, l, n - 1);
    }
}

proof fn lemma_count_grows(buckets: Seq<Seq<QueueEntry>>, a: int, b: int)
    requires
        0 <= a <= b,
    ensures
        entry_count(buckets, a) <= entry_count(buckets, b),
    decreases b - a,
{
    if a < b {
        lemma_count_grows(buckets, a, b - 1);
    }
}

proof fn lemma_outside_shrinks(s: Seq<QueueEntry>, coord: ChunkCoord)
    ensures
        outside_chunk(s, coord).len() > 0 ==> s.len() > 0,
{
    reveal(Seq::filter);
}

proof fn lemma_outside_member(s: Seq<QueueEntry>, coord: ChunkCoord, k: int)
    requires
        0 <= k < outside_chunk(s, coord).len(),
    ensures
        s.contains(outside_chunk(s, coord)[k]),
    decreases s.len(),
{
    reveal(Seq::filter);
    if s.len() > 0 {
        let p = |e: QueueEntry| chunk_of(e.pos) != coord;
        let rest = outside_chunk(s.drop_last(), coord);
        if k < rest.len() {
            lemma_outside_member(s.drop_last(), coord, k);
            let j = choose|j: int|
                0 <= j < s.drop_last().len() && s.drop_last()[j] == rest[k];
            assert(s[j] == rest[k]);
        } else {
            assert(s[s.len() - 1] == s.last());
        }
    }
}

} // verus!
