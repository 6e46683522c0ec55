//! Sorting chunk positions by a key.

use vstd::prelude::*;

use crate::voxel::coords::ChunkCoord;

verus! {

/// A chunk position with the key it is sorted by.
#[derive(Clone, Copy, Debug, PartialEq, Eq, Structural)]
pub struct Ranked {
    pub key: i128,
    pub coord: ChunkCoord,
}

/// Keys never fall.
pub open spec fn rising(s: Seq<Ranked>) -> bool {
    forall|i: int, j: int| 0 <= i <= j < s.len() ==> (#[trigger] s[i]).key <= (#[trigger] s[j]).key
}

/// The entries with key `k`, in order.
pub open spec fn of_key(s: Seq<Ranked>, k: int) -> Seq<Ranked>
    decreases s.len(),
{
    if s.len() == 0 {
        Seq::empty()
    } else if s.last().key == k {
        of_key(s.drop_last(), k).push(s.last())
    } else {
        of_key(s.drop_last(), k)
    }
}

/// `out` holds the entries of `s` with rising keys, equal keys in the order
/// they had.
pub open spec fn sorted_form(s: Seq<Ranked>, out: Seq<Ranked>) -> bool {
    &&& rising(out)
    &&& out.to_multiset() == s.to_multiset()
    &&& forall|k: int| #[trigger] of_key(out, k) == of_key(s, k)
}

proof fn lemma_of_key_absent(s: Seq<Ranked>, k: int)
    requires
        forall|i: int| 0 <= i < s.len() ==> (#[trigger] s[i]).key != k,
    ensures
        of_key(s, k) == Seq::<Ranked>::empty(),
    decreases s.len(),
{
    if s.len() > 0 {
        lemma_of_key_absent(s.drop_last(), k);
    }
}

proof fn lemma_of_key_concat(a: Seq<Ranked>, b: Seq<Ranked>, k: int)
    ensures
        of_key(a + b, k) == of_key(a, k) + of_key(b, k),
    decreases b.len(),
{
    if b.len() == 0 {
        assert(a + b =~= a);
    } else {
        lemma_of_key_concat(a, b.drop_last(), k);
        assert((a + b).drop_last() =~= a + b.drop_last());
        assert((a + b).last() == b.last());
        assert(of_key(a, k) + of_key(b.drop_last(), k).push(b.last()) =~= (of_key(a, k) + of_key(
            b.drop_last(),
            k,
        )).push(b.last()));
    }
}

/// Merge two sorted lists; of equal keys, those of the first come first.
fn merge(l: &Vec<Ranked>, r: &Vec<Ranked>) -> (out: Vec<Ranked>)
    requires
        rising(l@),
        rising(r@),
    ensures
        sorted_form(l@ + r@, out@),
{
    broadcast use vstd::seq_lib::group_to_multiset_ensures;

    let mut out: Vec<Ranked> = Vec::new();
    let mut i: usize = 0;
    let mut j: usize = 0;
    proof {
        assert(l@.take(0) =~= Seq::empty());
        assert(r@.take(0) =~= Seq::empty());
        assert(out@.to_multiset() =~= l@.take(0).to_multiset().add(r@.take(0).to_multiset()));
        assert forall|k: int| #[trigger] of_key(out@, k) == of_key(l@.take(0), k) + of_key(
            r@.take(0),
            k,
        ) by {}
    }
    while i < l.len() || j < r.len()
        invariant
            rising(l@),
            rising(r@),
            rising(out@),
            i <= l@.len(),
            j <= r@.len(),
            out@.to_multiset() == l@.take(i as int).to_multiset().add(
                r@.take(j as int).to_multiset(),
            ),
            forall|k: int| #[trigger]
                of_key(out@, k) == of_key(l@.take(i as int), k) + of_key(r@.take(j as int), k),
            out@.len() > 0 && i < l@.len() ==> out@.last().key <= l@[i as int].key,
            out@.len() > 0 && j < r@.len() ==> out@.last().key <= r@[j as int].key,
            j > 0 && i < l@.len() ==> r@[j - 1].key < l@[i as int].key,
        decreases l@.len() - i + r@.len() - j,
    {
        let ghost before = out@;
        if j >= r.len() || (i < l.len() && l[i].key <= r[j].key) {
            let x = l[i];
            proof {
                assert(l@.take(i + 1).drop_last() =~= l@.take(i as int));
                assert(l@.take(i + 1) =~= l@.take(i as int).push(x));
                assert(before.push(x).drop_last() =~= before);
                assert forall|k: int| #[trigger]
                    of_key(before.push(x), k) == of_key(l@.take(i + 1), k) + of_key(
                        r@.take(j as int),
                        k,
                    ) by {
                    assert(of_key(before, k) == of_key(l@.take(i as int), k) + of_key(
                        r@.take(j as int),
                        k,
                    ));
                    if x.key == k {
                        lemma_of_key_absent(r@.take(j as int), k);
                        assert(of_key(l@.take(i as int), k) + Seq::<Ranked>::empty() =~= of_key(
                            l@.take(i as int),
                            k,
                        ));
                    }
                }
                before.to_multiset_ensures();
                l@.take(i as int).to_multiset_ensures();
                assert(before.push(x).to_multiset() =~= l@.take(i + 1).to_multiset().add(
                    r@.take(j as int).to_multiset(),
                ));
            }
            out.push(x);
            i = i + 1;
        } else {
            let x = r[j];
            proof {
                assert(r@.take(j + 1).drop_last() =~= r@.take(j as int));
                assert(r@.take(j + 1) =~= r@.take(j as int).push(x));
                assert(before.push(x).drop_last() =~= before);
                assert forall|k: int| #[trigger]
                    of_key(before.push(x), k) == of_key(l@.take(i as int), k) + of_key(
                        r@.take(j + 1),
                        k,
                    ) by {
                    assert(of_key(before, k) == of_key(l@.take(i as int), k) + of_key(
                        r@.take(j as int),
                        k,
                    ));
                    if x.key == k {
                        assert((of_key(l@.take(i as int), k) + of_key(r@.take(j as int), k)).push(
                            x,
                        ) =~= of_key(l@.take(i as int), k) + of_key(r@.take(j as int), k).push(x));
                    }
                }
                before.to_multiset_ensures();
                r@.take(j as int).to_multiset_ensures();
                assert(before.push(x).to_multiset() =~= l@.take(i as int).to_multiset().add(
                    r@.take(j + 1).to_multiset(),
                ));
            }
            out.push(x);
            j = j + 1;
        }
    }
    proof {
        assert(l@.take(i as int) =~= l@);
        assert(r@.take(j as int) =~= r@);
        vstd::seq_lib::lemma_multiset_commutative(l@, r@);
        assert forall|k: int| #[trigger] of_key(out@, k) == of_key(l@ + r@, k) by {
            lemma_of_key_concat(l@, r@, k);
        }
    }
    out
}

/// Sort by key; equal keys stay in the order they had.
pub fn sort_by_key(v: Vec<Ranked>) -> (out: Vec<Ranked>)
    ensures
        sorted_form(v@, out@),
    decreases v@.len(),
{
    let n: usize = v.len();
    if n <= 1 {
        return v;
    }
    let half: usize = n / 2;
    let mut left: Vec<Ranked> = Vec::with_capacity(half);
    let mut right: Vec<Ranked> = Vec::with_capacity(n - half);
    let mut i: usize = 0;
    while i < n
        invariant
            i <= n,
            n == v@.len(),
            half == n / 2,
            i <= half ==> left@ == v@.take(i as int) && right@.len() == 0,
            i > half ==> left@ == v@.take(half as int) && right@ == v@.subrange(
                half as int,
                i as int,
            ),
        decreases n - i,
    {
        if i < half {
            left.push(v[i]);
        } else {
            right.push(v[i]);
        }
        i = i + 1;
    }
    let ghost l0 = left@;
    let ghost r0 = right@;
    assert(v@ =~= l0 + r0);
    let l = sort_by_key(left);
    let r = sort_by_key(right);
    let out = merge(&l, &r);
    proof {
        vstd::seq_lib::lemma_multiset_commutative(l@, r@);
        vstd::seq_lib::lemma_multiset_commutative(l0, r0);
        assert forall|k: int| #[trigger] of_key(out@, k) == of_key(v@, k) by {
            lemma_of_key_concat(l0, r0, k);
            lemma_of_key_concat(l@, r@, k);
            assert(of_key(l@, k) == of_key(l0, k));
            assert(of_key(r@, k) == of_key(r0, k));
        }
    }
    out
}

} // verus!
