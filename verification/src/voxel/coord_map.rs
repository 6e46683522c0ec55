//! A map keyed by grid coordinates, with constant-time lookup and a
//! deterministic walking order.

use std::collections::HashMap;
use vstd::prelude::*;

use crate::voxel::coords::{BlockPos, ChunkCoord, IVec3};

verus! {

broadcast use vstd::std_specs::hash::group_hash_axioms;

/// A coordinate that can be packed into one integer without loss.
pub trait CoordKey: Sized + Copy {
    /// The packed coordinate.
    spec fn packed(self) -> u128;

    fn pack(&self) -> (k: u128)
        ensures
            k == self.packed(),
    ;

    /// Distinct coordinates pack to distinct integers.
    proof fn packed_injective(a: Self, b: Self)
        requires
            a.packed() == b.packed(),
        ensures
            a == b,
    ;
}

/// The packing of a vector: three 32-bit digits.
pub open spec fn pack_vec(v: IVec3) -> u128 {
    ((v.x + 0x8000_0000) * 0x1_0000_0000_0000_0000 + (v.y + 0x8000_0000) * 0x1_0000_0000 + (v.z
        + 0x8000_0000)) as u128
}

fn pack_ivec(v: IVec3) -> (k: u128)
    ensures
        k == pack_vec(v),
{
    let x: u128 = (v.x as i64 + 0x8000_0000) as u128;
    let y: u128 = (v.y as i64 + 0x8000_0000) as u128;
    let z: u128 = (v.z as i64 + 0x8000_0000) as u128;
    x * 0x1_0000_0000_0000_0000 + y * 0x1_0000_0000 + z
}

proof fn lemma_pack_vec_injective(a: IVec3, b: IVec3)
    requires
        pack_vec(a) == pack_vec(b),
    ensures
        a == b,
{
}

impl CoordKey for BlockPos {
    open spec fn packed(self) -> u128 {
        pack_vec(self.0)
    }

    fn pack(&self) -> (k: u128) {
        pack_ivec(self.0)
    }

    proof fn packed_injective(a: Self, b: Self) {
        lemma_pack_vec_injective(a.0, b.0);
    }
}

impl CoordKey for ChunkCoord {
    open spec fn packed(self) -> u128 {
        pack_vec(self.0)
    }

    fn pack(&self) -> (k: u128) {
        pack_ivec(self.0)
    }

    proof fn packed_injective(a: Self, b: Self) {
        lemma_pack_vec_injective(a.0, b.0);
    }
}

/// A list of entries read as a map.
pub open spec fn entries_to_map<K, V>(s: Seq<(K, V)>) -> Map<K, V> {
    Map::new(
        |k: K| exists|i: int| 0 <= i < s.len() && (#[trigger] s[i]).0 == k,
        |k: K| s[choose|i: int| 0 <= i < s.len() && (#[trigger] s[i]).0 == k].1,
    )
}

/// No key occurs twice.
pub open spec fn keys_distinct<K, V>(s: Seq<(K, V)>) -> bool {
    forall|i: int, j: int|
        0 <= i < s.len() && 0 <= j < s.len() && i != j ==> (#[trigger] s[i]).0 != (
        #[trigger] s[j]).0
}

/// A map from coordinates to values. Entries keep the order in which their
/// keys were first inserted; removing an entry moves the newest one into its
/// place.
pub struct CoordMap<K, V> {
    entries: Vec<(K, V)>,
    index: HashMap<u128, usize>,
}

impl<K: CoordKey, V> CoordMap<K, V> {
    /// The entries in walking order.
    pub closed spec fn order(&self) -> Seq<(K, V)> {
        self.entries@
    }

    /// The contents as a map.
    pub open spec fn view(&self) -> Map<K, V> {
        entries_to_map(self.order())
    }

    /// The index table points at exactly the stored entries.
    pub closed spec fn wf(&self) -> bool {
        &&& keys_distinct(self.entries@)
        &&& forall|i: int|
            0 <= i < self.entries@.len() ==> self.index@.dom().contains(
                (#[trigger] self.entries@[i]).0.packed(),
            ) && self.index@[self.entries@[i].0.packed()] == i
        &&& forall|k: u128|
            #![trigger self.index@.dom().contains(k)]
            self.index@.dom().contains(k) ==> self.index@[k] < self.entries@.len()
                && self.entries@[self.index@[k] as int].0.packed() == k
    }

    pub fn new() -> (m: Self)
        ensures
            m.wf(),
            m.order() == Seq::<(K, V)>::empty(),
            m@ == Map::<K, V>::empty(),
    {
        let m = CoordMap { entries: Vec::new(), index: HashMap::new() };
        assert(m@ =~= Map::<K, V>::empty());
        m
    }

    pub fn len(&self) -> (n: usize)
        ensures
            n == self.order().len(),
    {
        self.entries.len()
    }

    pub fn is_empty(&self) -> (b: bool)
        ensures
            b == (self.order().len() == 0),
    {
        self.entries.len() == 0
    }

    /// What is listed is what the map holds.
    pub proof fn lemma_order_in_map(&self, i: int)
        requires
            self.wf(),
            0 <= i < self.order().len(),
        ensures
            self@.dom().contains(self.order()[i].0),
            self@[self.order()[i].0] == self.order()[i].1,
    {
        lemma_entry_in_map(self.order(), i);
    }

    /// Where `key` is stored.
    fn slot(&self, key: &K) -> (r: Option<usize>)
        requires
            self.wf(),
        ensures
            r matches Some(i) ==> i < self.order().len() && self.order()[i as int].0 == *key,
            r is None ==> forall|i: int|
                0 <= i < self.order().len() ==> (#[trigger] self.order()[i]).0 != *key,
    {
        let k: u128 = key.pack();
        match self.index.get(&k) {
            Some(i) => {
                proof {
                    K::packed_injective(self.entries@[*i as int].0, *key);
                }
                Some(*i)
            },
            None => None,
        }
    }

    pub fn contains_key(&self, key: &K) -> (b: bool)
        requires
            self.wf(),
        ensures
            b == self@.dom().contains(*key),
    {
        self.slot(key).is_some()
    }

    pub fn get(&self, key: &K) -> (r: Option<&V>)
        requires
            self.wf(),
        ensures
            r == (if self@.dom().contains(*key) {
                Some(&self@[*key])
            } else {
                None
            }),
    {
        match self.slot(key) {
            Some(i) => {
                proof {
                    lemma_entry_in_map(self.order(), i as int);
                }
                Some(&self.entries[i].1)
            },
            None => None,
        }
    }

    /// The value under `key`, for modification in place.
    pub fn get_mut(&mut self, key: &K) -> (r: Option<&mut V>)
        requires
            old(self).wf(),
        ensures
            final(self).wf(),
            match r {
                Some(v) => {
                    &&& old(self)@.dom().contains(*key)
                    &&& *v == old(self)@[*key]
                    &&& final(self)@ == old(self)@.insert(*key, *final(v))
                    &&& same_keys(old(self).order(), final(self).order())
                },
                None => !old(self)@.dom().contains(*key) && *final(self) == *old(self),
            },
    {
        match self.slot(key) {
            Some(i) => {
                let ghost before = self.entries@;
                proof {
                    lemma_entry_in_map(before, i as int);
                    assert forall|v: V| #[trigger]
                        entries_to_map(before.update(i as int, (*key, v))) == entries_to_map(
                            before,
                        ).insert(*key, v) by {
                        lemma_update_entry(before, i as int, v);
                    }
                }
                Some(&mut self.entries[i].1)
            },
            None => None,
        }
    }

    /// Store `value` under `key`, replacing what was there.
    pub fn insert(&mut self, key: K, value: V)
        requires
            old(self).wf(),
        ensures
            final(self).wf(),
            final(self)@ == old(self)@.insert(key, value),
            old(self)@.dom().contains(key) ==> same_keys(old(self).order(), final(self).order()),
            !old(self)@.dom().contains(key) ==> final(self).order() == old(self).order().push(
                (key, value),
            ),
    {
        match self.slot(&key) {
            Some(i) => {
                proof {
                    lemma_entry_in_map(self.entries@, i as int);
                    lemma_update_entry(self.entries@, i as int, value);
                }
                self.entries.set(i, (key, value));
            },
            None => {
                let ghost before = self.entries@;
                let k: u128 = key.pack();
                let n: usize = self.entries.len();
                proof {
                    assert forall|i: int| 0 <= i < before.len() implies (
                    #[trigger] before[i]).0.packed() != key.packed() by {
                        assert(self.order()[i].0 != key);
                        if before[i].0.packed() == key.packed() {
                            K::packed_injective(before[i].0, key);
                        }
                    }
                    lemma_push_entry(before, key, value);
                }
                self.entries.push((key, value));
                self.index.insert(k, n);
            },
        }
    }

    /// Drop the entry under `key`, if any.
    pub fn remove(&mut self, key: &K) -> (r: Option<V>)
        requires
            old(self).wf(),
        ensures
            final(self).wf(),
            final(self)@ == old(self)@.remove(*key),
            r == (if old(self)@.dom().contains(*key) {
                Some(old(self)@[*key])
            } else {
                None
            }),
    {
        match self.slot(key) {
            Some(i) => {
                let ghost before = self.entries@;
                let k: u128 = key.pack();
                let last: usize = self.entries.len() - 1;
                let moved: u128 = self.entries[last].0.pack();
                proof {
                    lemma_entry_in_map(before, i as int);
                    lemma_swap_remove_entry(before, i as int);
                    assert forall|a: int, b: int|
                        0 <= a < before.len() && 0 <= b < before.len() && a != b implies (
                    #[trigger] before[a]).0.packed() != (#[trigger] before[b]).0.packed() by {
                        if before[a].0.packed() == before[b].0.packed() {
                            K::packed_injective(before[a].0, before[b].0);
                        }
                    }
                }
                let gone = self.entries.swap_remove(i);
                self.index.remove(&k);
                if i < last {
                    self.index.insert(moved, i);
                }
                assert(self.entries@ == swap_removed(before, i as int));
                Some(gone.1)
            },
            None => {
                assert(self@.remove(*key) =~= self@);
                None
            },
        }
    }

    /// The key of the `i`-th entry in walking order.
    pub fn key_at(&self, i: usize) -> (k: K)
        requires
            self.wf(),
            i < self.order().len(),
        ensures
            k == self.order()[i as int].0,
            self@.dom().contains(k),
    {
        proof {
            lemma_entry_in_map(self.entries@, i as int);
        }
        self.entries[i].0
    }

    /// The value of the `i`-th entry in walking order.
    pub fn value_at(&self, i: usize) -> (v: &V)
        requires
            self.wf(),
            i < self.order().len(),
        ensures
            *v == self.order()[i as int].1,
            *v == self@[self.order()[i as int].0],
    {
        proof {
            lemma_entry_in_map(self.entries@, i as int);
        }
        &self.entries[i].1
    }

    /// Give up all entries, in walking order.
    pub fn into_entries(self) -> (v: Vec<(K, V)>)
        requires
            self.wf(),
        ensures
            v@ == self.order(),
            keys_distinct(v@),
            entries_to_map(v@) == self@,
    {
        self.entries
    }
}

/// Two entry lists hold the same keys in the same places.
pub open spec fn same_keys<K, V>(a: Seq<(K, V)>, b: Seq<(K, V)>) -> bool {
    &&& a.len() == b.len()
    &&& forall|i: int| 0 <= i < a.len() ==> (#[trigger] a[i]).0 == (#[trigger] b[i]).0
}

/// A list after its last element has replaced element `i`.
pub open spec fn swap_removed<T>(s: Seq<T>, i: int) -> Seq<T> {
    s.update(i, s.last()).drop_last()
}

proof fn lemma_update_entry<K, V>(s: Seq<(K, V)>, i: int, v: V)
    requires
        keys_distinct(s),
        0 <= i < s.len(),
    ensures
        keys_distinct(s.update(i, (s[i].0, v))),
        same_keys(s, s.update(i, (s[i].0, v))),
        entries_to_map(s.update(i, (s[i].0, v))) == entries_to_map(s).insert(s[i].0, v),
{
    let t = s.update(i, (s[i].0, v));
    let lhs = entries_to_map(t);
    let rhs = entries_to_map(s).insert(s[i].0, v);
    assert forall|k: K| lhs.dom().contains(k) == rhs.dom().contains(k) by {
        if lhs.dom().contains(k) {
            let j = choose|j: int| 0 <= j < t.len() && (#[trigger] t[j]).0 == k;
            assert(s[j].0 == k);
        }
        if rhs.dom().contains(k) {
            if k == s[i].0 {
                assert(t[i].0 == k);
            } else {
                let j = choose|j: int| 0 <= j < s.len() && (#[trigger] s[j]).0 == k;
                assert(t[j].0 == k);
            }
        }
    }
    assert forall|k: K| lhs.dom().contains(k) implies lhs[k] == rhs[k] by {
        let j = choose|j: int| 0 <= j < t.len() && (#[trigger] t[j]).0 == k;
        lemma_entry_in_map(t, j);
        lemma_entry_in_map(s, j);
    }
    assert(lhs =~= rhs);
}

proof fn lemma_push_entry<K, V>(s: Seq<(K, V)>, k: K, v: V)
    requires
        keys_distinct(s),
        forall|i: int| 0 <= i < s.len() ==> (#[trigger] s[i]).0 != k,
    ensures
        keys_distinct(s.push((k, v))),
        !entries_to_map(s).dom().contains(k),
        entries_to_map(s.push((k, v))) == entries_to_map(s).insert(k, v),
{
    let t = s.push((k, v));
    let lhs = entries_to_map(t);
    let rhs = entries_to_map(s).insert(k, v);
    assert forall|q: K| lhs.dom().contains(q) == rhs.dom().contains(q) by {
        if lhs.dom().contains(q) {
            let j = choose|j: int| 0 <= j < t.len() && (#[trigger] t[j]).0 == q;
            if j < s.len() {
                assert(s[j].0 == q);
            }
        }
        if rhs.dom().contains(q) {
            if q == k {
                assert(t[s.len() as int].0 == q);
            } else {
                let j = choose|j: int| 0 <= j < s.len() && (#[trigger] s[j]).0 == q;
                assert(t[j].0 == q);
            }
        }
    }
    assert forall|q: K| lhs.dom().contains(q) implies lhs[q] == rhs[q] by {
        let j = choose|j: int| 0 <= j < t.len() && (#[trigger] t[j]).0 == q;
        lemma_entry_in_map(t, j);
        if j < s.len() {
            lemma_entry_in_map(s, j);
        }
    }
    assert(lhs =~= rhs);
}

proof fn lemma_swap_remove_entry<K, V>(s: Seq<(K, V)>, i: int)
    requires
        keys_distinct(s),
        0 <= i < s.len(),
    ensures
        keys_distinct(swap_removed(s, i)),
        entries_to_map(swap_removed(s, i)) == entries_to_map(s).remove(s[i].0),
{
    let t = swap_removed(s, i);
    let lhs = entries_to_map(t);
    let rhs = entries_to_map(s).remove(s[i].0);
    assert forall|q: K| lhs.dom().contains(q) == rhs.dom().contains(q) by {
        if lhs.dom().contains(q) {
            let j = choose|j: int| 0 <= j < t.len() && (#[trigger] t[j]).0 == q;
            if j == i {
                assert(s.last().0 == q);
                assert(s[s.len() - 1].0 == q);
            } else {
                assert(s[j].0 == q);
            }
        }
        if rhs.dom().contains(q) {
            let j = choose|j: int| 0 <= j < s.len() && (#[trigger] s[j]).0 == q;
            if j == s.len() - 1 {
                assert(t[i].0 == q);
            } else {
                assert(t[j].0 == q);
            }
        }
    }
    assert forall|q: K| lhs.dom().contains(q) implies lhs[q] == rhs[q] by {
        let j = choose|j: int| 0 <= j < t.len() && (#[trigger] t[j]).0 == q;
        lemma_entry_in_map(t, j);
        let o = if j == i {
            s.len() - 1
        } else {
            j
        };
        lemma_entry_in_map(s, o);
    }
    assert(lhs =~= rhs);
}

/// An entry's value is what the map holds under its key.
pub proof fn lemma_entry_in_map<K, V>(s: Seq<(K, V)>, i: int)
    requires
        keys_distinct(s),
        0 <= i < s.len(),
    ensures
        entries_to_map(s).dom().contains(s[i].0),
        entries_to_map(s)[s[i].0] == s[i].1,
{
    let k = s[i].0;
    let j = choose|j: int| 0 <= j < s.len() && (#[trigger] s[j]).0 == k;
    assert(s[i].0 == k);
    assert(i == j);
}

/// A set of coordinates with a deterministic walking order.
pub struct CoordSet<K> {
    inner: CoordMap<K, ()>,
}

impl<K: CoordKey> CoordSet<K> {
    /// The members in walking order.
    pub closed spec fn order(&self) -> Seq<K> {
        self.inner.order().map_values(|e: (K, ())| e.0)
    }

    /// The members as a set.
    pub closed spec fn view(&self) -> Set<K> {
        self.inner@.dom()
    }

    pub closed spec fn wf(&self) -> bool {
        self.inner.wf()
    }

    pub fn new() -> (s: Self)
        ensures
            s.wf(),
            s@ == Set::<K>::empty(),
            s.order() == Seq::<K>::empty(),
    {
        CoordSet { inner: CoordMap::new() }
    }

    pub fn len(&self) -> (n: usize)
        ensures
            n == self.order().len(),
    {
        self.inner.len()
    }

    pub fn is_empty(&self) -> (b: bool)
        requires
            self.wf(),
        ensures
            b == (self@ == Set::<K>::empty()),
            b == (self.order().len() == 0),
    {
        let b = self.inner.is_empty();
        proof {
            if b {
                assert(self@ =~= Set::<K>::empty());
            } else {
                lemma_entry_in_map(self.inner.order(), 0);
                assert(self@.contains(self.inner.order()[0].0));
            }
        }
        b
    }

    pub fn contains(&self, key: &K) -> (b: bool)
        requires
            self.wf(),
        ensures
            b == self@.contains(*key),
    {
        self.inner.contains_key(key)
    }

    pub fn insert(&mut self, key: K)
        requires
            old(self).wf(),
        ensures
            final(self).wf(),
            final(self)@ == old(self)@.insert(key),
            final(self).order() == (if old(self)@.contains(key) {
                old(self).order()
            } else {
                old(self).order().push(key)
            }),
    {
        self.inner.insert(key, ());
        assert(self@ =~= old(self)@.insert(key));
        assert(self.order() =~= (if old(self)@.contains(key) {
            old(self).order()
        } else {
            old(self).order().push(key)
        }));
    }

    pub fn remove(&mut self, key: &K)
        requires
            old(self).wf(),
        ensures
            final(self).wf(),
            final(self)@ == old(self)@.remove(*key),
    {
        let _ = self.inner.remove(key);
        assert(self@ =~= old(self)@.remove(*key));
    }

    /// The `i`-th member in walking order.
    pub fn key_at(&self, i: usize) -> (k: K)
        requires
            self.wf(),
            i < self.order().len(),
        ensures
            k == self.order()[i as int],
            self@.contains(k),
    {
        self.inner.key_at(i)
    }
}

/// The members of a set are exactly the elements of its walking order, each
/// once.
pub proof fn law_set_order_lists_members<K: CoordKey>(s: CoordSet<K>)
    requires
        s.wf(),
    ensures
        s.order().no_duplicates(),
        s.order().to_set() == s@,
{
    let e = s.inner.order();
    assert forall|k: K| s.order().to_set().contains(k) == s@.contains(k) by {
        if s.order().contains(k) {
            let i = choose|i: int| 0 <= i < s.order().len() && s.order()[i] == k;
            lemma_entry_in_map(e, i);
        }
        if s@.contains(k) {
            let i = choose|i: int| 0 <= i < e.len() && (#[trigger] e[i]).0 == k;
            assert(s.order()[i] == k);
        }
    }
    assert(s.order().to_set() =~= s@);
}

/// A map's walking order lists each of its keys once.
pub proof fn law_map_order_lists_keys<K: CoordKey, V>(m: CoordMap<K, V>)
    requires
        m.wf(),
    ensures
        keys_distinct(m.order()),
        forall|k: K|
            #![trigger m@.dom().contains(k)]
            m@.dom().contains(k) <==> exists|i: int|
                0 <= i < m.order().len() && (#[trigger] m.order()[i]).0 == k,
        m@.dom().finite(),
        m@.dom().len() == m.order().len(),
{
    let keys = m.order().map_values(|e: (K, V)| e.0);
    assert(keys.no_duplicates());
    assert forall|k: K| keys.to_set().contains(k) == m@.dom().contains(k) by {
        if m@.dom().contains(k) {
            let i = choose|i: int| 0 <= i < m.order().len() && (#[trigger] m.order()[i]).0 == k;
            assert(keys[i] == k);
        }
        if keys.contains(k) {
            let i = keys.index_of(k);
            assert(m.order()[i].0 == k);
        }
    }
    assert(keys.to_set() =~= m@.dom());
    keys.unique_seq_to_set();
}

} // verus!
