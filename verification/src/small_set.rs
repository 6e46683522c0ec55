//! Small sets of plain values.

use vstd::prelude::*;

verus! {

/// A plain value that can be told apart from others of its type.
pub trait Plain: Copy {
    fn same(&self, other: &Self) -> (b: bool)
        ensures
            b == (*self == *other),
    ;
}

/// A set of few plain values.
#[derive(Debug)]
pub struct SmallSet<T> {
    items: Vec<T>,
}

impl<T: Plain> SmallSet<T> {
    /// The members.
    pub closed spec fn view(&self) -> Set<T> {
        self.items@.to_set()
    }

    /// No member is listed twice.
    pub closed spec fn wf(&self) -> bool {
        self.items@.no_duplicates()
    }

    pub fn new() -> (s: Self)
        ensures
            s.wf(),
            s@ == Set::<T>::empty(),
    {
        let s = SmallSet { items: Vec::new() };
        assert(s@ =~= Set::<T>::empty());
        s
    }

    fn position(&self, item: T) -> (r: Option<usize>)
        ensures
            match r {
                Some(i) => i < self.items@.len() && self.items@[i as int] == item,
                None => !self.items@.contains(item),
            },
    {
        let mut i: usize = 0;
        while i < self.items.len()
            invariant
                i <= self.items@.len(),
                forall|k: int| 0 <= k < i ==> #[trigger] self.items@[k] != item,
            decreases self.items@.len() - i,
        {
            if self.items[i].same(&item) {
                return Some(i);
            }
            i = i + 1;
        }
        None
    }

    pub fn contains(&self, item: T) -> (b: bool)
        ensures
            b == self@.contains(item),
    {
        let r = self.position(item);
        proof {
            if let Some(i) = r {
                assert(self.items@.contains(self.items@[i as int]));
            }
        }
        r.is_some()
    }

    pub fn len(&self) -> (n: usize)
        requires
            self.wf(),
        ensures
            n == self@.len(),
    {
        proof {
            self.items@.unique_seq_to_set();
        }
        self.items.len()
    }

    pub fn is_empty(&self) -> (b: bool)
        requires
            self.wf(),
        ensures
            b == (self@ == Set::<T>::empty()),
    {
        proof {
            if self.items@.len() > 0 {
                assert(self.items@.contains(self.items@[0]));
                assert(self@.contains(self.items@[0]));
            } else {
                assert(self@ =~= Set::<T>::empty());
            }
        }
        self.items.len() == 0
    }

    /// Add a member; whether it is new.
    pub fn insert(&mut self, item: T) -> (new: bool)
        requires
            old(self).wf(),
        ensures
            final(self).wf(),
            final(self)@ == old(self)@.insert(item),
            new == !old(self)@.contains(item),
    {
        let ghost before = self.items@;
        if self.contains(item) {
            assert(self@ =~= old(self)@.insert(item));
            return false;
        }
        self.items.push(item);
        proof {
            let after = before.push(item);
            assert(self.items@ == after);
            assert forall|x: T| #[trigger] self@.contains(x) == old(self)@.insert(item).contains(
                x,
            ) by {
                if before.contains(x) {
                    let k = choose|k: int| 0 <= k < before.len() && before[k] == x;
                    assert(after[k] == x);
                }
                if x == item {
                    assert(after[before.len() as int] == x);
                }
            }
            assert(self@ =~= old(self)@.insert(item));
            assert forall|i: int, j: int|
                0 <= i < after.len() && 0 <= j < after.len() && i != j implies after[i]
                != after[j] by {
                if i == before.len() {
                    assert(before.contains(before[j]));
                } else if j == before.len() {
                    assert(before.contains(before[i]));
                }
            }
        }
        true
    }

    /// Drop a member; whether it was one.
    pub fn remove(&mut self, item: T) -> (gone: bool)
        requires
            old(self).wf(),
        ensures
            final(self).wf(),
            final(self)@ == old(self)@.remove(item),
            gone == old(self)@.contains(item),
    {
        let ghost before = self.items@;
        match self.position(item) {
            Some(i) => {
                assert(before.contains(before[i as int]));
                let _ = self.items.swap_remove(i);
                proof {
                    let after = self.items@;
                    let last = before.len() - 1;
                    assert forall|x: T| #[trigger] self@.contains(x) == old(self)@.remove(
                        item,
                    ).contains(x) by {
                        if after.contains(x) {
                            let k = choose|k: int| 0 <= k < after.len() && after[k] == x;
                            if k == i {
                                assert(before[last] == x);
                            } else {
                                assert(before[k] == x);
                            }
                        }
                        if before.contains(x) && x != item {
                            let k = choose|k: int| 0 <= k < before.len() && before[k] == x;
                            if k == last {
                                assert(after[i as int] == x);
                            } else {
                                assert(after[k] == x);
                            }
                        }
                    }
                    assert(self@ =~= old(self)@.remove(item));
                }
                true
            },
            None => {
                assert(self@ =~= old(self)@.remove(item));
                false
            },
        }
    }

    pub fn clear(&mut self)
        ensures
            final(self).wf(),
            final(self)@ == Set::<T>::empty(),
    {
        self.items = Vec::new();
        assert(self@ =~= Set::<T>::empty());
    }
}

} // verus!
