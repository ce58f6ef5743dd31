//! A growable bit-vector over integer item ids.
//!
//! An `ItemSet` stands for a finite set of item ids and supports union,
//! intersection, difference, subset test and cardinality.  Its mathematical
//! model is a `Set<int>` of the positions whose bit is set.

use vstd::prelude::*;

verus! {

pub struct ItemSet {
    bits: Vec<bool>,
}

impl View for ItemSet {
    type V = Set<int>;

    closed spec fn view(&self) -> Set<int> {
        Set::new(|i: int| 0 <= i < self.bits@.len() && self.bits@[i])
    }
}

impl Clone for ItemSet {
    fn clone(&self) -> (r: Self)
        ensures
            r@ == self@,
    {
        let mut bits: Vec<bool> = Vec::new();
        let mut k: usize = 0;
        while k < self.bits.len()
            invariant
                k <= self.bits@.len(),
                bits@ == self.bits@.subrange(0, k as int),
            decreases self.bits@.len() - k,
        {
            bits.push(self.bits[k]);
            k = k + 1;
        }
        proof {
            assert(bits@ =~= self.bits@);
        }
        let r = ItemSet { bits };
        proof {
            assert(r@ =~= self@);
        }
        r
    }
}

impl ItemSet {
    /// The empty set.
    pub fn new() -> (s: ItemSet)
        ensures
            s@ == Set::<int>::empty(),
    {
        let s = ItemSet { bits: Vec::new() };
        proof {
            assert(s@ =~= Set::<int>::empty());
        }
        s
    }

    /// Membership test.
    pub fn contains(&self, i: usize) -> (r: bool)
        ensures
            r == self@.contains(i as int),
    {
        i < self.bits.len() && self.bits[i]
    }

    /// Adds `i` to the set.
    pub fn insert(&mut self, i: usize)
        requires
            i < usize::MAX,
        ensures
            final(self)@ == old(self)@.insert(i as int),
    {
        while self.bits.len() <= i
            invariant
                i < usize::MAX,
                self@ == old(self)@,
                forall|j: int| self.bits@.len() <= j ==> !self@.contains(j),
                forall|j: int|
                    0 <= j < self.bits@.len() ==> self@.contains(j) == self.bits@[j],
            decreases i + 1 - self.bits@.len(),
        {
            let ghost pre = *self;
            self.bits.push(false);
            proof {
                assert(self@ =~= pre@);
            }
        }
        let ghost pre = *self;
        self.bits[i] = true;
        proof {
            assert(self@ =~= pre@.insert(i as int));
        }
    }

    /// Replaces the set with its union with `other`.
    pub fn union_with(&mut self, other: &ItemSet)
        ensures
            final(self)@ == old(self)@.union(other@),
    {
        while self.bits.len() < other.bits.len()
            invariant
                self@ == old(self)@,
                forall|j: int| self.bits@.len() <= j ==> !self@.contains(j),
                forall|j: int|
                    0 <= j < self.bits@.len() ==> self@.contains(j) == self.bits@[j],
            decreases other.bits@.len() - self.bits@.len(),
        {
            let ghost pre = *self;
            self.bits.push(false);
            proof {
                assert(self@ =~= pre@);
            }
        }
        let ghost mid = *self;
        let mut k: usize = 0;
        while k < other.bits.len()
            invariant
                other.bits@.len() <= self.bits@.len(),
                k <= other.bits@.len(),
                self.bits@.len() == mid.bits@.len(),
                forall|j: int|
                    0 <= j < k ==> self.bits@[j] == (mid.bits@[j] || other.bits@[j]),
                forall|j: int| k <= j < self.bits@.len() ==> self.bits@[j] == mid.bits@[j],
            decreases other.bits@.len() - k,
        {
            let b = self.bits[k] || other.bits[k];
            self.bits[k] = b;
            k = k + 1;
        }
        proof {
            assert(self@ =~= mid@.union(other@));
        }
    }

    /// Replaces the set with its intersection with `other`.
    pub fn intersect_with(&mut self, other: &ItemSet)
        ensures
            final(self)@ == old(self)@.intersect(other@),
    {
        let ghost pre = *self;
        let mut outside = self.clone();
        outside.difference_with(other);
        self.difference_with(&outside);
        proof {
            assert(self@ =~= pre@.intersect(other@));
        }
    }

    /// Removes every element of `other` from the set.
    pub fn difference_with(&mut self, other: &ItemSet)
        ensures
            final(self)@ == old(self)@.difference(other@),
    {
        let mut k: usize = 0;
        let ghost pre = *self;
        while k < self.bits.len()
            invariant
                k <= self.bits@.len(),
                self.bits@.len() == pre.bits@.len(),
                forall|j: int|
                    0 <= j < k ==> self.bits@[j] == (pre.bits@[j] && !(j < other.bits@.len()
                        && other.bits@[j])),
                forall|j: int| k <= j < self.bits@.len() ==> self.bits@[j] == pre.bits@[j],
            decreases self.bits@.len() - k,
        {
            let b = self.bits[k] && !(k < other.bits.len() && other.bits[k]);
            self.bits[k] = b;
            k = k + 1;
        }
        proof {
            assert(self@ =~= pre@.difference(other@));
        }
    }

    /// Does every element of the set also lie in `other`?
    pub fn is_subset(&self, other: &ItemSet) -> (r: bool)
        ensures
            r == self@.subset_of(other@),
    {
        let mut k: usize = 0;
        while k < self.bits.len()
            invariant
                k <= self.bits@.len(),
                forall|j: int| 0 <= j < k && self@.contains(j) ==> other@.contains(j),
                forall|j: int|
                    0 <= j < self.bits@.len() ==> self@.contains(j) == self.bits@[j],
                forall|j: int| self.bits@.len() <= j ==> !self@.contains(j),
                forall|j: int|
                    0 <= j < other.bits@.len() ==> other@.contains(j) == other.bits@[j],
                forall|j: int| other.bits@.len() <= j ==> !other@.contains(j),
            decreases self.bits@.len() - k,
        {
            if self.bits[k] && !(k < other.bits.len() && other.bits[k]) {
                assert(self@.contains(k as int) && !other@.contains(k as int));
                return false;
            }
            k = k + 1;
        }
        true
    }

    /// Do the two sets share at least one element?
    pub fn intersects(&self, other: &ItemSet) -> (r: bool)
        ensures
            r == exists|i: int| self@.contains(i) && other@.contains(i),
    {
        let mut k: usize = 0;
        while k < self.bits.len()
            invariant
                k <= self.bits@.len(),
                forall|j: int| 0 <= j < k ==> !(self@.contains(j) && other@.contains(j)),
                forall|j: int|
                    0 <= j < self.bits@.len() ==> self@.contains(j) == self.bits@[j],
                forall|j: int| self.bits@.len() <= j ==> !self@.contains(j),
                forall|j: int|
                    0 <= j < other.bits@.len() ==> other@.contains(j) == other.bits@[j],
                forall|j: int| other.bits@.len() <= j ==> !other@.contains(j),
            decreases self.bits@.len() - k,
        {
            if self.bits[k] && k < other.bits.len() && other.bits[k] {
                assert(self@.contains(k as int) && other@.contains(k as int));
                return true;
            }
            k = k + 1;
        }
        false
    }

    /// Do the two bit-vectors stand for the same set?
    pub fn set_eq(&self, other: &ItemSet) -> (r: bool)
        ensures
            r == (self@ == other@),
    {
        let r = self.is_subset(other) && other.is_subset(self);
        proof {
            if r {
                assert(self@ =~= other@);
            }
        }
        r
    }

    /// Is the set empty?
    pub fn is_empty(&self) -> (r: bool)
        ensures
            r == (self@ == Set::<int>::empty()),
    {
        let mut k: usize = 0;
        while k < self.bits.len()
            invariant
                k <= self.bits@.len(),
                forall|j: int| 0 <= j < k ==> !self@.contains(j),
                forall|j: int|
                    0 <= j < self.bits@.len() ==> self@.contains(j) == self.bits@[j],
                forall|j: int| self.bits@.len() <= j ==> !self@.contains(j),
            decreases self.bits@.len() - k,
        {
            if self.bits[k] {
                assert(self@.contains(k as int));
                return false;
            }
            k = k + 1;
        }
        proof {
            assert(self@ =~= Set::<int>::empty());
        }
        true
    }

    /// The number of elements (cardinality).
    pub fn count(&self) -> (r: usize)
        ensures
            self@.finite(),
            r == self@.len(),
    {
        let ghost full = self@;
        let mut c: usize = 0;
        let mut k: usize = 0;
        proof {
            assert(Set::new(|i: int| 0 <= i < 0 && self.bits@[i]) =~= Set::<int>::empty());
        }
        while k < self.bits.len()
            invariant
                k <= self.bits@.len(),
                c <= k,
                Set::new(|i: int| 0 <= i < k && self.bits@[i]).finite(),
                c == Set::new(|i: int| 0 <= i < k && self.bits@[i]).len(),
            decreases self.bits@.len() - k,
        {
            let ghost sofar = Set::new(|i: int| 0 <= i < k && self.bits@[i]);
            let ghost next = Set::new(|i: int| 0 <= i < k + 1 && self.bits@[i]);
            if self.bits[k] {
                proof {
                    assert(next =~= sofar.insert(k as int));
                    assert(!sofar.contains(k as int));
                }
                c = c + 1;
            } else {
                proof {
                    assert(next =~= sofar);
                }
            }
            k = k + 1;
        }
        proof {
            assert(Set::new(|i: int| 0 <= i < self.bits@.len() && self.bits@[i]) =~= self@);
        }
        c
    }

    /// A new set holding `i + off` for every element `i` of this set.
    pub fn shifted_up(&self, off: usize) -> (r: ItemSet)
        requires
            forall|i: int| self@.contains(i) ==> i + off < usize::MAX,
        ensures
            r@ == Set::new(|i: int| self@.contains(i - off)),
    {
        let mut r = ItemSet::new();
        let mut k: usize = 0;
        while k < self.bits.len()
            invariant
                k <= self.bits@.len(),
                forall|i: int| self@.contains(i) ==> i + off < usize::MAX,
                forall|j: int|
                    0 <= j < self.bits@.len() ==> self@.contains(j) == self.bits@[j],
                forall|j: int| self.bits@.len() <= j ==> !self@.contains(j),
                r@ == Set::new(|i: int| self@.contains(i - off) && i - off < k),
            decreases self.bits@.len() - k,
        {
            let ghost pre = r@;
            if self.bits[k] {
                assert(self@.contains(k as int));
                r.insert(k + off);
            }
            proof {
                assert(r@ =~= Set::new(
                    |i: int| self@.contains(i - off) && i - off < k + 1,
                ));
            }
            k = k + 1;
        }
        proof {
            assert(r@ =~= Set::new(|i: int| self@.contains(i - off)));
        }
        r
    }

    /// The elements in ascending order.
    pub fn to_vec(&self) -> (r: Vec<usize>)
        ensures
            forall|a: int, b: int| 0 <= a < b < r@.len() ==> r@[a] < r@[b],
            forall|a: int| 0 <= a < r@.len() ==> self@.contains(r@[a] as int),
            forall|i: int|
                self@.contains(i) ==> exists|a: int| 0 <= a < r@.len() && r@[a] == i,
    {
        let mut r: Vec<usize> = Vec::new();
        let mut k: usize = 0;
        while k < self.bits.len()
            invariant
                k <= self.bits@.len(),
                forall|j: int|
                    0 <= j < self.bits@.len() ==> self@.contains(j) == self.bits@[j],
                forall|j: int| self.bits@.len() <= j ==> !self@.contains(j),
                forall|a: int, b: int| 0 <= a < b < r@.len() ==> r@[a] < r@[b],
                forall|a: int| 0 <= a < r@.len() ==> self@.contains(r@[a] as int) && r@[a] < k,
                forall|i: int|
                    0 <= i < k && self@.contains(i) ==> exists|a: int|
                        0 <= a < r@.len() && r@[a] == i,
            decreases self.bits@.len() - k,
        {
            let ghost pre = r@;
            if self.bits[k] {
                r.push(k);
            }
            proof {
                assert forall|i: int| 0 <= i < k + 1 && self@.contains(i) implies exists|a: int|
                    0 <= a < r@.len() && r@[a] == i by {
                    if i < k {
                        let a = choose|a: int| 0 <= a < pre.len() && pre[a] == i;
                        assert(r@[a] == i);
                    } else {
                        assert(r@[r@.len() - 1] == i);
                    }
                }
            }
            k = k + 1;
        }
        r
    }
}

} // verus!
