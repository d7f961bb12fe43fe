use vstd::prelude::*;
use vstd::set_lib::{lemma_int_range, lemma_len_subset, set_int_range};

verus! {

/// A set of state handles below a fixed capacity, held as one flag per handle.
#[derive(Debug)]
pub struct StateSet {
    bits: Vec<bool>,
}

impl View for StateSet {
    type V = Set<int>;

    /// The handles whose flag is set.
    closed spec fn view(&self) -> Set<int> {
        Set::new(|h: int| 0 <= h < self.bits.len() && self.bits[h])
    }
}

impl StateSet {
    /// The number of handles the set can hold: its members lie in `0..capacity`.
    pub closed spec fn spec_capacity(&self) -> usize {
        self.bits.len()
    }

    /// Every member is a handle below the capacity, so the set is finite.
    pub proof fn lemma_members_bounded(&self)
        ensures
            self@.subset_of(set_int_range(0, self.capacity() as int)),
            self@.finite(),
            self@.len() <= self.capacity(),
            forall|h: int| self@.contains(h) ==> 0 <= h < self.capacity(),
    {
        lemma_int_range(0, self.bits.len() as int);
        lemma_len_subset(self@, set_int_range(0, self.bits.len() as int));
    }

    /// The empty set over the handles `0..capacity`.
    pub fn new(capacity: usize) -> (s: Self)
        ensures
            s@ == Set::<int>::empty(),
            s.capacity() == capacity,
    {
        let mut bits: Vec<bool> = Vec::new();
        let mut i: usize = 0;
        while i < capacity
            invariant
                i <= capacity,
                bits.len() == i,
                forall|h: int| 0 <= h < i ==> !bits[h],
            decreases capacity - i,
        {
            bits.push(false);
            i += 1;
        }
        let s = StateSet { bits };
        s
    }

    /// The number of handles the set can hold.
    #[verifier::when_used_as_spec(spec_capacity)]
    pub fn capacity(&self) -> (n: usize)
        ensures
            n == self.capacity(),
    {
        self.bits.len()
    }

    /// Makes room for one more handle; the members stay as they are.
    pub fn grow(&mut self)
        ensures
            final(self)@ == old(self)@,
            final(self).capacity() == old(self).capacity() + 1,
    {
        self.bits.push(false);
    }

    /// Adds `handle` to the set.
    pub fn insert(&mut self, handle: usize)
        requires
            handle < old(self).capacity(),
        ensures
            final(self)@ == old(self)@.insert(handle as int),
            final(self).capacity() == old(self).capacity(),
    {
        self.bits[handle] = true;
    }

    /// Whether `handle` is a member.
    pub fn contains(&self, handle: usize) -> (b: bool)
        ensures
            b == self@.contains(handle as int),
    {
        handle < self.bits.len() && self.bits[handle]
    }

    /// Whether the set has no member.
    pub fn is_empty(&self) -> (b: bool)
        ensures
            b == (self@ == Set::<int>::empty()),
    {
        let mut i: usize = 0;
        while i < self.bits.len()
            invariant
                i <= self.bits.len(),
                forall|h: int| 0 <= h < i ==> !self.bits[h],
            decreases self.bits.len() - i,
        {
            if self.bits[i] {
                assert(self@.contains(i as int));
                return false;
            }
            i += 1;
        }
        assert(self@ =~= Set::<int>::empty());
        true
    }

    /// Whether every member of `other` is a member of `self`.
    pub fn is_superset(&self, other: &StateSet) -> (b: bool)
        ensures
            b == other@.subset_of(self@),
    {
        let mut i: usize = 0;
        while i < other.bits.len()
            invariant
                i <= other.bits.len(),
                forall|h: int| 0 <= h < i && other@.contains(h) ==> self@.contains(h),
            decreases other.bits.len() - i,
        {
            if other.bits[i] && !self.contains(i) {
                return false;
            }
            i += 1;
        }
        true
    }

    /// Whether the two sets share no member.
    pub fn is_disjoint(&self, other: &StateSet) -> (b: bool)
        ensures
            b == self@.disjoint(other@),
    {
        let mut i: usize = 0;
        while i < other.bits.len()
            invariant
                i <= other.bits.len(),
                forall|h: int| 0 <= h < i && other@.contains(h) ==> !self@.contains(h),
            decreases other.bits.len() - i,
        {
            if other.bits[i] && self.contains(i) {
                return false;
            }
            i += 1;
        }
        true
    }

    /// Whether the two sets have the same members.
    pub fn same_members(&self, other: &StateSet) -> (b: bool)
        ensures
            b == (self@ == other@),
    {
        let b = self.is_superset(other) && other.is_superset(self);
        assert(b ==> self@ =~= other@);
        b
    }

    /// Adds every member of `other` to the set.
    pub fn extend(&mut self, other: &StateSet)
        requires
            other.capacity() <= old(self).capacity(),
        ensures
            final(self)@ == old(self)@.union(other@),
            final(self).capacity() == old(self).capacity(),
    {
        let ghost before = self.bits@;
        let mut i: usize = 0;
        while i < other.bits.len()
            invariant
                i <= other.bits.len(),
                other.bits.len() <= self.bits.len(),
                self.bits.len() == before.len(),
                forall|h: int|
                    0 <= h < before.len() ==> (#[trigger] self.bits@[h] <==> (before[h] || (h < i
                        && other.bits@[h]))),
            decreases other.bits.len() - i,
        {
            if other.bits[i] {
                self.bits[i] = true;
            }
            i += 1;
        }
    }
}

impl Clone for StateSet {
    /// A copy with the same members and the same capacity.
    fn clone(&self) -> (s: StateSet)
        ensures
            s@ == self@,
            s.capacity() == self.capacity(),
    {
        let mut s = StateSet::new(self.bits.len());
        s.extend(self);
        s
    }
}

} // verus!
