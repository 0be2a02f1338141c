//! Small sets of values that are compared by what they stand for.
use vstd::prelude::*;

verus! {

/// A value that can be compared with others of its type.
pub trait Same: View {
    /// Whether both values stand for the same.
    fn is_same(&self, other: &Self) -> (same: bool)
        ensures
            same == (self@ == other@),
    ;
}

impl Same for String {
    fn is_same(&self, other: &Self) -> (same: bool) {
        *self == *other
    }
}

/// A set, kept as a list.
pub struct ListSet<T> {
    items: Vec<T>,
}

impl<T: Same> View for ListSet<T> {
    type V = Set<T::V>;

    closed spec fn view(&self) -> Set<T::V> {
        Set::new(|value: T::V| exists|i: int| 0 <= i < self.items@.len() && #[trigger] self.items@[i]@ == value)
    }
}

impl<T: Same> ListSet<T> {
    /// A set without elements.
    pub fn new() -> (set: Self)
        ensures
            set@ == Set::<T::V>::empty(),
    {
        let set = ListSet { items: Vec::new() };
        assert(set@ =~= Set::empty());
        set
    }

    /// Whether the set has no elements.
    pub fn is_empty(&self) -> (empty: bool)
        ensures
            empty == (self@ == Set::<T::V>::empty()),
    {
        if self.items.len() == 0 {
            assert(self@ =~= Set::empty());
            true
        } else {
            assert(self@.contains(self.items@[0]@));
            false
        }
    }

    /// Whether the set contains a value.
    pub fn contains(&self, value: &T) -> (found: bool)
        ensures
            found == self@.contains(value@),
    {
        let mut i: usize = 0;
        while i < self.items.len()
            invariant
                i <= self.items@.len(),
                forall|j: int| 0 <= j < i ==> (#[trigger] self.items@[j])@ != value@,
            decreases self.items@.len() - i,
        {
            if self.items[i].is_same(value) {
                return true;
            }
            i += 1;
        }
        false
    }

    /// Adds a value.
    pub fn insert(&mut self, value: T)
        ensures
            final(self)@ == old(self)@.insert(value@),
    {
        if self.contains(&value) {
            assert(self@ =~= old(self)@.insert(value@));
            return;
        }
        let ghost before = self.items@;
        self.items.push(value);
        proof {
            assert forall|other: T::V| self@.contains(other) == old(self)@.insert(
                value@,
            ).contains(other) by {
                if other == value@ {
                    assert(self.items@[before.len() as int]@ == other);
                }
                if old(self)@.contains(other) {
                    let i = choose|i: int| 0 <= i < before.len() && #[trigger] before[i]@ == other;
                    assert(self.items@[i]@ == other);
                }
                if self@.contains(other) && other != value@ {
                    let i = choose|i: int|
                        0 <= i < self.items@.len() && #[trigger] self.items@[i]@ == other;
                    assert(before[i]@ == other);
                }
            }
            assert(self@ =~= old(self)@.insert(value@));
        }
    }

    /// Takes a value out, and says whether it was there.
    pub fn remove(&mut self, value: &T) -> (removed: bool)
        ensures
            final(self)@ == old(self)@.remove(value@),
            removed == old(self)@.contains(value@),
    {
        let mut removed = false;
        let mut i: usize = 0;
        while i < self.items.len()
            invariant
                i <= self.items@.len(),
                forall|j: int| 0 <= j < i ==> (#[trigger] self.items@[j])@ != value@,
                self@.remove(value@) == old(self)@.remove(value@),
                old(self)@.contains(value@) == (removed || self@.contains(value@)),
            decreases self.items@.len() - i,
        {
            if self.items[i].is_same(value) {
                let ghost before = self.items@;
                let ghost view = self@;
                self.items.swap_remove(i);
                removed = true;
                proof {
                    let last = before.len() - 1;
                    assert(view.contains(value@)) by {
                        assert(before[i as int]@ == value@);
                    }
                    assert forall|other: T::V| other != value@ implies self@.contains(other)
                        == view.contains(other) by {
                        if view.contains(other) {
                            let j = choose|j: int|
                                0 <= j < before.len() && #[trigger] before[j]@ == other;
                            if j == last {
                                assert(self.items@[i as int]@ == other);
                            } else {
                                assert(self.items@[j]@ == other);
                            }
                        }
                        if self@.contains(other) {
                            let j = choose|j: int|
                                0 <= j < self.items@.len() && #[trigger] self.items@[j]@ == other;
                            if j == i {
                                assert(before[last]@ == other);
                            } else {
                                assert(before[j]@ == other);
                            }
                        }
                    }
                    assert(self@.remove(value@) =~= view.remove(value@));
                }
            } else {
                i += 1;
            }
        }
        assert(self@.remove(value@) =~= self@);
        removed
    }

    /// Takes all values out.
    pub fn clear(&mut self)
        ensures
            final(self)@ == Set::<T::V>::empty(),
    {
        self.items.clear();
        assert(self@ =~= Set::empty());
    }
}

} // verus!
