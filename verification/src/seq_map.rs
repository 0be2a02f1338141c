//! Entries in the order of their numbers.
use vstd::prelude::*;

verus! {

/// Entries, the lowest number first.
pub struct SeqMap<T> {
    entries: Vec<(u64, T)>,
}

impl<T> View for SeqMap<T> {
    type V = Seq<(u64, T)>;

    closed spec fn view(&self) -> Seq<(u64, T)> {
        self.entries@
    }
}

/// Whether numbers are in order.
pub open spec fn ascending<T>(entries: Seq<(u64, T)>) -> bool {
    forall|i: int, j: int|
        0 <= i < j < entries.len() ==> (#[trigger] entries[i]).0 < (#[trigger] entries[j]).0
}

/// How many entries have a lower number.
pub open spec fn rank<T>(entries: Seq<(u64, T)>, seq: u64) -> int
    decreases entries.len(),
{
    if entries.len() == 0 || seq <= entries[0].0 {
        0
    } else {
        1 + rank(entries.drop_first(), seq)
    }
}

/// Whether there is an entry with a number.
pub open spec fn has_seq<T>(entries: Seq<(u64, T)>, seq: u64) -> bool {
    rank(entries, seq) < entries.len() && entries[rank(entries, seq)].0 == seq
}

/// The entries with one more, in the place of one with the same number.
pub open spec fn with_seq<T>(entries: Seq<(u64, T)>, seq: u64, value: T) -> Seq<(u64, T)> {
    let i = rank(entries, seq);
    if has_seq(entries, seq) {
        entries.update(i, (seq, value))
    } else {
        entries.insert(i, (seq, value))
    }
}

/// The entries without that of a number.
pub open spec fn without_seq<T>(entries: Seq<(u64, T)>, seq: u64) -> Seq<(u64, T)> {
    if has_seq(entries, seq) {
        entries.remove(rank(entries, seq))
    } else {
        entries
    }
}

/// Where a number stands.
pub proof fn rank_splits<T>(entries: Seq<(u64, T)>, seq: u64)
    requires
        ascending(entries),
    ensures
        0 <= rank(entries, seq) <= entries.len(),
        forall|i: int| 0 <= i < rank(entries, seq) ==> (#[trigger] entries[i]).0 < seq,
        forall|i: int| rank(entries, seq) <= i < entries.len() ==> seq <= (#[trigger] entries[i]).0,
    decreases entries.len(),
{
    if entries.len() == 0 || seq <= entries[0].0 {
    } else {
        let rest = entries.drop_first();
        assert forall|i: int, j: int| 0 <= i < j < rest.len() implies (#[trigger] rest[i]).0 < (
        #[trigger] rest[j]).0 by {
            assert(rest[i] == entries[i + 1] && rest[j] == entries[j + 1]);
        }
        rank_splits(rest, seq);
        assert forall|i: int| 0 <= i < rank(entries, seq) implies (#[trigger] entries[i]).0
            < seq by {
            if i > 0 {
                assert(entries[i] == rest[i - 1]);
            }
        }
        assert forall|i: int| rank(entries, seq) <= i < entries.len() implies seq <= (
        #[trigger] entries[i]).0 by {
            assert(entries[i] == rest[i - 1]);
        }
    }
}

impl<T> SeqMap<T> {
    /// What all lists of entries keep to.
    pub closed spec fn wf(&self) -> bool {
        ascending(self.entries@)
    }

    /// The numbers are in order.
    pub proof fn in_order(&self)
        requires
            self.wf(),
        ensures
            ascending(self@),
    {
    }

    /// No entries.
    pub fn new() -> (map: Self)
        ensures
            map.wf(),
            map@ == Seq::<(u64, T)>::empty(),
    {
        SeqMap { entries: Vec::new() }
    }

    /// How many entries there are.
    pub fn len(&self) -> (len: usize)
        ensures
            len == self@.len(),
    {
        self.entries.len()
    }

    fn find(&self, seq: u64) -> (i: usize)
        requires
            self.wf(),
        ensures
            i == rank(self@, seq),
            i <= self@.len(),
    {
        let ghost all = self.entries@;
        let mut i: usize = 0;
        assert(all.subrange(0, all.len() as int) =~= all);
        while i < self.entries.len() && self.entries[i].0 < seq
            invariant
                i <= self.entries@.len(),
                all == self.entries@,
                rank(all, seq) == i + rank(all.subrange(i as int, all.len() as int), seq),
            decreases self.entries@.len() - i,
        {
            let ghost rest = all.subrange(i as int, all.len() as int);
            assert(rest[0] == all[i as int]);
            assert(rest.drop_first() =~= all.subrange(i + 1, all.len() as int));
            i += 1;
        }
        i
    }

    /// Adds an entry, in the place of one with the same number.
    pub fn insert(&mut self, seq: u64, value: T)
        requires
            old(self).wf(),
        ensures
            final(self).wf(),
            final(self)@ == with_seq(old(self)@, seq, value),
    {
        let i: usize = self.find(seq);
        proof {
            rank_splits(self@, seq);
        }
        if i < self.entries.len() && self.entries[i].0 == seq {
            self.entries[i] = (seq, value);
        } else {
            self.entries.insert(i, (seq, value));
        }
    }

    /// Takes an entry out.
    pub fn remove(&mut self, seq: u64) -> (value: Option<T>)
        requires
            old(self).wf(),
        ensures
            final(self).wf(),
            final(self)@ == without_seq(old(self)@, seq),
            value is Some == has_seq(old(self)@, seq),
            value matches Some(value) ==> value == old(self)@[rank(old(self)@, seq)].1,
    {
        let i: usize = self.find(seq);
        proof {
            rank_splits(self@, seq);
        }
        if i < self.entries.len() && self.entries[i].0 == seq {
            let (_, value) = self.entries.remove(i);
            Some(value)
        } else {
            None
        }
    }

    /// The entry with the lowest number.
    pub fn first(&self) -> (first: Option<&(u64, T)>)
        ensures
            match first {
                Some(first) => self@.len() > 0 && *first == self@[0],
                None => self@.len() == 0,
            },
    {
        if self.entries.len() == 0 {
            None
        } else {
            Some(&self.entries[0])
        }
    }

    /// Takes out the entry with the lowest number.
    pub fn pop_first(&mut self) -> (first: Option<(u64, T)>)
        requires
            old(self).wf(),
        ensures
            final(self).wf(),
            match first {
                Some(first) => old(self)@.len() > 0 && first == old(self)@[0] && final(self)@
                    == old(self)@.drop_first(),
                None => old(self)@.len() == 0 && final(self)@ == old(self)@,
            },
    {
        if self.entries.len() == 0 {
            return None;
        }
        let first = self.entries.remove(0);
        assert(self.entries@ =~= old(self)@.drop_first());
        Some(first)
    }
}

/// An entry that was added is there, and the others stay.
pub proof fn added_is_there<T>(entries: Seq<(u64, T)>, seq: u64, value: T)
    requires
        ascending(entries),
    ensures
        has_seq(with_seq(entries, seq, value), seq),
        with_seq(entries, seq, value)[rank(with_seq(entries, seq, value), seq)] == (seq, value),
{
    let added = with_seq(entries, seq, value);
    rank_splits(entries, seq);
    let i = rank(entries, seq);
    assert(ascending(added));
    rank_splits(added, seq);
    let j = rank(added, seq);
    assert(added[i] == (seq, value));
    if j > i {
        assert(added[i].0 < seq);
    }
    if j < i {
        assert(added[j].0 < added[i].0);
    }
}

/// A number is there if an entry has it.
pub proof fn has_seq_of_entry<T>(entries: Seq<(u64, T)>, seq: u64)
    requires
        ascending(entries),
    ensures
        has_seq(entries, seq) <==> exists|i: int|
            0 <= i < entries.len() && (#[trigger] entries[i]).0 == seq,
{
    rank_splits(entries, seq);
    if exists|i: int| 0 <= i < entries.len() && (#[trigger] entries[i]).0 == seq {
        let i = choose|i: int| 0 <= i < entries.len() && (#[trigger] entries[i]).0 == seq;
        if rank(entries, seq) < i {
            assert(entries[rank(entries, seq)].0 < entries[i].0);
        }
    }
}

/// Adding an entry, or taking one out, changes nothing of other numbers.
pub proof fn other_numbers_stay<T>(entries: Seq<(u64, T)>, seq: u64, value: T, other: u64)
    requires
        ascending(entries),
    ensures
        ascending(with_seq(entries, seq, value)),
        ascending(without_seq(entries, seq)),
        has_seq(with_seq(entries, seq, value), other) == (has_seq(entries, other) || other == seq),
        has_seq(without_seq(entries, seq), other) == (has_seq(entries, other) && other != seq),
{
    rank_splits(entries, seq);
    let at = rank(entries, seq);
    let added = with_seq(entries, seq, value);
    let taken = without_seq(entries, seq);
    assert(ascending(added));
    assert(ascending(taken));
    has_seq_of_entry(entries, other);
    has_seq_of_entry(entries, seq);
    has_seq_of_entry(added, other);
    has_seq_of_entry(taken, other);
    if has_seq(entries, other) {
        let i = choose|i: int| 0 <= i < entries.len() && (#[trigger] entries[i]).0 == other;
        if has_seq(entries, seq) {
            assert(added[i].0 == other);
            if other != seq {
                assert(taken[if i < at { i } else { i - 1 }].0 == other);
            }
        } else {
            assert(added[if i < at { i } else { i + 1 }].0 == other);
        }
    }
    if other == seq {
        assert(added[at].0 == other);
    }
    if has_seq(added, other) && other != seq {
        let i = choose|i: int| 0 <= i < added.len() && (#[trigger] added[i]).0 == other;
        if has_seq(entries, seq) {
            assert(entries[i].0 == other);
        } else {
            assert(entries[if i < at { i } else { i - 1 }].0 == other);
        }
    }
    if has_seq(taken, other) {
        let i = choose|i: int| 0 <= i < taken.len() && (#[trigger] taken[i]).0 == other;
        if has_seq(entries, seq) {
            let j = if i < at { i } else { i + 1 };
            assert(entries[j].0 == other);
            assert(j != at);
            if other == seq {
                assert(entries[at].0 == seq);
                if j < at {
                    assert(entries[j].0 < entries[at].0);
                } else {
                    assert(entries[at].0 < entries[j].0);
                }
            }
        }
    }
}

/// What is kept under a number.
pub open spec fn value_at<T>(entries: Seq<(u64, T)>, seq: u64) -> Option<T> {
    if has_seq(entries, seq) {
        Some(entries[rank(entries, seq)].1)
    } else {
        None
    }
}

proof fn lemma_value_at<T>(entries: Seq<(u64, T)>, i: int)
    requires
        ascending(entries),
        0 <= i < entries.len(),
    ensures
        value_at(entries, entries[i].0) == Some(entries[i].1),
{
    let seq = entries[i].0;
    rank_splits(entries, seq);
    has_seq_of_entry(entries, seq);
    let j = rank(entries, seq);
    if j < i {
        assert(entries[j].0 < entries[i].0);
    }
    if i < j {
        assert(entries[i].0 < seq);
    }
}

/// Entries are a map from numbers to values: one that is added is found under its
/// number, one that is taken out is not found any more, and all other numbers
/// keep their values.
pub proof fn entries_are_a_map<T>(entries: Seq<(u64, T)>, seq: u64, value: T, other: u64)
    requires
        ascending(entries),
    ensures
        value_at(with_seq(entries, seq, value), other) == if other == seq {
            Some(value)
        } else {
            value_at(entries, other)
        },
        value_at(without_seq(entries, seq), other) == if other == seq {
            None
        } else {
            value_at(entries, other)
        },
{
    other_numbers_stay(entries, seq, value, other);
    added_is_there(entries, seq, value);
    rank_splits(entries, seq);
    rank_splits(entries, other);
    let at = rank(entries, seq);
    let added = with_seq(entries, seq, value);
    let taken = without_seq(entries, seq);
    if other != seq && has_seq(entries, other) {
        let i = rank(entries, other);
        if has_seq(entries, seq) {
            assert(i != at);
            assert(added[i] == entries[i]);
            lemma_value_at(added, i);
            let j = if i < at {
                i
            } else {
                i - 1
            };
            assert(taken[j] == entries[i]);
            lemma_value_at(taken, j);
        } else {
            let j = if i < at {
                i
            } else {
                i + 1
            };
            assert(added[j] == entries[i]);
            lemma_value_at(added, j);
        }
    }
}

} // verus!
