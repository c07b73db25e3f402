//! A frequency table: each hand category seen so far, with a positive count.

use vstd::prelude::*;
use vstd::multiset::Multiset;
use crate::cards::Hand;

verus! {

/// `n` copies of `h`, as a multiset.
spec fn copies(h: Hand, n: nat) -> Multiset<Hand>
    decreases n,
{
    if n == 0 {
        Multiset::empty()
    } else {
        copies(h, (n - 1) as nat).insert(h)
    }
}

/// The multiset an entry list stands for: each listed hand with its count's
/// multiplicity.
spec fn entries_multiset(entries: Seq<(Hand, u64)>) -> Multiset<Hand>
    decreases entries.len(),
{
    if entries.len() == 0 {
        Multiset::empty()
    } else {
        entries_multiset(entries.drop_last()).add(
            copies(entries.last().0, entries.last().1 as nat),
        )
    }
}

/// The sum of all counts in an entry list.
spec fn sum_counts(entries: Seq<(Hand, u64)>) -> nat
    decreases entries.len(),
{
    if entries.len() == 0 {
        0
    } else {
        (sum_counts(entries.drop_last()) + entries.last().1) as nat
    }
}

spec fn entries_wf(entries: Seq<(Hand, u64)>) -> bool {
    &&& forall|i: int, j: int|
        0 <= i < j < entries.len() ==> (#[trigger] entries[i]).0 != (#[trigger] entries[j]).0
    &&& forall|i: int| 0 <= i < entries.len() ==> (#[trigger] entries[i]).1 >= 1
    &&& sum_counts(entries) <= u64::MAX
}

proof fn lemma_copies_count(h: Hand, n: nat, other: Hand)
    ensures
        copies(h, n).count(h) == n,
        other != h ==> copies(h, n).count(other) == 0,
        copies(h, n).len() == n,
    decreases n,
{
    if n > 0 {
        lemma_copies_count(h, (n - 1) as nat, other);
    }
}

proof fn lemma_multiset_len_is_sum(entries: Seq<(Hand, u64)>)
    ensures
        entries_multiset(entries).len() == sum_counts(entries),
    decreases entries.len(),
{
    if entries.len() > 0 {
        lemma_multiset_len_is_sum(entries.drop_last());
        lemma_copies_count(entries.last().0, entries.last().1 as nat, entries.last().0);
    }
}

proof fn lemma_count_absent(entries: Seq<(Hand, u64)>, h: Hand)
    requires
        forall|i: int| 0 <= i < entries.len() ==> (#[trigger] entries[i]).0 != h,
    ensures
        entries_multiset(entries).count(h) == 0,
    decreases entries.len(),
{
    if entries.len() > 0 {
        lemma_count_absent(entries.drop_last(), h);
        lemma_copies_count(entries.last().0, entries.last().1 as nat, h);
    }
}

proof fn lemma_count_present(entries: Seq<(Hand, u64)>, i: int)
    requires
        entries_wf(entries),
        0 <= i < entries.len(),
    ensures
        entries_multiset(entries).count(entries[i].0) == entries[i].1,
    decreases entries.len(),
{
    let h = entries[i].0;
    if i == entries.len() - 1 {
        assert forall|j: int| 0 <= j < entries.drop_last().len() implies (#[trigger] entries.drop_last()[j]).0
            != h by {
            assert(entries[j] == entries.drop_last()[j]);
        }
        lemma_count_absent(entries.drop_last(), h);
        lemma_copies_count(h, entries.last().1 as nat, h);
    } else {
        assert(entries_wf(entries.drop_last())) by {
            assert(sum_counts(entries) == sum_counts(entries.drop_last()) + entries.last().1);
        }
        lemma_count_present(entries.drop_last(), i);
        lemma_copies_count(entries.last().0, entries.last().1 as nat, h);
    }
}

/// The table of how often each hand category was seen. Its view is the
/// multiset of recorded hands; a hand's count is its multiplicity there.
pub struct FrequencyTable {
    entries: Vec<(Hand, u64)>,
}

impl View for FrequencyTable {
    type V = Multiset<Hand>;

    closed spec fn view(&self) -> Multiset<Hand> {
        entries_multiset(self.entries@)
    }
}

impl FrequencyTable {
    #[verifier::type_invariant]
    spec fn wf(self) -> bool {
        entries_wf(self.entries@)
    }

    /// An empty table.
    pub fn new() -> (t: FrequencyTable)
        ensures
            t@ == Multiset::<Hand>::empty(),
    {
        FrequencyTable { entries: Vec::new() }
    }

    /// Records one more occurrence of `h`.
    pub fn increment(&mut self, h: Hand)
        requires
            old(self)@.len() < u64::MAX,
        ensures
            final(self)@ == old(self)@.insert(h),
    {
        proof {
            use_type_invariant(&*self);
            lemma_multiset_len_is_sum(self.entries@);
        }
        let mut entries: Vec<(Hand, u64)> = Vec::new();
        std::mem::swap(&mut entries, &mut self.entries);
        let ghost before = entries@;
        let n = entries.len();
        let mut i: usize = 0;
        while i < n
            invariant
                n == entries@.len(),
                entries@ == before,
                entries_wf(before),
                sum_counts(before) < u64::MAX,
                entries_multiset(before) == old(self)@,
                forall|j: int| 0 <= j < i ==> (#[trigger] before[j]).0 != h,
            decreases n - i,
        {
            if entries[i].0 == h {
                let c = entries[i].1;
                proof {
                    lemma_count_present(before, i as int);
                    assert(c <= sum_counts(before)) by {
                        lemma_sum_counts_bound(before, i as int);
                    }
                }
                entries.set(i, (h, c + 1));
                proof {
                    lemma_increment_entry(before, i as int, h, c);
                    assert(entries_wf(entries@)) by {
                        lemma_sum_counts_update(before, i as int, h, c);
                        assert forall|a: int, b: int|
                            0 <= a < b < entries@.len() implies (#[trigger] entries@[a]).0
                            != (#[trigger] entries@[b]).0 by {
                            assert(before[a].0 == entries@[a].0 && before[b].0 == entries@[b].0);
                        }
                    }
                }
                self.entries = entries;
                return;
            }
            i += 1;
        }
        entries.push((h, 1));
        proof {
            lemma_append_entry(before, h);
            lemma_count_absent(before, h);
            assert(entries_wf(entries@)) by {
                lemma_multiset_len_is_sum(before);
                assert(entries@.drop_last() =~= before);
                assert(sum_counts(entries@) == sum_counts(before) + 1);
                assert forall|a: int, b: int|
                    0 <= a < b < entries@.len() implies (#[trigger] entries@[a]).0
                    != (#[trigger] entries@[b]).0 by {
                    if b < entries@.len() - 1 {
                        assert(before[a].0 == entries@[a].0 && before[b].0 == entries@[b].0);
                    } else {
                        assert(entries@[a] == before[a]);
                    }
                }
            }
        }
        self.entries = entries;
    }

    /// How often `h` was recorded; zero when it never was.
    pub fn count_of(&self, h: Hand) -> (n: u64)
        ensures
            n == self@.count(h),
    {
        proof {
            use_type_invariant(self);
        }
        let n = self.entries.len();
        let mut i: usize = 0;
        while i < n
            invariant
                n == self.entries@.len(),
                entries_wf(self.entries@),
                self@ == entries_multiset(self.entries@),
                forall|j: int| 0 <= j < i ==> (#[trigger] self.entries@[j]).0 != h,
            decreases n - i,
        {
            if self.entries[i].0 == h {
                proof {
                    lemma_count_present(self.entries@, i as int);
                }
                return self.entries[i].1;
            }
            i += 1;
        }
        proof {
            lemma_count_absent(self.entries@, h);
        }
        0
    }

    /// The sum of all counts: how many hands were recorded in all.
    pub fn total(&self) -> (n: u64)
        ensures
            n == self@.len(),
    {
        proof {
            use_type_invariant(self);
            lemma_multiset_len_is_sum(self.entries@);
        }
        let n = self.entries.len();
        let mut acc: u64 = 0;
        let mut i: usize = 0;
        while i < n
            invariant
                n == self.entries@.len(),
                entries_wf(self.entries@),
                i <= n,
                acc == sum_counts(self.entries@.subrange(0, i as int)),
            decreases n - i,
        {
            proof {
                lemma_sum_counts_prefix(self.entries@, i + 1);
                assert(self.entries@.subrange(0, i + 1).drop_last() =~= self.entries@.subrange(
                    0,
                    i as int,
                ));
                assert(sum_counts(self.entries@.subrange(0, i + 1)) == acc + self.entries@[i as int].1);
            }
            acc = acc + self.entries[i].1;
            i += 1;
        }
        proof {
            assert(self.entries@.subrange(0, n as int) =~= self.entries@);
        }
        acc
    }

    /// The recorded categories with their counts, one entry per category.
    pub fn entries(&self) -> (r: Vec<(Hand, u64)>)
        ensures
            forall|i: int, j: int| 0 <= i < j < r@.len() ==> (#[trigger] r@[i]).0 != (#[trigger] r@[j]).0,
            forall|i: int| 0 <= i < r@.len() ==> (#[trigger] r@[i]).1 == self@.count(r@[i].0),
            forall|h: Hand| self@.count(h) > 0 ==> exists|i: int| 0 <= i < r@.len() && (#[trigger] r@[i]).0 == h,
    {
        proof {
            use_type_invariant(self);
        }
        let n = self.entries.len();
        let mut r: Vec<(Hand, u64)> = Vec::new();
        let mut i: usize = 0;
        while i < n
            invariant
                n == self.entries@.len(),
                entries_wf(self.entries@),
                i <= n,
                r@ =~= self.entries@.subrange(0, i as int),
            decreases n - i,
        {
            r.push(self.entries[i]);
            i += 1;
        }
        proof {
            assert(r@ =~= self.entries@);
            assert forall|i: int| 0 <= i < r@.len() implies (#[trigger] r@[i]).1 == self@.count(
                r@[i].0,
            ) by {
                lemma_count_present(self.entries@, i);
            }
            assert forall|h: Hand| self@.count(h) > 0 implies exists|i: int|
                0 <= i < r@.len() && (#[trigger] r@[i]).0 == h by {
                if forall|i: int| 0 <= i < r@.len() ==> (#[trigger] r@[i]).0 != h {
                    lemma_count_absent(self.entries@, h);
                }
            }
        }
        r
    }
}

/// A single entry's count never exceeds the sum of all counts.
proof fn lemma_sum_counts_bound(entries: Seq<(Hand, u64)>, i: int)
    requires
        0 <= i < entries.len(),
    ensures
        entries[i].1 <= sum_counts(entries),
    decreases entries.len(),
{
    if i < entries.len() - 1 {
        lemma_sum_counts_bound(entries.drop_last(), i);
    }
}

/// Summing a prefix never exceeds summing the whole list.
proof fn lemma_sum_counts_prefix(entries: Seq<(Hand, u64)>, i: int)
    requires
        0 <= i <= entries.len(),
    ensures
        sum_counts(entries.subrange(0, i)) <= sum_counts(entries),
    decreases entries.len(),
{
    if i == entries.len() {
        assert(entries.subrange(0, i) =~= entries);
    } else {
        lemma_sum_counts_prefix(entries.drop_last(), i);
        assert(entries.drop_last().subrange(0, i) =~= entries.subrange(0, i));
    }
}

/// Raising one entry's count by one raises the sum by one.
proof fn lemma_sum_counts_update(entries: Seq<(Hand, u64)>, i: int, h: Hand, c: u64)
    requires
        0 <= i < entries.len(),
        entries[i] == (h, c),
        c < u64::MAX,
    ensures
        sum_counts(entries.update(i, (h, (c + 1) as u64))) == sum_counts(entries) + 1,
    decreases entries.len(),
{
    let updated = entries.update(i, (h, (c + 1) as u64));
    if i == entries.len() - 1 {
        assert(updated.drop_last() =~= entries.drop_last());
    } else {
        assert(updated.drop_last() =~= entries.drop_last().update(i, (h, (c + 1) as u64)));
        lemma_sum_counts_update(entries.drop_last(), i, h, c);
    }
}

/// Raising one entry's count by one inserts one copy into the multiset.
proof fn lemma_increment_entry(entries: Seq<(Hand, u64)>, i: int, h: Hand, c: u64)
    requires
        0 <= i < entries.len(),
        entries[i] == (h, c),
        c < u64::MAX,
    ensures
        entries_multiset(entries.update(i, (h, (c + 1) as u64))) == entries_multiset(
            entries,
        ).insert(h),
    decreases entries.len(),
{
    let updated = entries.update(i, (h, (c + 1) as u64));
    if i == entries.len() - 1 {
        assert(updated.drop_last() =~= entries.drop_last());
        assert(copies(h, (c + 1) as nat) == copies(h, c as nat).insert(h));
        assert(entries_multiset(updated) =~= entries_multiset(entries).insert(h));
    } else {
        assert(updated.drop_last() =~= entries.drop_last().update(i, (h, (c + 1) as u64)));
        lemma_increment_entry(entries.drop_last(), i, h, c);
        assert(updated.last() == entries.last());
        assert(entries_multiset(updated) =~= entries_multiset(entries).insert(h));
    }
}

/// Appending an entry with count one inserts one copy into the multiset.
proof fn lemma_append_entry(entries: Seq<(Hand, u64)>, h: Hand)
    ensures
        entries_multiset(entries.push((h, 1u64))) == entries_multiset(entries).insert(h),
{
    let pushed = entries.push((h, 1u64));
    assert(pushed.drop_last() =~= entries);
    assert(copies(h, 0) == Multiset::<Hand>::empty());
    assert(copies(h, 1) == Multiset::<Hand>::empty().insert(h));
    assert(entries_multiset(pushed) =~= entries_multiset(entries).insert(h));
}

} // verus!
