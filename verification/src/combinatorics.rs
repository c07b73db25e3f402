//! The k-element combinations of a sequence, their count, and the trusted
//! bridge to itertools, which enumerates them at run time.

use vstd::prelude::*;
use crate::cards::Card;
use itertools::Itertools;

verus! {

/// All k-element subsequences of `s`, ordered lexicographically by the
/// positions they pick: first every combination that keeps `s[0]`, then every
/// combination that skips it.
pub open spec fn choose_seqs<A>(s: Seq<A>, k: nat) -> Seq<Seq<A>>
    decreases s.len(),
{
    if k == 0 {
        seq![Seq::<A>::empty()]
    } else if s.len() < k {
        Seq::<Seq<A>>::empty()
    } else {
        choose_seqs(s.drop_first(), (k - 1) as nat).map_values(|t: Seq<A>| seq![s.first()] + t)
            + choose_seqs(s.drop_first(), k)
    }
}

/// The binomial coefficient: how many k-element subsets an n-element set has.
pub open spec fn binom(n: nat, k: nat) -> nat
    decreases n,
{
    if k == 0 {
        1
    } else if n == 0 {
        0
    } else {
        binom((n - 1) as nat, (k - 1) as nat) + binom((n - 1) as nat, k)
    }
}

/// Choosing more elements than there are yields nothing.
pub proof fn lemma_binom_zero(n: nat, k: nat)
    requires
        n < k,
    ensures
        binom(n, k) == 0,
    decreases n,
{
    if n > 0 {
        lemma_binom_zero((n - 1) as nat, (k - 1) as nat);
        lemma_binom_zero((n - 1) as nat, k);
    }
}

/// Choosing no more elements than there are yields at least one combination.
pub proof fn lemma_binom_pos(n: nat, k: nat)
    requires
        k <= n,
    ensures
        binom(n, k) >= 1,
    decreases n,
{
    if k > 0 {
        lemma_binom_pos((n - 1) as nat, (k - 1) as nat);
    }
}

/// There are exactly `binom(s.len(), k)` k-element combinations of `s`.
pub proof fn lemma_choose_seqs_len<A>(s: Seq<A>, k: nat)
    ensures
        choose_seqs(s, k).len() == binom(s.len(), k),
    decreases s.len(),
{
    if k == 0 {
    } else if s.len() < k {
        lemma_binom_zero(s.len(), k);
    } else {
        lemma_choose_seqs_len(s.drop_first(), (k - 1) as nat);
        lemma_choose_seqs_len(s.drop_first(), k);
    }
}

/// Every combination in `choose_seqs(s, k)` has exactly k elements.
pub proof fn lemma_choose_seqs_elem_len<A>(s: Seq<A>, k: nat, i: int)
    requires
        0 <= i < choose_seqs(s, k).len(),
    ensures
        choose_seqs(s, k)[i].len() == k,
    decreases s.len(),
{
    if k == 0 {
    } else if s.len() < k {
    } else {
        let with_first = choose_seqs(s.drop_first(), (k - 1) as nat).map_values(
            (|t: Seq<A>| seq![s.first()] + t),
        );
        if i < with_first.len() {
            lemma_choose_seqs_elem_len(s.drop_first(), (k - 1) as nat, i);
        } else {
            lemma_choose_seqs_elem_len(s.drop_first(), k, i - with_first.len());
        }
    }
}

/// Choosing as many elements as there are leaves one combination: the whole
/// sequence.
pub proof fn lemma_choose_seqs_all<A>(s: Seq<A>)
    ensures
        choose_seqs(s, s.len()) =~~= seq![s],
    decreases s.len(),
{
    if s.len() > 0 {
        let rest = s.drop_first();
        lemma_choose_seqs_all(rest);
        assert(choose_seqs(rest, s.len()) =~~= Seq::<Seq<A>>::empty()) by {
            lemma_choose_seqs_len(rest, s.len());
            lemma_binom_zero(rest.len(), s.len());
        }
        assert(seq![s.first()] + rest =~= s);
        assert(choose_seqs(rest, (s.len() - 1) as nat).map_values(
            (|t: Seq<A>| seq![s.first()] + t),
        ) =~~= seq![s]);
        assert(choose_seqs(s, s.len()) =~~= seq![s] + Seq::<Seq<A>>::empty());
        assert(seq![s] + Seq::<Seq<A>>::empty() =~~= seq![s]);
    }
}

/// Relies on itertools' `combinations`: it yields every `k`-element
/// combination of the input exactly once, as a `Vec` in input order, ordered
/// lexicographically by the indices picked.
#[verifier::external_body]
pub fn combinations(cards: &Vec<Card>, k: usize) -> (r: Vec<Vec<Card>>)
    ensures
        r@.map_values(|v: Vec<Card>| v@) == choose_seqs(cards@, k as nat),
{
    cards.iter().cloned().combinations(k).collect()
}

} // verus!
