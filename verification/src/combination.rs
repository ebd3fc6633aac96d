//! Hole-card combinations and rank-ordered sorting.
//!
//! A `Combination` couples a hole-card pair with its parsed range weight,
//! its showdown rank on a completed board, and the bookkeeping fields for
//! suit isomorphism: `weight` counts the suit-equivalent hands a canonical
//! representative stands for (0 marks an alias), and `canon_index` holds
//! the pair index of the representative the alias points at.
use vstd::prelude::*;

use crate::cards::Hand;

verus! {

/// One hole-card pair of a range.
///
/// `combos` is the parsed range weight in hundredths, so 100 stands for a
/// full combination and 50 for one taken at half weight.
#[derive(Clone, Copy, Debug)]
pub struct Combination {
    pub hand: Hand,
    pub rank: u32,
    pub combos: u8,
    pub weight: i8,
    pub raw_index: usize,
    pub canon_index: usize,
}

impl Combination {
    /// The hole cards are ordered, on the deck, and indexed consistently,
    /// and the weight is a valid percentage.
    pub open spec fn wf(self) -> bool {
        &&& self.hand[0] < self.hand[1] < 52
        &&& self.raw_index == 52 * self.hand[0] + self.hand[1]
        &&& self.combos <= 100
    }

    /// Builds a combination that is its own canonical representative.
    pub fn new(hand: Hand, rank: u32, combos: u8) -> (c: Combination)
        requires
            hand[0] < hand[1] < 52,
            combos <= 100,
        ensures
            c.wf(),
            c.hand == hand,
            c.rank == rank,
            c.combos == combos,
            c.weight == 1,
            c.raw_index == 52 * hand[0] + hand[1],
            c.canon_index == c.raw_index,
    {
        let raw_index = (hand[0] as usize) * 52 + (hand[1] as usize);
        Combination { hand, rank, combos, weight: 1, raw_index, canon_index: raw_index }
    }

    /// True when the two combinations hold the same hole cards.
    pub fn same_hand(&self, other: &Combination) -> (b: bool)
        ensures
            b == (self.hand[0] == other.hand[0] && self.hand[1] == other.hand[1]),
    {
        self.hand[0] == other.hand[0] && self.hand[1] == other.hand[1]
    }
}

/// The total range weight of the opponent combinations that do not share
/// a card with `h`, in hundredths.
pub open spec fn unblocked_weight(opp: Seq<Combination>, h: Hand) -> int
    decreases opp.len(),
{
    if opp.len() == 0 {
        0int
    } else {
        unblocked_weight(opp.drop_last(), h) + (if crate::cards::hands_overlap(
            opp.last().hand,
            h,
        ) {
            0int
        } else {
            opp.last().combos as int
        })
    }
}

proof fn lemma_unblocked_weight_bound(opp: Seq<Combination>, h: Hand)
    requires
        forall|i: int| 0 <= i < opp.len() ==> (#[trigger] opp[i]).combos <= 100,
    ensures
        0 <= unblocked_weight(opp, h) <= 100 * opp.len(),
    decreases opp.len(),
{
    if opp.len() > 0 {
        lemma_unblocked_weight_bound(opp.drop_last(), h);
    }
}

/// For each hand of `rng`, the total weight of the opponent hands it does
/// not block, in hundredths: the denominator used when a best-response
/// value is normalised per hand.
pub fn unblocked_hands(rng: &Vec<Combination>, opp_range: &Vec<Combination>) -> (counts: Vec<u32>)
    requires
        opp_range@.len() <= 100000,
        forall|i: int| 0 <= i < opp_range@.len() ==> (#[trigger] opp_range@[i]).combos <= 100,
    ensures
        counts@.len() == rng@.len(),
        forall|i: int|
            0 <= i < rng@.len() ==> counts@[i] == unblocked_weight(opp_range@, rng@[i].hand),
{
    let mut counts: Vec<u32> = Vec::new();
    let mut i: usize = 0;
    while i < rng.len()
        invariant
            opp_range@.len() <= 100000,
            forall|k: int| 0 <= k < opp_range@.len() ==> (#[trigger] opp_range@[k]).combos <= 100,
            i <= rng@.len(),
            counts@.len() == i,
            forall|k: int|
                0 <= k < i ==> counts@[k] == unblocked_weight(opp_range@, rng@[k].hand),
        decreases rng@.len() - i,
    {
        let mut total: u32 = 0;
        let mut j: usize = 0;
        while j < opp_range.len()
            invariant
                opp_range@.len() <= 100000,
                forall|k: int|
                    0 <= k < opp_range@.len() ==> (#[trigger] opp_range@[k]).combos <= 100,
                i < rng@.len(),
                j <= opp_range@.len(),
                total == unblocked_weight(opp_range@.take(j as int), rng@[i as int].hand),
            decreases opp_range@.len() - j,
        {
            proof {
                lemma_unblocked_weight_bound(opp_range@.take(j as int), rng@[i as int].hand);
                assert(opp_range@.take(j as int + 1).drop_last() =~= opp_range@.take(j as int));
            }
            if !crate::cards::check_hands_overlap(&opp_range[j].hand, &rng[i].hand) {
                total = total + opp_range[j].combos as u32;
            }
            proof {
                assert(opp_range@.take(j as int + 1).last() == opp_range@[j as int]);
                assert(crate::cards::hands_overlap(opp_range@[j as int].hand, rng@[i as int].hand)
                    == crate::cards::hands_overlap(rng@[i as int].hand, opp_range@[j as int].hand));
            }
            j += 1;
        }
        proof {
            assert(opp_range@.take(opp_range@.len() as int) =~= opp_range@);
        }
        counts.push(total);
        i += 1;
    }
    counts
}

/// Exchanging two positions of a sequence leaves its multiset unchanged.
pub proof fn lemma_swap_multiset<A>(s: Seq<A>, i: int, j: int)
    requires
        0 <= i < s.len(),
        0 <= j < s.len(),
    ensures
        s.update(i, s[j]).update(j, s[i]).to_multiset() =~= s.to_multiset(),
{
    broadcast use vstd::seq_lib::to_multiset_update;
    broadcast use vstd::seq_lib::to_multiset_contains;
    broadcast use vstd::multiset::group_multiset_axioms;
    broadcast use vstd::multiset::group_multiset_properties;

    if i == j {
        assert(s.update(i, s[j]).update(j, s[i]) =~= s);
    } else {
        let s1 = s.update(i, s[j]);
        assert(s1[j] == s[j]);
        assert(s1.to_multiset() == s.to_multiset().insert(s[j]).remove(s[i]));
        assert(s1.update(j, s[i]).to_multiset() == s1.to_multiset().insert(s[i]).remove(s1[j]));
        assert(s.to_multiset().contains(s[i]));
        assert(s.to_multiset().insert(s[j]).remove(s[i]).insert(s[i]).remove(s[j])
            =~= s.to_multiset());
    }
}

/// Sorts combination-index pairs ascending by rank, keeping each pair
/// intact: the order changes, the pairs themselves do not.
pub fn sort_pairs_by_rank(items: &mut Vec<(Combination, usize)>)
    ensures
        final(items)@.len() == old(items)@.len(),
        final(items)@.to_multiset() == old(items)@.to_multiset(),
        forall|a: int, b: int|
            0 <= a < b < final(items)@.len() ==> final(items)@[a].0.rank
                <= final(items)@[b].0.rank,
{
    let n = items.len();
    let mut i: usize = 0;
    while i < n
        invariant
            n == items@.len(),
            i <= n,
            items@.to_multiset() == old(items)@.to_multiset(),
            forall|a: int, b: int| 0 <= a < b < i ==> items@[a].0.rank <= items@[b].0.rank,
            forall|a: int, b: int|
                0 <= a < i <= b < n ==> items@[a].0.rank <= items@[b].0.rank,
        decreases n - i,
    {
        let mut m: usize = i;
        let mut k: usize = i + 1;
        while k < n
            invariant
                n == items@.len(),
                i < n,
                i <= m < k <= n,
                forall|t: int| i <= t < k ==> items@[m as int].0.rank <= items@[t].0.rank,
            decreases n - k,
        {
            if items[k].0.rank < items[m].0.rank {
                m = k;
            }
            k += 1;
        }
        let ghost before = items@;
        let a = items[i];
        let b = items[m];
        items.set(i, b);
        items.set(m, a);
        proof {
            lemma_swap_multiset(before, i as int, m as int);
            assert(items@ =~= before.update(i as int, before[m as int]).update(
                m as int,
                before[i as int],
            ));
        }
        i += 1;
    }
}

} // verus!
