//! Range-string parsing.
//!
//! A range string is a comma-separated list of items.  An item names two
//! ranks ("AK", "77"), optionally a suitedness letter ('s' or 'o'),
//! optionally a trailing '+' extending the item to every stronger holding
//! of the same class, and optionally "@W" with a weight percentage W in
//! 0..=100 (100 when absent, and a weight of 0 omits the item).  The
//! literal "random" denotes every combination at full weight.
//! Unrecognised items denote nothing and are skipped.
use vstd::prelude::*;

use crate::cards::{spec_rank_of_char, rank_of_char};

verus! {

/// One parsed range item: two ranks, which suit classes it covers,
/// whether it extends upwards, and its weight percentage.
#[derive(Clone, Copy, Debug)]
pub struct RangeItem {
    pub r1: u8,
    pub r2: u8,
    pub suited: bool,
    pub offsuit: bool,
    pub plus: bool,
    pub weight: u8,
}

impl RangeItem {
    pub open spec fn wf(self) -> bool {
        self.r1 < 13 && self.r2 < 13 && self.weight <= 100
    }
}

/// The numeric value of a decimal digit character.
pub open spec fn spec_digit_of_char(c: char) -> Option<u8> {
    match c {
        '0' => Some(0u8),
        '1' => Some(1u8),
        '2' => Some(2u8),
        '3' => Some(3u8),
        '4' => Some(4u8),
        '5' => Some(5u8),
        '6' => Some(6u8),
        '7' => Some(7u8),
        '8' => Some(8u8),
        '9' => Some(9u8),
        _ => None,
    }
}

fn digit_of_char(c: char) -> (d: Option<u8>)
    ensures
        d == spec_digit_of_char(c),
{
    match c {
        '0' => Some(0u8),
        '1' => Some(1u8),
        '2' => Some(2u8),
        '3' => Some(3u8),
        '4' => Some(4u8),
        '5' => Some(5u8),
        '6' => Some(6u8),
        '7' => Some(7u8),
        '8' => Some(8u8),
        '9' => Some(9u8),
        _ => None,
    }
}

/// The value of a digit string continued from `acc`, or nothing when a
/// character is not a digit.
pub open spec fn digits_acc(s: Seq<char>, acc: int) -> Option<int>
    decreases s.len(),
{
    if s.len() == 0 {
        Some(acc)
    } else {
        match spec_digit_of_char(s[0]) {
            Some(d) => digits_acc(s.skip(1), acc * 10 + d),
            None => None,
        }
    }
}

/// The value of a non-empty digit string.
pub open spec fn digits_val(s: Seq<char>) -> Option<int> {
    if s.len() == 0 {
        None
    } else {
        digits_acc(s, 0)
    }
}

proof fn lemma_digits_acc_ge(s: Seq<char>, acc: int)
    requires
        acc >= 0,
    ensures
        digits_acc(s, acc) is Some ==> digits_acc(s, acc).unwrap() >= acc,
    decreases s.len(),
{
    if s.len() > 0 {
        match spec_digit_of_char(s[0]) {
            Some(d) => {
                lemma_digits_acc_ge(s.skip(1), acc * 10 + d);
            },
            None => {},
        }
    }
}

/// The decoded form of one range item, or nothing when the text does not
/// fit the grammar.
pub open spec fn spec_parse_item(s: Seq<char>) -> Option<RangeItem> {
    if s.len() < 2 {
        None
    } else {
        match (spec_rank_of_char(s[0]), spec_rank_of_char(s[1])) {
            (Some(r1), Some(r2)) => {
                let p: int = if s.len() > 2 && (s[2] == 's' || s[2] == 'S') {
                    3
                } else if s.len() > 2 && (s[2] == 'o' || s[2] == 'O') {
                    3
                } else {
                    2
                };
                let suited: bool = !(s.len() > 2 && (s[2] == 'o' || s[2] == 'O'));
                let offsuit: bool = !(s.len() > 2 && (s[2] == 's' || s[2] == 'S'));
                let plus: bool = s.len() > p && s[p] == '+';
                let q: int = if plus {
                    p + 1
                } else {
                    p
                };
                if q == s.len() {
                    Some(RangeItem { r1, r2, suited, offsuit, plus, weight: 100 })
                } else if s[q] == '@' {
                    match digits_val(s.skip(q + 1)) {
                        Some(w) => if 0 <= w <= 100 {
                            Some(RangeItem { r1, r2, suited, offsuit, plus, weight: w as u8 })
                        } else {
                            None
                        },
                        None => None,
                    }
                } else {
                    None
                }
            },
            _ => None,
        }
    }
}

/// Parses one range item such as "AKs", "77+", or "Q8o@50".
#[verifier::loop_isolation(false)]
pub fn parse_item(s: &str) -> (out: Option<RangeItem>)
    ensures
        out == spec_parse_item(s@),
        out is Some ==> out.unwrap().wf(),
{
    let n = s.unicode_len();
    if n < 2 {
        return None;
    }
    let o1 = rank_of_char(s.get_char(0));
    let o2 = rank_of_char(s.get_char(1));
    let (r1, r2) = match (o1, o2) {
        (Some(r1), Some(r2)) => (r1, r2),
        _ => {
            return None;
        },
    };
    let c2 = if n > 2 {
        Some(s.get_char(2))
    } else {
        None
    };
    let mut suited = true;
    let mut offsuit = true;
    let mut p: usize = 2;
    match c2 {
        Some(c) => {
            if c == 's' || c == 'S' {
                offsuit = false;
                p = 3;
            } else if c == 'o' || c == 'O' {
                suited = false;
                p = 3;
            }
        },
        None => {},
    }
    let plus = p < n && s.get_char(p) == '+';
    let q = if plus {
        p + 1
    } else {
        p
    };
    if q == n {
        return Some(RangeItem { r1, r2, suited, offsuit, plus, weight: 100 });
    }
    if s.get_char(q) != '@' {
        return None;
    }
    // Parse the digits after '@'.
    let mut acc: u32 = 0;
    let mut pos: usize = q + 1;
    if pos == n {
        proof {
            assert(s@.skip(q + 1).len() == 0);
        }
        return None;
    }
    while pos < n
        invariant
            q + 1 <= pos <= n,
            n == s@.len(),
            0 <= acc <= 100,
            digits_val(s@.skip(q as int + 1)) == digits_acc(s@.skip(pos as int), acc as int),
        decreases n - pos,
    {
        let ghost rest = s@.skip(pos as int);
        let c = s.get_char(pos);
        proof {
            assert(rest[0] == s@[pos as int]);
            assert(rest.skip(1) =~= s@.skip(pos as int + 1));
        }
        match digit_of_char(c) {
            Some(d) => {
                let next = acc * 10 + d as u32;
                proof {
                    assert(spec_digit_of_char(rest[0]) == Some(d));
                    assert(digits_acc(rest, acc as int) == digits_acc(
                        s@.skip(pos as int + 1),
                        next as int,
                    ));
                }
                if next > 100 {
                    proof {
                        lemma_digits_acc_ge(s@.skip(pos as int + 1), next as int);
                        assert(match digits_val(s@.skip(q as int + 1)) {
                            Some(w) => w > 100,
                            None => true,
                        });
                    }
                    return None;
                }
                acc = next;
            },
            None => {
                proof {
                    assert(spec_digit_of_char(rest[0]) is None);
                    assert(digits_acc(rest, acc as int) is None);
                }
                return None;
            },
        }
        pos += 1;
    }
    proof {
        assert(s@.skip(n as int).len() == 0);
    }
    Some(RangeItem { r1, r2, suited, offsuit, plus, weight: acc as u8 })
}

} // verus!

verus! {

/// A card pair with a weight, the two cards in ascending order.
pub open spec fn ordered_pair(a: u8, b: u8, w: u8) -> (u8, u8, u8) {
    if a < b {
        (a, b, w)
    } else {
        (b, a, w)
    }
}

/// The six combinations of a pocket pair.
pub open spec fn pair_combos(r: u8, w: u8) -> Seq<(u8, u8, u8)> {
    seq![
        ((4 * r) as u8, (4 * r + 1) as u8, w),
        ((4 * r) as u8, (4 * r + 2) as u8, w),
        ((4 * r) as u8, (4 * r + 3) as u8, w),
        ((4 * r + 1) as u8, (4 * r + 2) as u8, w),
        ((4 * r + 1) as u8, (4 * r + 3) as u8, w),
        ((4 * r + 2) as u8, (4 * r + 3) as u8, w),
    ]
}

/// The four suited combinations of two ranks.
pub open spec fn suited_combos(r1: u8, r2: u8, w: u8) -> Seq<(u8, u8, u8)> {
    seq![
        ordered_pair((4 * r1) as u8, (4 * r2) as u8, w),
        ordered_pair((4 * r1 + 1) as u8, (4 * r2 + 1) as u8, w),
        ordered_pair((4 * r1 + 2) as u8, (4 * r2 + 2) as u8, w),
        ordered_pair((4 * r1 + 3) as u8, (4 * r2 + 3) as u8, w),
    ]
}

/// The twelve offsuit combinations of two ranks.
pub open spec fn offsuit_combos(r1: u8, r2: u8, w: u8) -> Seq<(u8, u8, u8)> {
    seq![
        ordered_pair((4 * r1) as u8, (4 * r2 + 1) as u8, w),
        ordered_pair((4 * r1) as u8, (4 * r2 + 2) as u8, w),
        ordered_pair((4 * r1) as u8, (4 * r2 + 3) as u8, w),
        ordered_pair((4 * r1 + 1) as u8, (4 * r2) as u8, w),
        ordered_pair((4 * r1 + 1) as u8, (4 * r2 + 2) as u8, w),
        ordered_pair((4 * r1 + 1) as u8, (4 * r2 + 3) as u8, w),
        ordered_pair((4 * r1 + 2) as u8, (4 * r2) as u8, w),
        ordered_pair((4 * r1 + 2) as u8, (4 * r2 + 1) as u8, w),
        ordered_pair((4 * r1 + 2) as u8, (4 * r2 + 3) as u8, w),
        ordered_pair((4 * r1 + 3) as u8, (4 * r2) as u8, w),
        ordered_pair((4 * r1 + 3) as u8, (4 * r2 + 1) as u8, w),
        ordered_pair((4 * r1 + 3) as u8, (4 * r2 + 2) as u8, w),
    ]
}

/// The combinations of one unpaired rank pair in the requested suit
/// classes.
pub open spec fn nonpair_one(r1: u8, r2: u8, suited: bool, offsuit: bool, w: u8) -> Seq<
    (u8, u8, u8),
> {
    (if suited {
        suited_combos(r1, r2, w)
    } else {
        Seq::empty()
    }) + (if offsuit {
        offsuit_combos(r1, r2, w)
    } else {
        Seq::empty()
    })
}

/// The combinations of an unpaired item extended upwards: the high rank
/// is fixed and the low rank runs from `rl` up to just below `r1`.
pub open spec fn nonpair_plus(r1: u8, rl: u8, suited: bool, offsuit: bool, w: u8) -> Seq<
    (u8, u8, u8),
>
    decreases r1 - rl,
{
    if rl >= r1 {
        Seq::empty()
    } else {
        nonpair_one(r1, rl, suited, offsuit, w) + nonpair_plus(
            r1,
            (rl + 1) as u8,
            suited,
            offsuit,
            w,
        )
    }
}

/// The pair combinations of every rank from `r` upwards.
pub open spec fn pairs_from(r: u8, w: u8) -> Seq<(u8, u8, u8)>
    decreases 13 - r,
{
    if r >= 13 {
        Seq::empty()
    } else {
        pair_combos(r, w) + pairs_from((r + 1) as u8, w)
    }
}

/// Every combination an item denotes, in emission order.  An item of
/// weight 0 denotes nothing; a paired item covers no suited class.
pub open spec fn item_combos(it: RangeItem) -> Seq<(u8, u8, u8)> {
    if it.weight == 0 {
        Seq::empty()
    } else if it.r1 == it.r2 {
        if !it.offsuit {
            Seq::empty()
        } else if it.plus {
            pairs_from(it.r1, it.weight)
        } else {
            pair_combos(it.r1, it.weight)
        }
    } else if it.plus {
        nonpair_plus(it.r1, it.r2, it.suited, it.offsuit, it.weight)
    } else {
        nonpair_one(it.r1, it.r2, it.suited, it.offsuit, it.weight)
    }
}

/// Every denoted combination is an ordered pair of deck cards carrying
/// the item's nonzero weight.
pub open spec fn combo_entry_wf(e: (u8, u8, u8)) -> bool {
    e.0 < e.1 < 52 && 0 < e.2 <= 100
}

proof fn lemma_pair_combos_wf(r: u8, w: u8)
    requires
        r < 13,
        0 < w <= 100,
    ensures
        forall|i: int|
            0 <= i < pair_combos(r, w).len() ==> combo_entry_wf(#[trigger] pair_combos(r, w)[i]),
{
}

proof fn lemma_nonpair_one_wf(r1: u8, r2: u8, suited: bool, offsuit: bool, w: u8)
    requires
        r1 < 13,
        r2 < 13,
        r1 != r2,
        0 < w <= 100,
    ensures
        forall|i: int|
            0 <= i < nonpair_one(r1, r2, suited, offsuit, w).len() ==> combo_entry_wf(
                #[trigger] nonpair_one(r1, r2, suited, offsuit, w)[i],
            ),
{
}

proof fn lemma_nonpair_plus_wf(r1: u8, rl: u8, suited: bool, offsuit: bool, w: u8)
    requires
        r1 < 13,
        0 < w <= 100,
    ensures
        forall|i: int|
            0 <= i < nonpair_plus(r1, rl, suited, offsuit, w).len() ==> combo_entry_wf(
                #[trigger] nonpair_plus(r1, rl, suited, offsuit, w)[i],
            ),
    decreases r1 - rl,
{
    if rl < r1 {
        lemma_nonpair_one_wf(r1, rl, suited, offsuit, w);
        lemma_nonpair_plus_wf(r1, (rl + 1) as u8, suited, offsuit, w);
        let one = nonpair_one(r1, rl, suited, offsuit, w);
        let rest = nonpair_plus(r1, (rl + 1) as u8, suited, offsuit, w);
        assert forall|i: int|
            0 <= i < nonpair_plus(r1, rl, suited, offsuit, w).len() implies combo_entry_wf(
            nonpair_plus(r1, rl, suited, offsuit, w)[i],
        ) by {
            if i < one.len() {
                assert((one + rest)[i] == one[i]);
            } else {
                assert((one + rest)[i] == rest[i - one.len()]);
            }
        }
    }
}

proof fn lemma_pairs_from_wf(r: u8, w: u8)
    requires
        0 < w <= 100,
    ensures
        forall|i: int|
            0 <= i < pairs_from(r, w).len() ==> combo_entry_wf(#[trigger] pairs_from(r, w)[i]),
    decreases 13 - r,
{
    if r < 13 {
        lemma_pair_combos_wf(r, w);
        lemma_pairs_from_wf((r + 1) as u8, w);
        let one = pair_combos(r, w);
        let rest = pairs_from((r + 1) as u8, w);
        assert forall|i: int|
            0 <= i < pairs_from(r, w).len() implies combo_entry_wf(pairs_from(r, w)[i]) by {
            if i < one.len() {
                assert((one + rest)[i] == one[i]);
            } else {
                assert((one + rest)[i] == rest[i - one.len()]);
            }
        }
    }
}

/// Every combination an item denotes is well formed and carries the
/// item's weight.
pub proof fn lemma_item_combos_wf(it: RangeItem)
    requires
        it.wf(),
    ensures
        forall|i: int|
            0 <= i < item_combos(it).len() ==> combo_entry_wf(#[trigger] item_combos(it)[i]),
{
    if it.weight > 0 {
        if it.r1 == it.r2 {
            if it.offsuit {
                if it.plus {
                    lemma_pairs_from_wf(it.r1, it.weight);
                } else {
                    lemma_pair_combos_wf(it.r1, it.weight);
                }
            }
        } else if it.plus {
            lemma_nonpair_plus_wf(it.r1, it.r2, it.suited, it.offsuit, it.weight);
        } else {
            lemma_nonpair_one_wf(it.r1, it.r2, it.suited, it.offsuit, it.weight);
        }
    }
}

fn push_ordered(out: &mut Vec<(u8, u8, u8)>, a: u8, b: u8, w: u8)
    ensures
        final(out)@ =~= old(out)@.push(ordered_pair(a, b, w)),
{
    if a < b {
        out.push((a, b, w));
    } else {
        out.push((b, a, w));
    }
}

fn push_pair_combos(out: &mut Vec<(u8, u8, u8)>, r: u8, w: u8)
    requires
        r < 13,
    ensures
        final(out)@ =~= old(out)@ + pair_combos(r, w),
{
    let c0 = 4 * r;
    out.push((c0, c0 + 1, w));
    out.push((c0, c0 + 2, w));
    out.push((c0, c0 + 3, w));
    out.push((c0 + 1, c0 + 2, w));
    out.push((c0 + 1, c0 + 3, w));
    out.push((c0 + 2, c0 + 3, w));
    proof {
        assert(out@ =~= old(out)@ + pair_combos(r, w));
    }
}

fn push_nonpair_one(out: &mut Vec<(u8, u8, u8)>, r1: u8, r2: u8, suited: bool, offsuit: bool, w: u8)
    requires
        r1 < 13,
        r2 < 13,
    ensures
        final(out)@ =~= old(out)@ + nonpair_one(r1, r2, suited, offsuit, w),
{
    if suited {
        push_ordered(out, 4 * r1, 4 * r2, w);
        push_ordered(out, 4 * r1 + 1, 4 * r2 + 1, w);
        push_ordered(out, 4 * r1 + 2, 4 * r2 + 2, w);
        push_ordered(out, 4 * r1 + 3, 4 * r2 + 3, w);
        proof {
            assert(out@ =~= old(out)@ + suited_combos(r1, r2, w));
        }
    }
    if offsuit {
        let ghost mid = out@;
        push_ordered(out, 4 * r1, 4 * r2 + 1, w);
        push_ordered(out, 4 * r1, 4 * r2 + 2, w);
        push_ordered(out, 4 * r1, 4 * r2 + 3, w);
        push_ordered(out, 4 * r1 + 1, 4 * r2, w);
        push_ordered(out, 4 * r1 + 1, 4 * r2 + 2, w);
        push_ordered(out, 4 * r1 + 1, 4 * r2 + 3, w);
        push_ordered(out, 4 * r1 + 2, 4 * r2, w);
        push_ordered(out, 4 * r1 + 2, 4 * r2 + 1, w);
        push_ordered(out, 4 * r1 + 2, 4 * r2 + 3, w);
        push_ordered(out, 4 * r1 + 3, 4 * r2, w);
        push_ordered(out, 4 * r1 + 3, 4 * r2 + 1, w);
        push_ordered(out, 4 * r1 + 3, 4 * r2 + 2, w);
        proof {
            assert(out@ =~= mid + offsuit_combos(r1, r2, w));
        }
    }
    proof {
        assert(out@ =~= old(out)@ + nonpair_one(r1, r2, suited, offsuit, w));
    }
}

/// Appends every combination an item denotes.
pub fn push_item_combos(out: &mut Vec<(u8, u8, u8)>, it: RangeItem)
    requires
        it.wf(),
    ensures
        final(out)@ =~= old(out)@ + item_combos(it),
{
    if it.weight == 0 {
        proof {
            assert(out@ =~= old(out)@ + item_combos(it));
        }
        return ;
    }
    if it.r1 == it.r2 {
        if !it.offsuit {
            proof {
                assert(out@ =~= old(out)@ + item_combos(it));
            }
        } else if it.plus {
            let mut r = it.r1;
            while r < 13
                invariant
                    it.wf(),
                    it.r1 <= r <= 13,
                    old(out)@ + pairs_from(it.r1, it.weight) =~= out@ + pairs_from(r, it.weight),
                decreases 13 - r,
            {
                let ghost before = out@;
                push_pair_combos(out, r, it.weight);
                proof {
                    assert(pairs_from(r, it.weight) =~= pair_combos(r, it.weight) + pairs_from(
                        (r + 1) as u8,
                        it.weight,
                    ));
                    assert((before + pair_combos(r, it.weight)) + pairs_from((r + 1) as u8, it.weight)
                        =~= before + (pair_combos(r, it.weight) + pairs_from(
                        (r + 1) as u8,
                        it.weight,
                    )));
                }
                r += 1;
            }
            proof {
                assert(out@ =~= old(out)@ + pairs_from(it.r1, it.weight));
            }
        } else {
            push_pair_combos(out, it.r1, it.weight);
        }
    } else if it.plus {
        let mut rl = it.r2;
        while rl < it.r1
            invariant
                it.wf(),
                old(out)@ + nonpair_plus(it.r1, it.r2, it.suited, it.offsuit, it.weight) =~= out@
                    + nonpair_plus(it.r1, rl, it.suited, it.offsuit, it.weight),
            decreases it.r1 - rl,
        {
            let ghost before = out@;
            push_nonpair_one(out, it.r1, rl, it.suited, it.offsuit, it.weight);
            proof {
                let one = nonpair_one(it.r1, rl, it.suited, it.offsuit, it.weight);
                let rest = nonpair_plus(it.r1, (rl + 1) as u8, it.suited, it.offsuit, it.weight);
                assert(nonpair_plus(it.r1, rl, it.suited, it.offsuit, it.weight) =~= one + rest);
                assert((before + one) + rest =~= before + (one + rest));
            }
            rl += 1;
        }
        proof {
            assert(out@ =~= old(out)@ + nonpair_plus(
                it.r1,
                it.r2,
                it.suited,
                it.offsuit,
                it.weight,
            ));
        }
    } else {
        push_nonpair_one(out, it.r1, it.r2, it.suited, it.offsuit, it.weight);
    }
}

} // verus!

verus! {

/// The combinations one comma-separated segment denotes: those of its
/// item when it parses, none otherwise.
pub open spec fn seg_combos(seg: Seq<char>) -> Seq<(u8, u8, u8)> {
    match spec_parse_item(seg) {
        Some(it) => item_combos(it),
        None => Seq::empty(),
    }
}

/// The combinations denoted by the remaining text `s`, with `seg` the
/// part of the current segment already read.
pub open spec fn list_combos_acc(s: Seq<char>, seg: Seq<char>) -> Seq<(u8, u8, u8)>
    decreases s.len(),
{
    if s.len() == 0 {
        seg_combos(seg)
    } else if s[0] == ',' {
        seg_combos(seg) + list_combos_acc(s.skip(1), Seq::empty())
    } else {
        list_combos_acc(s.skip(1), seg.push(s[0]))
    }
}

/// Every combination a range string denotes, across all its items.
pub open spec fn list_combos(s: Seq<char>) -> Seq<(u8, u8, u8)> {
    list_combos_acc(s, Seq::empty())
}

/// Whether the range string covers the hand `(lo, hi)` at any weight.
pub open spec fn denotes(s: Seq<char>, lo: u8, hi: u8) -> bool {
    exists|w: u8| list_combos(s).contains((lo, hi, w))
}

/// Whether a range sequence holds the hand `(lo, hi)`.
pub open spec fn range_has_hand(r: Seq<crate::combination::Combination>, lo: u8, hi: u8) -> bool {
    exists|i: int| 0 <= i < r.len() && r[i].hand[0] == lo && r[i].hand[1] == hi
}

/// A parsed item always carries ranks on the deck and a valid weight.
proof fn lemma_spec_parse_item_wf(seg: Seq<char>)
    ensures
        spec_parse_item(seg) is Some ==> spec_parse_item(seg).unwrap().wf(),
{
    if seg.len() >= 2 {
        match (spec_rank_of_char(seg[0]), spec_rank_of_char(seg[1])) {
            (Some(r1), Some(r2)) => {
                assert(r1 < 13 && r2 < 13);
            },
            _ => {},
        }
    }
}

/// Every combination a range string denotes is well formed.
pub proof fn lemma_list_combos_wf(s: Seq<char>, seg: Seq<char>)
    ensures
        forall|i: int|
            0 <= i < list_combos_acc(s, seg).len() ==> combo_entry_wf(
                #[trigger] list_combos_acc(s, seg)[i],
            ),
    decreases s.len(),
{
    lemma_spec_parse_item_wf(seg);
    if spec_parse_item(seg) is Some {
        lemma_item_combos_wf(spec_parse_item(seg).unwrap());
    }
    if s.len() == 0 {
        assert forall|i: int|
            0 <= i < list_combos_acc(s, seg).len() implies combo_entry_wf(
            list_combos_acc(s, seg)[i],
        ) by {
            assert(list_combos_acc(s, seg) == seg_combos(seg));
            if spec_parse_item(seg) is Some {
                assert(combo_entry_wf(item_combos(spec_parse_item(seg).unwrap())[i]));
            }
        }
    } else if s[0] == ',' {
        lemma_list_combos_wf(s.skip(1), Seq::empty());
        let a = seg_combos(seg);
        let b = list_combos_acc(s.skip(1), Seq::empty());
        assert forall|i: int|
            0 <= i < list_combos_acc(s, seg).len() implies combo_entry_wf(
            list_combos_acc(s, seg)[i],
        ) by {
            if i < a.len() {
                assert((a + b)[i] == a[i]);
            } else {
                assert((a + b)[i] == b[i - a.len()]);
            }
        }
    } else {
        lemma_list_combos_wf(s.skip(1), seg.push(s[0]));
        assert forall|i: int|
            0 <= i < list_combos_acc(s, seg).len() implies combo_entry_wf(
            list_combos_acc(s, seg)[i],
        ) by {
            assert(list_combos_acc(s, seg) == list_combos_acc(s.skip(1), seg.push(s[0])));
            assert(combo_entry_wf(list_combos_acc(s.skip(1), seg.push(s[0]))[i]));
        }
    }
}

/// Collects every combination a range string denotes, item by item.
#[verifier::loop_isolation(false)]
pub fn collect_range_combos(s: &str) -> (out: Vec<(u8, u8, u8)>)
    ensures
        out@ =~= list_combos(s@),
        forall|i: int| 0 <= i < out@.len() ==> combo_entry_wf(#[trigger] out@[i]),
{
    let n = s.unicode_len();
    let mut out: Vec<(u8, u8, u8)> = Vec::new();
    let mut seg_start: usize = 0;
    let mut pos: usize = 0;
    proof {
        assert(s@.skip(0) =~= s@);
        assert(s@.subrange(0, 0) =~= Seq::<char>::empty());
    }
    while pos < n
        invariant
            seg_start <= pos <= n,
            out@ + list_combos_acc(s@.skip(pos as int), s@.subrange(seg_start as int, pos as int))
                =~= list_combos(s@),
        decreases n - pos,
    {
        let ghost rest = s@.skip(pos as int);
        let ghost seg = s@.subrange(seg_start as int, pos as int);
        let c = s.get_char(pos);
        proof {
            assert(rest[0] == s@[pos as int]);
            assert(rest.skip(1) =~= s@.skip(pos as int + 1));
        }
        if c == ',' {
            let segment = s.substring_char(seg_start, pos);
            proof {
                assert(list_combos_acc(rest, seg) =~= seg_combos(seg) + list_combos_acc(
                    rest.skip(1),
                    Seq::empty(),
                ));
            }
            match parse_item(segment) {
                Some(it) => {
                    push_item_combos(&mut out, it);
                },
                None => {
                    proof {
                        assert(seg_combos(seg) =~= Seq::<(u8, u8, u8)>::empty());
                    }
                },
            }
            seg_start = pos + 1;
            proof {
                assert(s@.subrange(pos as int + 1, pos as int + 1) =~= Seq::<char>::empty());
            }
        } else {
            proof {
                assert(s@.subrange(seg_start as int, pos as int + 1) =~= seg.push(s@[pos as int]));
                assert(list_combos_acc(rest, seg) =~= list_combos_acc(
                    rest.skip(1),
                    seg.push(s@[pos as int]),
                ));
            }
        }
        pos += 1;
    }
    let ghost seg = s@.subrange(seg_start as int, n as int);
    proof {
        assert(s@.skip(n as int).len() == 0);
        assert(list_combos_acc(s@.skip(n as int), seg) == seg_combos(seg));
    }
    let segment = s.substring_char(seg_start, n);
    match parse_item(segment) {
        Some(it) => {
            push_item_combos(&mut out, it);
        },
        None => {
            proof {
                assert(seg_combos(seg) =~= Seq::<(u8, u8, u8)>::empty());
            }
        },
    }
    proof {
        assert(out@ =~= list_combos(s@));
        lemma_list_combos_wf(s@, Seq::empty());
    }
    out
}

/// Whether the text is exactly the literal "random".
pub open spec fn spec_is_random(s: Seq<char>) -> bool {
    s.len() == 6 && s[0] == 'r' && s[1] == 'a' && s[2] == 'n' && s[3] == 'd' && s[4] == 'o' && s[5]
        == 'm'
}

/// Tests for the literal "random".
pub fn is_random_str(s: &str) -> (b: bool)
    ensures
        b == spec_is_random(s@),
{
    let n = s.unicode_len();
    n == 6 && s.get_char(0) == 'r' && s.get_char(1) == 'a' && s.get_char(2) == 'n' && s.get_char(3)
        == 'd' && s.get_char(4) == 'o' && s.get_char(5) == 'm'
}

} // verus!

verus! {

/// The pair index of a weighted combination entry.
pub open spec fn combo_key(e: (u8, u8, u8)) -> int {
    52 * e.0 + e.1
}

/// Sorts weighted combination entries ascending by pair index, keeping
/// each entry intact.
fn sort_triples(items: &mut Vec<(u8, u8, u8)>)
    ensures
        final(items)@.len() == old(items)@.len(),
        final(items)@.to_multiset() == old(items)@.to_multiset(),
        forall|a: int, b: int|
            0 <= a < b < final(items)@.len() ==> combo_key(final(items)@[a])
                <= combo_key(final(items)@[b]),
{
    let n = items.len();
    let mut i: usize = 0;
    while i < n
        invariant
            n == items@.len(),
            i <= n,
            items@.to_multiset() == old(items)@.to_multiset(),
            forall|a: int, b: int| 0 <= a < b < i ==> combo_key(items@[a]) <= combo_key(items@[b]),
            forall|a: int, b: int|
                0 <= a < i <= b < n ==> combo_key(items@[a]) <= combo_key(items@[b]),
        decreases n - i,
    {
        let mut m: usize = i;
        let mut k: usize = i + 1;
        while k < n
            invariant
                n == items@.len(),
                i < n,
                i <= m < k <= n,
                forall|t: int| i <= t < k ==> combo_key(items@[m as int]) <= combo_key(items@[t]),
            decreases n - k,
        {
            let mk = 52 * (items[k].0 as u32) + items[k].1 as u32;
            let mm = 52 * (items[m].0 as u32) + items[m].1 as u32;
            if mk < mm {
                m = k;
            }
            k += 1;
        }
        let ghost before = items@;
        let a = items[i];
        let b = items[m];
        items.set(i, b);
        items.set(m, a);
        proof {
            crate::combination::lemma_swap_multiset(before, i as int, m as int);
            assert(items@ =~= before.update(i as int, before[m as int]).update(
                m as int,
                before[i as int],
            ));
        }
        i += 1;
    }
}

/// Builds the deduplicated, board-filtered range from entries sorted by
/// pair index: each surviving hand appears once, in ascending order.
fn dedup_filter_build(sorted: &Vec<(u8, u8, u8)>, board: &crate::cards::Board) -> (out: Vec<
    crate::combination::Combination,
>)
    requires
        forall|i: int| 0 <= i < sorted@.len() ==> combo_entry_wf(#[trigger] sorted@[i]),
        forall|a: int, b: int|
            0 <= a < b < sorted@.len() ==> combo_key(sorted@[a]) <= combo_key(sorted@[b]),
    ensures
        forall|i: int|
            0 <= i < out@.len() ==> {
                let c = #[trigger] out@[i];
                c.wf() && c.combos == 0 && c.rank == 0 && c.weight == 1 && c.canon_index
                    == c.raw_index && !board@.contains(c.hand[0]) && !board@.contains(c.hand[1])
            },
        forall|a: int, b: int|
            0 <= a < b < out@.len() ==> out@[a].raw_index < out@[b].raw_index,
        forall|lo: u8, hi: u8|
            range_has_hand(out@, lo, hi) <==> ((exists|j: int|
                0 <= j < sorted@.len() && (#[trigger] sorted@[j]).0 == lo && sorted@[j].1 == hi)
                && !board@.contains(lo) && !board@.contains(hi)),
{
    let mut out: Vec<crate::combination::Combination> = Vec::new();
    let mut j: usize = 0;
    while j < sorted.len()
        invariant
            j <= sorted@.len(),
            forall|i: int| 0 <= i < sorted@.len() ==> combo_entry_wf(#[trigger] sorted@[i]),
            forall|a: int, b: int|
                0 <= a < b < sorted@.len() ==> combo_key(sorted@[a]) <= combo_key(sorted@[b]),
            forall|i: int|
                0 <= i < out@.len() ==> {
                    let c = #[trigger] out@[i];
                    c.wf() && c.combos == 0 && c.rank == 0 && c.weight == 1 && c.canon_index
                        == c.raw_index && !board@.contains(c.hand[0]) && !board@.contains(
                        c.hand[1],
                    )
                },
            forall|a: int, b: int|
                0 <= a < b < out@.len() ==> out@[a].raw_index < out@[b].raw_index,
            out@.len() > 0 ==> exists|k: int|
                0 <= k < j && combo_key(#[trigger] sorted@[k]) == out@[out@.len()
                    - 1].raw_index as int,
            forall|lo: u8, hi: u8|
                range_has_hand(out@, lo, hi) ==> ((exists|k: int|
                    0 <= k < j && (#[trigger] sorted@[k]).0 == lo && sorted@[k].1 == hi)
                    && !board@.contains(lo) && !board@.contains(hi)),
            forall|k: int|
                0 <= k < j && !board@.contains((#[trigger] sorted@[k]).0) && !board@.contains(
                    sorted@[k].1,
                ) ==> range_has_hand(out@, sorted@[k].0, sorted@[k].1),
        decreases sorted@.len() - j,
    {
        let (lo, hi, _w) = sorted[j];
        let key: usize = 52 * (lo as usize) + hi as usize;
        let ghost out_before = out@;
        let mut skip_dup = false;
        if out.len() > 0 {
            let last = out.len() - 1;
            if out[last].raw_index == key {
                skip_dup = true;
                proof {
                    let c = out@[out@.len() - 1];
                    assert(c.wf());
                    assert(c.raw_index == 52 * c.hand[0] + c.hand[1]);
                    assert(c.hand[0] == lo && c.hand[1] == hi);
                    assert(range_has_hand(out@, lo, hi));
                }
            }
        }
        if !skip_dup {
            let blocked = crate::cards::check_card_overlap(lo, board)
                || crate::cards::check_card_overlap(hi, board);
            if !blocked {
                let c = crate::combination::Combination::new([lo, hi], 0, 0);
                proof {
                    if out@.len() > 0 {
                        let lastc = out@[out@.len() - 1];
                        let k0 = choose|k: int|
                            0 <= k < j && combo_key(sorted@[k]) == lastc.raw_index as int;
                        assert(combo_key(sorted@[k0]) <= combo_key(sorted@[j as int]));
                        assert(lastc.raw_index < key);
                    }
                }
                out.push(c);
                proof {
                    assert forall|lo2: u8, hi2: u8|
                        range_has_hand(out@, lo2, hi2) implies ((exists|k: int|
                        0 <= k < j + 1 && (#[trigger] sorted@[k]).0 == lo2 && sorted@[k].1 == hi2)
                        && !board@.contains(lo2) && !board@.contains(hi2)) by {
                        let i = choose|i: int|
                            0 <= i < out@.len() && out@[i].hand[0] == lo2 && out@[i].hand[1] == hi2;
                        if i < out@.len() - 1 {
                            assert(range_has_hand(out_before, lo2, hi2));
                        } else {
                            assert(sorted@[j as int].0 == lo2 && sorted@[j as int].1 == hi2);
                        }
                    }
                    assert forall|k: int|
                        0 <= k < j + 1 && !board@.contains((#[trigger] sorted@[k]).0)
                            && !board@.contains(sorted@[k].1) implies range_has_hand(
                        out@,
                        sorted@[k].0,
                        sorted@[k].1,
                    ) by {
                        if k < j {
                            assert(range_has_hand(out_before, sorted@[k].0, sorted@[k].1));
                            let i = choose|i: int|
                                0 <= i < out_before.len() && out_before[i].hand[0] == sorted@[k].0
                                    && out_before[i].hand[1] == sorted@[k].1;
                            assert(out@[i] == out_before[i]);
                        } else {
                            assert(out@[out@.len() - 1].hand[0] == sorted@[k].0);
                        }
                    }
                }
            } else {
                proof {
                    assert forall|k: int|
                        0 <= k < j + 1 && !board@.contains((#[trigger] sorted@[k]).0)
                            && !board@.contains(sorted@[k].1) implies range_has_hand(
                        out@,
                        sorted@[k].0,
                        sorted@[k].1,
                    ) by {
                        if k < j {
                        } else {
                            assert(board@.contains(sorted@[k].0) || board@.contains(sorted@[k].1));
                        }
                    }
                }
            }
        } else {
            proof {
                assert forall|k: int|
                    0 <= k < j + 1 && !board@.contains((#[trigger] sorted@[k]).0)
                        && !board@.contains(sorted@[k].1) implies range_has_hand(
                    out@,
                    sorted@[k].0,
                    sorted@[k].1,
                ) by {
                    if k == j {
                        assert(range_has_hand(out@, lo, hi));
                        assert(sorted@[k].0 == lo && sorted@[k].1 == hi) by {
                            assert(combo_entry_wf(sorted@[k]));
                        }
                    }
                }
            }
        }
        j += 1;
    }
    out
}

} // verus!

verus! {

/// Builds the range of every hand that misses the board, in ascending
/// pair-index order.
#[verifier::loop_isolation(false)]
fn random_range(board: &crate::cards::Board) -> (out: Vec<crate::combination::Combination>)
    ensures
        forall|i: int|
            0 <= i < out@.len() ==> {
                let c = #[trigger] out@[i];
                c.wf() && c.combos == 0 && c.rank == 0 && c.weight == 1 && c.canon_index
                    == c.raw_index && !board@.contains(c.hand[0]) && !board@.contains(c.hand[1])
            },
        forall|a: int, b: int|
            0 <= a < b < out@.len() ==> out@[a].raw_index < out@[b].raw_index,
        forall|lo: u8, hi: u8|
            range_has_hand(out@, lo, hi) <==> (lo < hi < 52 && !board@.contains(lo)
                && !board@.contains(hi)),
{
    let mut out: Vec<crate::combination::Combination> = Vec::new();
    let mut c1: u8 = 0;
    while c1 < 52
        invariant
            c1 <= 52,
            forall|i: int|
                0 <= i < out@.len() ==> {
                    let c = #[trigger] out@[i];
                    c.wf() && c.combos == 0 && c.rank == 0 && c.weight == 1 && c.canon_index
                        == c.raw_index && !board@.contains(c.hand[0]) && !board@.contains(
                        c.hand[1],
                    )
                },
            forall|a: int, b: int|
                0 <= a < b < out@.len() ==> out@[a].raw_index < out@[b].raw_index,
            forall|i: int| 0 <= i < out@.len() ==> (#[trigger] out@[i]).raw_index < 52 * c1,
            forall|lo: u8, hi: u8|
                range_has_hand(out@, lo, hi) <==> (lo < c1 && lo < hi < 52 && !board@.contains(lo)
                    && !board@.contains(hi)),
        decreases 52 - c1,
    {
        if !crate::cards::check_card_overlap(c1, board) {
            let mut c2: u8 = c1 + 1;
            while c2 < 52
                invariant
                    c1 < 52,
                    c1 < c2 <= 52,
                    !board@.contains(c1),
                    forall|i: int|
                        0 <= i < out@.len() ==> {
                            let c = #[trigger] out@[i];
                            c.wf() && c.combos == 0 && c.rank == 0 && c.weight == 1
                                && c.canon_index == c.raw_index && !board@.contains(c.hand[0])
                                && !board@.contains(c.hand[1])
                        },
                    forall|a: int, b: int|
                        0 <= a < b < out@.len() ==> out@[a].raw_index < out@[b].raw_index,
                    forall|i: int|
                        0 <= i < out@.len() ==> (#[trigger] out@[i]).raw_index < 52 * c1 + c2,
                    forall|lo: u8, hi: u8|
                        range_has_hand(out@, lo, hi) <==> ((lo < c1 || (lo == c1 && hi < c2)) && lo
                            < hi < 52 && !board@.contains(lo) && !board@.contains(hi)),
                decreases 52 - c2,
            {
                let ghost before = out@;
                if !crate::cards::check_card_overlap(c2, board) {
                    let c = crate::combination::Combination::new([c1, c2], 0, 0);
                    out.push(c);
                    proof {
                        assert forall|lo: u8, hi: u8|
                            range_has_hand(out@, lo, hi) implies ((lo < c1 || (lo == c1 && hi < c2
                            + 1)) && lo < hi < 52 && !board@.contains(lo) && !board@.contains(
                            hi,
                        )) by {
                            let i = choose|i: int|
                                0 <= i < out@.len() && out@[i].hand[0] == lo && out@[i].hand[1]
                                    == hi;
                            if i < out@.len() - 1 {
                                assert(range_has_hand(before, lo, hi));
                            }
                        }
                        assert forall|lo: u8, hi: u8|
                            ((lo < c1 || (lo == c1 && hi < c2 + 1)) && lo < hi < 52
                                && !board@.contains(lo) && !board@.contains(hi)) implies
                            range_has_hand(out@, lo, hi) by {
                            if lo < c1 || (lo == c1 && hi < c2) {
                                assert(range_has_hand(before, lo, hi));
                                let i = choose|i: int|
                                    0 <= i < before.len() && before[i].hand[0] == lo
                                        && before[i].hand[1] == hi;
                                assert(out@[i] == before[i]);
                            } else {
                                assert(out@[out@.len() - 1].hand[0] == lo);
                            }
                        }
                    }
                }
                c2 += 1;
            }
        }
        c1 += 1;
    }
    out
}

/// Parses a range string against a board: the hands the string denotes,
/// each once, board-blocked hands removed, sorted ascending by pair
/// index, with weights cleared.  This fixes the shared index space both
/// players' ranges are built over.
pub fn construct_starting_range_from_string(
    range_string: &str,
    board: &crate::cards::Board,
) -> (out: Vec<crate::combination::Combination>)
    ensures
        forall|i: int|
            0 <= i < out@.len() ==> {
                let c = #[trigger] out@[i];
                c.wf() && c.combos == 0 && c.rank == 0 && c.weight == 1 && c.canon_index
                    == c.raw_index && !board@.contains(c.hand[0]) && !board@.contains(c.hand[1])
            },
        forall|a: int, b: int|
            0 <= a < b < out@.len() ==> out@[a].raw_index < out@[b].raw_index,
        spec_is_random(range_string@) ==> forall|lo: u8, hi: u8|
            range_has_hand(out@, lo, hi) <==> (lo < hi < 52 && !board@.contains(lo)
                && !board@.contains(hi)),
        !spec_is_random(range_string@) ==> forall|lo: u8, hi: u8|
            range_has_hand(out@, lo, hi) <==> (denotes(range_string@, lo, hi)
                && !board@.contains(lo) && !board@.contains(hi)),
{
    broadcast use vstd::seq_lib::to_multiset_contains;

    if is_random_str(range_string) {
        random_range(board)
    } else {
        let mut combos = collect_range_combos(range_string);
        let ghost unsorted = combos@;
        sort_triples(&mut combos);
        proof {
            assert forall|i: int|
                0 <= i < combos@.len() implies combo_entry_wf(#[trigger] combos@[i]) by {
                assert(combos@.to_multiset().contains(combos@[i]));
                assert(unsorted.contains(combos@[i]));
                let k = choose|k: int| 0 <= k < unsorted.len() && unsorted[k] == combos@[i];
            }
        }
        let out = dedup_filter_build(&combos, board);
        proof {
            assert forall|lo: u8, hi: u8|
                range_has_hand(out@, lo, hi) == (denotes(range_string@, lo, hi)
                    && !board@.contains(lo) && !board@.contains(hi)) by {
                if denotes(range_string@, lo, hi) {
                    let w = choose|w: u8| list_combos(range_string@).contains((lo, hi, w));
                    assert(unsorted.contains((lo, hi, w)));
                    assert(combos@.to_multiset().contains((lo, hi, w)));
                    assert(combos@.contains((lo, hi, w)));
                    let j = choose|j: int| 0 <= j < combos@.len() && combos@[j] == (lo, hi, w);
                    assert(combos@[j].0 == lo && combos@[j].1 == hi);
                }
                if exists|j: int|
                    0 <= j < combos@.len() && (#[trigger] combos@[j]).0 == lo && combos@[j].1
                        == hi {
                    let j = choose|j: int|
                        0 <= j < combos@.len() && (#[trigger] combos@[j]).0 == lo && combos@[j].1
                            == hi;
                    let e = combos@[j];
                    assert(combos@.to_multiset().contains(e));
                    assert(unsorted.contains(e));
                    assert(list_combos(range_string@).contains((lo, hi, e.2)));
                    assert(denotes(range_string@, lo, hi));
                }
            }
        }
        out
    }
}

/// The weight the parsed combination list assigns to a hand: the weight
/// of its first entry for that hand, or 0 when the hand is absent.
fn weight_for(combos: &Vec<(u8, u8, u8)>, lo: u8, hi: u8) -> (w: u8)
    requires
        forall|i: int| 0 <= i < combos@.len() ==> combo_entry_wf(#[trigger] combos@[i]),
    ensures
        w <= 100,
        w > 0 ==> combos@.contains((lo, hi, w)),
        w == 0 ==> forall|j: int|
            0 <= j < combos@.len() ==> !((#[trigger] combos@[j]).0 == lo && combos@[j].1 == hi),
{
    let mut j: usize = 0;
    while j < combos.len()
        invariant
            j <= combos@.len(),
            forall|i: int| 0 <= i < combos@.len() ==> combo_entry_wf(#[trigger] combos@[i]),
            forall|k: int|
                0 <= k < j ==> !((#[trigger] combos@[k]).0 == lo && combos@[k].1 == hi),
        decreases combos@.len() - j,
    {
        let e = combos[j];
        if e.0 == lo && e.1 == hi {
            proof {
                assert(combos@[j as int] == (lo, hi, e.2));
            }
            return e.2;
        }
        j += 1;
    }
    0
}

/// Builds one player's range over the shared merged index space: each
/// merged hand keeps its place and takes the weight the player's range
/// string gives it, or 0 when the string does not cover it.  The literal
/// "random" takes every hand at full weight.
pub fn build_player_specific_merged_range(
    range_string: &str,
    merged_range: &Vec<crate::combination::Combination>,
) -> (out: Vec<crate::combination::Combination>)
    requires
        forall|i: int| 0 <= i < merged_range@.len() ==> (#[trigger] merged_range@[i]).wf(),
    ensures
        out@.len() == merged_range@.len(),
        forall|i: int|
            0 <= i < out@.len() ==> {
                let c = #[trigger] out@[i];
                let m = merged_range@[i];
                c.wf() && c.hand == m.hand && c.rank == m.rank && c.weight == m.weight
                    && c.raw_index == m.raw_index && c.canon_index == m.canon_index
            },
        spec_is_random(range_string@) ==> forall|i: int|
            0 <= i < out@.len() ==> (#[trigger] out@[i]).combos == 100,
        !spec_is_random(range_string@) ==> forall|i: int|
            0 <= i < out@.len() ==> {
                let c = #[trigger] out@[i];
                (denotes(range_string@, c.hand[0], c.hand[1]) ==> c.combos > 0 && list_combos(
                    range_string@,
                ).contains((c.hand[0], c.hand[1], c.combos))) && (!denotes(
                    range_string@,
                    c.hand[0],
                    c.hand[1],
                ) ==> c.combos == 0)
            },
{
    broadcast use vstd::seq_lib::to_multiset_contains;

    let random = is_random_str(range_string);
    let mut combos: Vec<(u8, u8, u8)> = Vec::new();
    if !random {
        combos = collect_range_combos(range_string);
    }
    let ghost clist = combos@;
    let mut out: Vec<crate::combination::Combination> = Vec::new();
    let mut i: usize = 0;
    while i < merged_range.len()
        invariant
            random == spec_is_random(range_string@),
            !random ==> clist =~= list_combos(range_string@),
            combos@ == clist,
            forall|k: int| 0 <= k < clist.len() ==> combo_entry_wf(#[trigger] clist[k]),
            forall|k: int| 0 <= k < merged_range@.len() ==> (#[trigger] merged_range@[k]).wf(),
            i <= merged_range@.len(),
            out@.len() == i,
            forall|k: int|
                0 <= k < i ==> {
                    let c = #[trigger] out@[k];
                    let m = merged_range@[k];
                    c.wf() && c.hand == m.hand && c.rank == m.rank && c.weight == m.weight
                        && c.raw_index == m.raw_index && c.canon_index == m.canon_index
                },
            random ==> forall|k: int| 0 <= k < i ==> (#[trigger] out@[k]).combos == 100,
            !random ==> forall|k: int|
                0 <= k < i ==> {
                    let c = #[trigger] out@[k];
                    (denotes(range_string@, c.hand[0], c.hand[1]) ==> c.combos > 0 && list_combos(
                        range_string@,
                    ).contains((c.hand[0], c.hand[1], c.combos))) && (!denotes(
                        range_string@,
                        c.hand[0],
                        c.hand[1],
                    ) ==> c.combos == 0)
                },
        decreases merged_range@.len() - i,
    {
        let m = merged_range[i];
        let w: u8 = if random {
            100
        } else {
            weight_for(&combos, m.hand[0], m.hand[1])
        };
        let c = crate::combination::Combination {
            hand: m.hand,
            rank: m.rank,
            combos: w,
            weight: m.weight,
            raw_index: m.raw_index,
            canon_index: m.canon_index,
        };
        proof {
            if !random {
                if denotes(range_string@, m.hand[0], m.hand[1]) {
                    let dw = choose|dw: u8|
                        list_combos(range_string@).contains((m.hand[0], m.hand[1], dw));
                    let j = choose|j: int|
                        0 <= j < clist.len() && clist[j] == (m.hand[0], m.hand[1], dw);
                    assert(w > 0);
                }
                if w > 0 {
                    assert(clist.contains((m.hand[0], m.hand[1], w)));
                    assert(denotes(range_string@, m.hand[0], m.hand[1]));
                }
            }
        }
        out.push(c);
        i += 1;
    }
    out
}

} // verus!

verus! {

/// Whether the text is the literal "random" in any letter case.
pub open spec fn spec_is_random_ci(s: Seq<char>) -> bool {
    s.len() == 6 && (s[0] == 'r' || s[0] == 'R') && (s[1] == 'a' || s[1] == 'A') && (s[2] == 'n'
        || s[2] == 'N') && (s[3] == 'd' || s[3] == 'D') && (s[4] == 'o' || s[4] == 'O') && (s[5]
        == 'm' || s[5] == 'M')
}

/// Tests for the literal "random", ignoring letter case.
pub fn is_random_str_ci(s: &str) -> (b: bool)
    ensures
        b == spec_is_random_ci(s@),
{
    let n = s.unicode_len();
    n == 6 && (s.get_char(0) == 'r' || s.get_char(0) == 'R') && (s.get_char(1) == 'a'
        || s.get_char(1) == 'A') && (s.get_char(2) == 'n' || s.get_char(2) == 'N') && (s.get_char(3)
        == 'd' || s.get_char(3) == 'D') && (s.get_char(4) == 'o' || s.get_char(4) == 'O') && (
    s.get_char(5) == 'm' || s.get_char(5) == 'M')
}

} // verus!
