//! The traversal context: both players' range managers, the current
//! traverser, the iteration counter, and the flag for the final pass
//! that records per-hand values.
use vstd::prelude::*;

use crate::cards::Board;
use crate::combination::Combination;
use crate::range_manager::{
    DefaultRangeManager, IsomorphicRangeManager, UTIL_BOUND, canon_table_ok, gathered, iso_rows,
    parent_board, scatter_add,
};

verus! {

/// Either flavour of range manager.
pub enum RangeManagers {
    Isomorphic(IsomorphicRangeManager),
    Default(DefaultRangeManager),
}

impl RangeManagers {
    pub open spec fn wf(self) -> bool {
        match self {
            RangeManagers::Isomorphic(m) => m.wf(),
            RangeManagers::Default(m) => m.wf(),
        }
    }

    pub open spec fn has_range(self, b: Board) -> bool {
        match self {
            RangeManagers::Isomorphic(m) => m.has_range(b),
            RangeManagers::Default(m) => m.has_range(b),
        }
    }

    pub open spec fn range_at(self, b: Board) -> Seq<Combination> {
        match self {
            RangeManagers::Isomorphic(m) => m.range_at(b),
            RangeManagers::Default(m) => m.range_at(b),
        }
    }

    pub open spec fn starting(self) -> Seq<Combination> {
        match self {
            RangeManagers::Isomorphic(m) => m.starting_combinations@,
            RangeManagers::Default(m) => m.starting_combinations@,
        }
    }

    /// What the board's reach projection reads and writes: the board's
    /// own table for the default manager, the parent board's bucket
    /// rows for the isomorphic one.
    pub open spec fn projection_rows(self, b: Board) -> Seq<usize> {
        match self {
            RangeManagers::Isomorphic(m) => iso_rows(m.range_at(b), m.mapping_at(parent_board(b))),
            RangeManagers::Default(m) => m.mapping_at(b),
        }
    }

    /// The projection for board `b` is stored and stays inside a parent
    /// range of length `plen`.
    pub open spec fn projection_ok(self, b: Board, plen: int) -> bool {
        match self {
            RangeManagers::Isomorphic(m) => {
                &&& m.has_range(b)
                &&& m.has_mapping(parent_board(b))
                &&& forall|i: int|
                    0 <= i < m.range_at(b).len() ==> (#[trigger] m.range_at(b)[i]).raw_index
                        < m.mapping_at(parent_board(b)).len()
                &&& forall|i: int|
                    0 <= i < m.range_at(b).len() ==> #[trigger] m.mapping_at(parent_board(b))[m.range_at(
                        b,
                    )[i].raw_index as int] < plen
                &&& m.range_at(b).len() <= 0x10000
            },
            RangeManagers::Default(m) => {
                &&& m.has_mapping(b)
                &&& forall|i: int| 0 <= i < m.mapping_at(b).len() ==> #[trigger] m.mapping_at(b)[i] < plen
                &&& m.mapping_at(b).len() <= 0x10000
            },
        }
    }

    /// The board carries a consistent bucket structure (trivial for the
    /// default manager, which has no buckets).
    pub open spec fn merge_ok(self, b: Board, len: int) -> bool {
        match self {
            RangeManagers::Isomorphic(m) => m.canon_ok(b) && len == m.range_at(b).len(),
            RangeManagers::Default(m) => true,
        }
    }

    /// The range stored for a board.
    pub fn get_range_for_board(&self, board: &Board) -> (out: &Vec<Combination>)
        requires
            crate::isomorphism::board_wf(*board),
            self.has_range(*board),
        ensures
            out@ == self.range_at(*board),
    {
        match self {
            RangeManagers::Isomorphic(m) => m.get_range_for_board(board),
            RangeManagers::Default(m) => m.get_range_for_board(board),
        }
    }

    /// A copy of the range the manager was seeded with.
    pub fn get_starting_combinations(&self) -> (out: Vec<Combination>)
        ensures
            out@ == self.starting(),
    {
        match self {
            RangeManagers::Isomorphic(m) => m.get_starting_combinations(),
            RangeManagers::Default(m) => m.get_starting_combinations(),
        }
    }

    /// Reads parent-street values into the child board's hand order.
    pub fn get_next_reach_probs(&self, new_board: &Board, opp_reach_probs: &Vec<i64>) -> (out: Vec<
        i64,
    >)
        requires
            crate::isomorphism::board_wf(*new_board),
            self.projection_ok(*new_board, opp_reach_probs@.len() as int),
        ensures
            out@ == gathered(opp_reach_probs@, self.projection_rows(*new_board)),
    {
        match self {
            RangeManagers::Isomorphic(m) => m.get_next_reach_probs(new_board, opp_reach_probs),
            RangeManagers::Default(m) => m.get_next_reach_probs(new_board, opp_reach_probs),
        }
    }

    /// Accumulates child utilities into parent rows.
    pub fn map_utility_backwards(
        &self,
        new_board: &Board,
        utility: &Vec<i64>,
        mapped_utility: &mut Vec<i64>,
    )
        requires
            crate::isomorphism::board_wf(*new_board),
            self.projection_ok(*new_board, old(mapped_utility)@.len() as int),
            utility@.len() == self.projection_rows(*new_board).len(),
            forall|i: int|
                0 <= i < old(mapped_utility)@.len() ==> -UTIL_BOUND <= #[trigger] old(
                    mapped_utility,
                )@[i] <= UTIL_BOUND,
            forall|i: int|
                0 <= i < utility@.len() ==> -UTIL_BOUND <= #[trigger] utility@[i] <= UTIL_BOUND,
        ensures
            final(mapped_utility)@ == scatter_add(
                old(mapped_utility)@,
                self.projection_rows(*new_board),
                utility@,
                utility@.len() as int,
            ),
            final(mapped_utility)@.len() == old(mapped_utility)@.len(),
    {
        match self {
            RangeManagers::Isomorphic(m) => m.map_utility_backwards(
                new_board,
                utility,
                mapped_utility,
            ),
            RangeManagers::Default(m) => m.map_utility_backwards(new_board, utility, mapped_utility),
        }
    }

    /// Overwrites alias rows with their representative's value; leaves
    /// utilities of the default manager untouched.
    pub fn merge_canonical_utilities(&self, board: &Board, utility: &mut Vec<i64>)
        requires
            crate::isomorphism::board_wf(*board),
            self.merge_ok(*board, old(utility)@.len() as int),
        ensures
            final(utility)@.len() == old(utility)@.len(),
            self matches RangeManagers::Default(_) ==> final(utility)@ == old(utility)@,
            self matches RangeManagers::Isomorphic(m) ==> {
                &&& forall|i: int|
                    0 <= i < final(utility)@.len() && (#[trigger] m.range_at(*board)[i]).weight
                        != 0 ==> final(utility)@[i] == old(utility)@[i]
                &&& forall|i: int|
                    0 <= i < final(utility)@.len() && (#[trigger] m.range_at(*board)[i]).weight
                        == 0 ==> final(utility)@[i] == final(utility)@[m.mapping_at(*board)[m.range_at(
                        *board,
                    )[i].canon_index as int] as int]
            },
    {
        match self {
            RangeManagers::Isomorphic(m) => m.merge_canonical_utilities(board, utility),
            RangeManagers::Default(m) => m.merge_canonical_utilities(board, utility),
        }
    }
}

/// The handle the trainer carries through one traversal: both players'
/// managers, whose turn is being updated, the iteration number, and
/// whether the final pass records values.
pub struct Traversal {
    pub oop_rm: RangeManagers,
    pub ip_rm: RangeManagers,
    pub traverser: u8,
    pub iteration: u32,
    pub persist_evs: bool,
}

impl Traversal {
    pub open spec fn wf(self) -> bool {
        self.oop_rm.wf() && self.ip_rm.wf()
    }

    /// The manager of the player whose values a traversal returns.
    pub open spec fn active_rm(self) -> RangeManagers {
        if self.traverser == 1 {
            self.ip_rm
        } else {
            self.oop_rm
        }
    }

    /// The manager of the other player.
    pub open spec fn opponent_rm(self) -> RangeManagers {
        if self.traverser == 1 {
            self.oop_rm
        } else {
            self.ip_rm
        }
    }

    pub fn new(oop_rm: RangeManagers, ip_rm: RangeManagers) -> (t: Traversal)
        ensures
            t.oop_rm == oop_rm,
            t.ip_rm == ip_rm,
            t.traverser == 0,
            t.iteration == 0,
            !t.persist_evs,
    {
        Traversal { oop_rm, ip_rm, traverser: 0, iteration: 0, persist_evs: false }
    }

    /// The traverser's range on a board.
    pub fn get_range_for_active_player(&self, board: &Board) -> (out: &Vec<Combination>)
        requires
            crate::isomorphism::board_wf(*board),
            self.active_rm().has_range(*board),
        ensures
            out@ == self.active_rm().range_at(*board),
    {
        if self.traverser == 1 {
            self.ip_rm.get_range_for_board(board)
        } else {
            self.oop_rm.get_range_for_board(board)
        }
    }

    /// The opponent's range on a board.
    pub fn get_range_for_opponent(&self, board: &Board) -> (out: &Vec<Combination>)
        requires
            crate::isomorphism::board_wf(*board),
            self.opponent_rm().has_range(*board),
        ensures
            out@ == self.opponent_rm().range_at(*board),
    {
        if self.traverser == 1 {
            self.oop_rm.get_range_for_board(board)
        } else {
            self.ip_rm.get_range_for_board(board)
        }
    }

    /// How many hands the traverser holds on a board.
    pub fn get_num_hands_for_traverser(&self, board: &Board) -> (n: usize)
        requires
            crate::isomorphism::board_wf(*board),
            self.active_rm().has_range(*board),
        ensures
            n == self.active_rm().range_at(*board).len(),
    {
        if self.traverser == 1 {
            self.ip_rm.get_range_for_board(board).len()
        } else {
            self.oop_rm.get_range_for_board(board).len()
        }
    }

    /// How many hands the given player holds on a board.
    pub fn get_num_hands_for_player(&self, player: u8, board: &Board) -> (n: usize)
        requires
            crate::isomorphism::board_wf(*board),
            player == 1 ==> self.ip_rm.has_range(*board),
            player != 1 ==> self.oop_rm.has_range(*board),
        ensures
            player == 1 ==> n == self.ip_rm.range_at(*board).len(),
            player != 1 ==> n == self.oop_rm.range_at(*board).len(),
    {
        if player == 1 {
            self.ip_rm.get_range_for_board(board).len()
        } else {
            self.oop_rm.get_range_for_board(board).len()
        }
    }

    /// Reads the opponent's parent-street reach into child order.
    pub fn get_next_reach_probs(&self, new_board: &Board, opp_reach_probs: &Vec<i64>) -> (out: Vec<
        i64,
    >)
        requires
            crate::isomorphism::board_wf(*new_board),
            self.opponent_rm().projection_ok(*new_board, opp_reach_probs@.len() as int),
        ensures
            out@ == gathered(
                opp_reach_probs@,
                self.opponent_rm().projection_rows(*new_board),
            ),
    {
        if self.traverser == 1 {
            self.oop_rm.get_next_reach_probs(new_board, opp_reach_probs)
        } else {
            self.ip_rm.get_next_reach_probs(new_board, opp_reach_probs)
        }
    }

    /// Accumulates the traverser's child utilities into parent rows.
    pub fn map_utility_backwards(
        &self,
        new_board: &Board,
        utility: &Vec<i64>,
        mapped_utility: &mut Vec<i64>,
    )
        requires
            crate::isomorphism::board_wf(*new_board),
            self.opponent_rm().projection_ok(*new_board, old(mapped_utility)@.len() as int),
            utility@.len() == self.opponent_rm().projection_rows(*new_board).len(),
            forall|i: int|
                0 <= i < old(mapped_utility)@.len() ==> -UTIL_BOUND <= #[trigger] old(
                    mapped_utility,
                )@[i] <= UTIL_BOUND,
            forall|i: int|
                0 <= i < utility@.len() ==> -UTIL_BOUND <= #[trigger] utility@[i] <= UTIL_BOUND,
        ensures
            final(mapped_utility)@ == scatter_add(
                old(mapped_utility)@,
                self.opponent_rm().projection_rows(*new_board),
                utility@,
                utility@.len() as int,
            ),
            final(mapped_utility)@.len() == old(mapped_utility)@.len(),
    {
        if self.traverser == 1 {
            self.oop_rm.map_utility_backwards(new_board, utility, mapped_utility)
        } else {
            self.ip_rm.map_utility_backwards(new_board, utility, mapped_utility)
        }
    }

    /// Merges bucket aliases of the traverser's opponent-facing manager.
    pub fn merge_canonical_utilities(&self, board: &Board, utility: &mut Vec<i64>)
        requires
            crate::isomorphism::board_wf(*board),
            self.opponent_rm().merge_ok(*board, old(utility)@.len() as int),
        ensures
            final(utility)@.len() == old(utility)@.len(),
            self.opponent_rm() matches RangeManagers::Default(_) ==> final(utility)@ == old(
                utility,
            )@,
            self.opponent_rm() matches RangeManagers::Isomorphic(m) ==> {
                &&& forall|i: int|
                    0 <= i < final(utility)@.len() && (#[trigger] m.range_at(*board)[i]).weight
                        != 0 ==> final(utility)@[i] == old(utility)@[i]
                &&& forall|i: int|
                    0 <= i < final(utility)@.len() && (#[trigger] m.range_at(*board)[i]).weight
                        == 0 ==> final(utility)@[i] == final(utility)@[m.mapping_at(*board)[m.range_at(
                        *board,
                    )[i].canon_index as int] as int]
            },
    {
        if self.traverser == 1 {
            self.oop_rm.merge_canonical_utilities(board, utility)
        } else {
            self.ip_rm.merge_canonical_utilities(board, utility)
        }
    }
}

/// Whether the game's shared index space holds the hand: every
/// unblocked pair when either side plays "random", else every hand the
/// two range strings together denote.
pub open spec fn merged_denotes(oop: Seq<char>, ip: Seq<char>, lo: u8, hi: u8) -> bool {
    if crate::parse::spec_is_random_ci(oop) || crate::parse::spec_is_random_ci(ip) {
        lo < hi < 52
    } else {
        crate::parse::denotes(oop + seq![','] + ip, lo, hi)
    }
}

/// One player's weights over the shared index space: full weight
/// everywhere for "random", else the weight the player's own string
/// gives each hand, and zero for hands it does not cover.
pub open spec fn player_range_ok(range: Seq<Combination>, rs: Seq<char>) -> bool {
    if crate::parse::spec_is_random(rs) {
        forall|i: int| 0 <= i < range.len() ==> (#[trigger] range[i]).combos == 100
    } else {
        forall|i: int|
            0 <= i < range.len() ==> {
                let c = #[trigger] range[i];
                &&& (crate::parse::denotes(rs, c.hand[0], c.hand[1]) ==> c.combos > 0
                    && crate::parse::list_combos(rs).contains((c.hand[0], c.hand[1], c.combos)))
                &&& (!crate::parse::denotes(rs, c.hand[0], c.hand[1]) ==> c.combos == 0)
            }
    }
}

/// Whether the board's suits admit any sharing: some suit is grouped
/// with a lower one.
pub open spec fn suits_collapse(board: Board) -> bool {
    exists|s: int| 0 <= s < 4 && crate::isomorphism::spec_initial_group(board, s) != s
}

/// Builds the traversal for a game: parses both range strings over one
/// shared index space, then seeds an isomorphic manager per player when
/// the board's suits allow sharing, else a default manager.
pub fn build_traversal_from_ranges(board: Board, oop_range: &str, ip_range: &str) -> (t: Traversal)
    requires
        crate::range_manager::board_shape_ok(board),
    ensures
        t.wf(),
        t.oop_rm.has_range(board),
        t.ip_rm.has_range(board),
        board[3] == 52 ==> (t.oop_rm matches RangeManagers::Isomorphic(m) ==> m.canon_ok(board)),
        board[3] == 52 ==> (t.ip_rm matches RangeManagers::Isomorphic(m) ==> m.canon_ok(board)),
        suits_collapse(board) ==> (t.oop_rm matches RangeManagers::Isomorphic(_)) && (
        t.ip_rm matches RangeManagers::Isomorphic(_)),
        !suits_collapse(board) ==> (t.oop_rm matches RangeManagers::Default(_)) && (
        t.ip_rm matches RangeManagers::Default(_)),
        t.oop_rm.starting().len() == t.ip_rm.starting().len(),
        forall|i: int|
            0 <= i < t.oop_rm.starting().len() ==> (#[trigger] t.oop_rm.starting()[i]).hand
                == t.ip_rm.starting()[i].hand,
        forall|i: int|
            0 <= i < t.oop_rm.starting().len() ==> (#[trigger] t.oop_rm.starting()[i]).wf()
                && !board@.contains(t.oop_rm.starting()[i].hand[0]) && !board@.contains(
                t.oop_rm.starting()[i].hand[1],
            ),
        forall|a: int, b: int|
            0 <= a < b < t.oop_rm.starting().len() ==> t.oop_rm.starting()[a].raw_index
                < t.oop_rm.starting()[b].raw_index,
        forall|lo: u8, hi: u8|
            crate::parse::range_has_hand(t.oop_rm.starting(), lo, hi) <==> (merged_denotes(
                oop_range@,
                ip_range@,
                lo,
                hi,
            ) && !board@.contains(lo) && !board@.contains(hi)),
        player_range_ok(t.oop_rm.starting(), oop_range@),
        player_range_ok(t.ip_rm.starting(), ip_range@),
        t.traverser == 0,
        t.iteration == 0,
        !t.persist_evs,
{
    let any_random = crate::parse::is_random_str_ci(oop_range) || crate::parse::is_random_str_ci(
        ip_range,
    );
    let merged = if any_random {
        let r = crate::parse::construct_starting_range_from_string("random", &board);
        proof {
            reveal_strlit("random");
            assert(crate::parse::spec_is_random("random"@));
        }
        r
    } else {
        let joined = String::from_str(oop_range).concat(",").concat(ip_range);
        let r = crate::parse::construct_starting_range_from_string(joined.as_str(), &board);
        proof {
            reveal_strlit(",");
            assert(","@ =~= seq![',']);
            assert(joined@ == oop_range@ + seq![','] + ip_range@);
            assert(!crate::parse::spec_is_random(joined@)) by {
                if crate::parse::spec_is_random(joined@) {
                    assert(joined@[if oop_range@.len() <= 6 {
                        oop_range@.len() as int
                    } else {
                        6int
                    }] != ',') by {
                        assert(forall|k: int|
                            0 <= k < 6 ==> #[trigger] joined@[k] != ',');
                    }
                    assert(oop_range@.len() > 6 || joined@[oop_range@.len() as int] == ',');
                }
            }
        }
        r
    };
    let ghost merged_view = merged@;
    let oop_combinations = crate::parse::build_player_specific_merged_range(oop_range, &merged);
    let ip_combinations = crate::parse::build_player_specific_merged_range(ip_range, &merged);
    proof {
        assert forall|a: int, b: int|
            0 <= a < b < oop_combinations@.len() implies oop_combinations@[a].raw_index
            != oop_combinations@[b].raw_index by {
            assert(merged_view[a].raw_index < merged_view[b].raw_index);
        }
        assert forall|a: int, b: int|
            0 <= a < b < ip_combinations@.len() implies ip_combinations@[a].raw_index
            != ip_combinations@[b].raw_index by {
            assert(merged_view[a].raw_index < merged_view[b].raw_index);
        }
        assert forall|lo: u8, hi: u8|
            crate::parse::range_has_hand(oop_combinations@, lo, hi) == crate::parse::range_has_hand(
            merged_view,
            lo,
            hi,
        ) by {
            if crate::parse::range_has_hand(oop_combinations@, lo, hi) {
                let i = choose|i: int|
                    0 <= i < oop_combinations@.len() && oop_combinations@[i].hand[0] == lo
                        && oop_combinations@[i].hand[1] == hi;
                assert(merged_view[i].hand[0] == lo && merged_view[i].hand[1] == hi);
            }
            if crate::parse::range_has_hand(merged_view, lo, hi) {
                let i = choose|i: int|
                    0 <= i < merged_view.len() && merged_view[i].hand[0] == lo
                        && merged_view[i].hand[1] == hi;
                assert(oop_combinations@[i].hand[0] == lo && oop_combinations@[i].hand[1] == hi);
            }
        }
    }
    let sg = crate::isomorphism::build_initial_suit_groups(&board);
    proof {
        crate::isomorphism::lemma_initial_groups_pinned(board, sg@);
    }
    let mut iso = false;
    let mut suit: usize = 0;
    while suit < 4
        invariant
            sg@.len() == 4,
            forall|k: int| 0 <= k < 4 ==> #[trigger] sg@[k] as int == crate::isomorphism::spec_initial_group(
                board,
                k,
            ),
            suit <= 4,
            iso == exists|k: int| 0 <= k < suit && #[trigger] sg@[k] != k,
        decreases 4 - suit,
    {
        if sg[suit] != suit as u8 {
            iso = true;
            proof {
                assert(sg@[suit as int] != suit as int);
            }
        }
        suit += 1;
    }
    proof {
        assert(iso == suits_collapse(board)) by {
            if iso {
                let k = choose|k: int| 0 <= k < 4 && #[trigger] sg@[k] != k;
                assert(crate::isomorphism::spec_initial_group(board, k) != k);
            }
            if suits_collapse(board) {
                let k = choose|k: int|
                    0 <= k < 4 && crate::isomorphism::spec_initial_group(board, k) != k;
                assert(sg@[k] != k);
            }
        }
    }
    let oop_rm = if iso {
        RangeManagers::Isomorphic(
            crate::range_manager::IsomorphicRangeManager::new(oop_combinations, board),
        )
    } else {
        RangeManagers::Default(
            crate::range_manager::DefaultRangeManager::new(oop_combinations, board),
        )
    };
    let ip_rm = if iso {
        RangeManagers::Isomorphic(
            crate::range_manager::IsomorphicRangeManager::new(ip_combinations, board),
        )
    } else {
        RangeManagers::Default(
            crate::range_manager::DefaultRangeManager::new(ip_combinations, board),
        )
    };
    proof {
        assert forall|lo: u8, hi: u8|
            crate::parse::range_has_hand(oop_rm.starting(), lo, hi) <==> (merged_denotes(
            oop_range@,
            ip_range@,
            lo,
            hi,
        ) && !board@.contains(lo) && !board@.contains(hi)) by {
            assert(oop_rm.starting() == oop_combinations@);
            assert(crate::parse::range_has_hand(oop_combinations@, lo, hi)
                == crate::parse::range_has_hand(merged_view, lo, hi));
        }
    }
    Traversal::new(oop_rm, ip_rm)
}

} // verus!

verus! {

impl RangeManagers {
    /// Whether a range is stored for the board.
    pub fn has_range_for_board(&self, board: &Board) -> (b: bool)
        requires
            crate::isomorphism::board_wf(*board),
        ensures
            b == self.has_range(*board),
    {
        match self {
            RangeManagers::Isomorphic(m) => m.has_range_for_board(board),
            RangeManagers::Default(m) => m.has_range_for_board(board),
        }
    }
}

impl Traversal {
    /// How many hands the player holds on the board, or 0 when the
    /// board is not stored.
    pub fn num_hands_or_zero(&self, player: u8, board: &Board) -> (n: usize)
        requires
            crate::isomorphism::board_wf(*board),
        ensures
            player == 1 && self.ip_rm.has_range(*board) ==> n == self.ip_rm.range_at(
                *board,
            ).len(),
            player != 1 && self.oop_rm.has_range(*board) ==> n == self.oop_rm.range_at(
                *board,
            ).len(),
            player == 1 && !self.ip_rm.has_range(*board) ==> n == 0,
            player != 1 && !self.oop_rm.has_range(*board) ==> n == 0,
    {
        if player == 1 {
            if self.ip_rm.has_range_for_board(board) {
                self.ip_rm.get_range_for_board(board).len()
            } else {
                0
            }
        } else {
            if self.oop_rm.has_range_for_board(board) {
                self.oop_rm.get_range_for_board(board).len()
            } else {
                0
            }
        }
    }
}

} // verus!
