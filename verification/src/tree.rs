//! The betting tree and its builder.
//!
//! Chip amounts are integers; bet sizes arrive as hundredths of the pot
//! after the pending call, so a value of 75 bets three quarters of that
//! pot.  The all-in cutoff is likewise a pot multiplier in hundredths.
//! A raise always moves at least one chip beyond the pending call, and
//! a bet clipped by either stack ends the size menu.
use vstd::prelude::*;

use crate::cards::Board;
use crate::traversal::Traversal;

verus! {

/// The fixed parameters of one game: starting chips and the per-street,
/// per-player bet-size menus, indexed by how many bets the street has
/// already seen.
pub struct GameParams {
    pub parallel_street: u8,
    pub starting_pot: u32,
    pub starting_stack: u32,
    pub all_in_cut_off: u32,
    pub default_bet: u32,
    pub default_bets: Vec<Vec<u32>>,
    pub ip_flop_bets: Vec<Vec<u32>>,
    pub oop_flop_bets: Vec<Vec<u32>>,
    pub ip_turn_bets: Vec<Vec<u32>>,
    pub oop_turn_bets: Vec<Vec<u32>>,
    pub ip_river_bets: Vec<Vec<u32>>,
    pub oop_river_bets: Vec<Vec<u32>>,
}

/// Every configured size stays under a hundred times the pot, and the
/// stakes stay small enough that all chip arithmetic fits.
pub open spec fn menu_ok(menu: Seq<Vec<u32>>) -> bool {
    &&& forall|i: int, j: int|
        0 <= i < menu.len() && 0 <= j < menu[i]@.len() ==> menu[i]@[j] <= 10000
    &&& forall|i: int| 0 <= i < menu.len() ==> (#[trigger] menu[i])@.len() <= 100
}

impl GameParams {
    pub open spec fn wf(self) -> bool {
        &&& self.starting_pot >= 1
        &&& self.starting_stack >= 1
        &&& self.starting_pot + 2 * self.starting_stack <= 0x2000_0000
        &&& self.all_in_cut_off <= 100000
        &&& self.default_bet <= 10000
        &&& menu_ok(self.default_bets@)
        &&& self.default_bets@.len() >= 1
        &&& self.default_bets@[0]@.len() >= 1
        &&& menu_ok(self.ip_flop_bets@)
        &&& menu_ok(self.oop_flop_bets@)
        &&& menu_ok(self.ip_turn_bets@)
        &&& menu_ok(self.oop_turn_bets@)
        &&& menu_ok(self.ip_river_bets@)
        &&& menu_ok(self.oop_river_bets@)
    }

    /// Collects the parameters, seeding the fallback menu from the
    /// default bet size.
    pub fn new(
        parallel_street: u8,
        starting_pot: u32,
        starting_stack: u32,
        all_in_cut_off: u32,
        default_bet: u32,
        oop_flop_bets: Vec<Vec<u32>>,
        oop_turn_bets: Vec<Vec<u32>>,
        oop_river_bets: Vec<Vec<u32>>,
        ip_flop_bets: Vec<Vec<u32>>,
        ip_turn_bets: Vec<Vec<u32>>,
        ip_river_bets: Vec<Vec<u32>>,
    ) -> (p: GameParams)
        requires
            starting_pot >= 1,
            starting_stack >= 1,
            starting_pot + 2 * starting_stack <= 0x2000_0000,
            all_in_cut_off <= 100000,
            default_bet <= 10000,
            menu_ok(oop_flop_bets@),
            menu_ok(oop_turn_bets@),
            menu_ok(oop_river_bets@),
            menu_ok(ip_flop_bets@),
            menu_ok(ip_turn_bets@),
            menu_ok(ip_river_bets@),
        ensures
            p.wf(),
            p.parallel_street == parallel_street,
            p.starting_pot == starting_pot,
            p.starting_stack == starting_stack,
            p.all_in_cut_off == all_in_cut_off,
            p.default_bet == default_bet,
            p.default_bets@.len() == 1 && p.default_bets@[0]@.len() == 1 && p.default_bets@[0]@[0]
                == default_bet,
    {
        let mut inner: Vec<u32> = Vec::new();
        inner.push(default_bet);
        let mut default_bets: Vec<Vec<u32>> = Vec::new();
        default_bets.push(inner);
        GameParams {
            parallel_street,
            starting_pot,
            starting_stack,
            all_in_cut_off,
            default_bet,
            default_bets,
            ip_flop_bets,
            oop_flop_bets,
            ip_turn_bets,
            oop_turn_bets,
            ip_river_bets,
            oop_river_bets,
        }
    }
}

/// A decision point: the acting player, the chips behind, and one child
/// per legal action.
pub struct ActionNode {
    pub player_node: u8,
    pub num_hands: usize,
    pub num_actions: usize,
    pub pot_size: u32,
    pub ip_stack: u32,
    pub oop_stack: u32,
    pub next_nodes: Vec<Node>,
}

/// A dealt card: one child subgame per canonical next card.
pub struct ChanceNode {
    pub street: u8,
    pub next_nodes: Vec<Node>,
    pub next_cards: Vec<u8>,
    pub next_weights: Vec<i8>,
    pub parallel: bool,
}

/// A closed river pot that goes to the stronger hand.
pub struct ShowdownNode {
    pub pot_size: u32,
}

/// A fold: the pot goes to `player_node`.
pub struct TerminalNode {
    pub pot_size: u32,
    pub player_node: u8,
}

/// Both stacks in before the runouts finish.
pub struct AllInShowdownNode {
    pub pot_size: u32,
    pub street: u8,
}

/// The kind of node a strategy report entry describes.
#[derive(Clone, Copy, Debug, PartialEq, Eq, Structural)]
pub enum NodeResultType {
    Action,
    Chance,
}

/// One node of the betting tree.
pub enum Node {
    ActionNode(ActionNode),
    ChanceNode(ChanceNode),
    ShowdownNode(ShowdownNode),
    TerminalNode(TerminalNode),
    AllInShowdownNode(AllInShowdownNode),
}

/// A well-formed subtree: every decision point counts its children
/// correctly, acts for a real player, and offers at least one action;
/// every chance node pairs each card with a weight and a subgame.
pub open spec fn node_wf(n: Node) -> bool
    decreases n,
{
    match n {
        Node::ActionNode(a) => {
            &&& a.num_actions == a.next_nodes@.len()
            &&& a.num_actions >= 1
            &&& a.player_node <= 1
            &&& forall|i: int|
                0 <= i < a.next_nodes@.len() ==> node_wf(#[trigger] a.next_nodes@[i])
        },
        Node::ChanceNode(c) => {
            &&& c.next_cards@.len() == c.next_weights@.len()
            &&& c.next_nodes@.len() == c.next_cards@.len()
            &&& forall|i: int|
                0 <= i < c.next_nodes@.len() ==> node_wf(#[trigger] c.next_nodes@[i])
        },
        _ => true,
    }
}

impl ActionNode {
    /// An open decision point with no actions wired yet.
    pub fn new(player_node: u8, num_hands: usize, pot_size: u32, ip_stack: u32, oop_stack: u32) -> (
        n: ActionNode)
        ensures
            n.player_node == player_node,
            n.num_hands == num_hands,
            n.num_actions == 0,
            n.pot_size == pot_size,
            n.ip_stack == ip_stack,
            n.oop_stack == oop_stack,
            n.next_nodes@.len() == 0,
    {
        ActionNode {
            player_node,
            num_hands,
            num_actions: 0,
            pot_size,
            ip_stack,
            oop_stack,
            next_nodes: Vec::new(),
        }
    }

    /// Wires one more action.
    pub fn add_child(&mut self, child: Node)
        requires
            old(self).num_actions < usize::MAX,
        ensures
            final(self).next_nodes@ == old(self).next_nodes@.push(child),
            final(self).num_actions == old(self).num_actions + 1,
            final(self).player_node == old(self).player_node,
            final(self).num_hands == old(self).num_hands,
            final(self).pot_size == old(self).pot_size,
            final(self).ip_stack == old(self).ip_stack,
            final(self).oop_stack == old(self).oop_stack,
    {
        self.num_actions = self.num_actions + 1;
        self.next_nodes.push(child);
    }
}

impl ShowdownNode {
    pub fn new(pot_size: u32) -> (n: ShowdownNode)
        ensures
            n.pot_size == pot_size,
    {
        ShowdownNode { pot_size }
    }
}

impl TerminalNode {
    pub fn new(pot_size: u32, player_node: u8) -> (n: TerminalNode)
        ensures
            n.pot_size == pot_size,
            n.player_node == player_node,
    {
        TerminalNode { pot_size, player_node }
    }
}

impl AllInShowdownNode {
    pub fn new(pot_size: u32, street: u8) -> (n: AllInShowdownNode)
        ensures
            n.pot_size == pot_size,
            n.street == street,
    {
        AllInShowdownNode { pot_size, street }
    }
}

/// The suit groups a chance node deals under: the flop groups, refined
/// by the turn when the turn is already out.
pub open spec fn chance_groups(board: Board) -> Seq<u8> {
    if board[3] != 52 {
        let flop_only: Board = [board[0], board[1], board[2], 52u8, 52u8];
        let fg = Seq::new(4, |i: int| crate::isomorphism::spec_initial_group(flop_only, i) as u8);
        Seq::new(4, |i: int| crate::isomorphism::spec_next_group(board, fg, i) as u8)
    } else {
        Seq::new(4, |i: int| crate::isomorphism::spec_initial_group(board, i) as u8)
    }
}

/// How many suits share the class of suit `s`.
pub open spec fn class_size(groups: Seq<u8>, s: int) -> int {
    (if groups[0] == groups[s] {
        1int
    } else {
        0int
    }) + (if groups[1] == groups[s] {
        1int
    } else {
        0int
    }) + (if groups[2] == groups[s] {
        1int
    } else {
        0int
    }) + (if groups[3] == groups[s] {
        1int
    } else {
        0int
    })
}

/// Computes the groups a chance node deals under.
fn chance_groups_exec(board: &Board) -> (groups: Vec<u8>)
    requires
        crate::isomorphism::board_wf(*board),
    ensures
        groups@ == chance_groups(*board),
        groups@.len() == 4,
        forall|k: int| 0 <= k < 4 ==> 0 <= #[trigger] groups@[k] <= k,
{
    let ghost cg = chance_groups(*board);
    if crate::cards::board_has_turn(board) {
        let flop_only: Board = [board[0], board[1], board[2], 52, 52];
        let flop_groups = crate::isomorphism::build_initial_suit_groups(&flop_only);
        let groups = crate::isomorphism::build_next_suit_groups(board, &flop_groups);
        proof {
            crate::isomorphism::lemma_initial_groups_pinned(flop_only, flop_groups@);
            let fg = Seq::new(
                4,
                |i: int| crate::isomorphism::spec_initial_group(flop_only, i) as u8,
            );
            assert(flop_groups@ =~= fg);
            crate::isomorphism::lemma_next_groups_pinned(*board, flop_groups@, groups@);
            assert(groups@ =~= cg);
        }
        groups
    } else {
        let groups = crate::isomorphism::build_initial_suit_groups(board);
        proof {
            crate::isomorphism::lemma_initial_groups_pinned(*board, groups@);
            assert(groups@ =~= cg);
        }
        groups
    }
}

/// Counts each representative suit's class; other suits count zero.
fn class_weights(suit_groups: &Vec<u8>) -> (w: [i8; 4])
    requires
        suit_groups@.len() == 4,
        forall|k: int| 0 <= k < 4 ==> 0 <= #[trigger] suit_groups@[k] <= k,
    ensures
        forall|k: int|
            0 <= k < 4 && suit_groups@[k] == k ==> #[trigger] w[k] == class_size(suit_groups@, k),
        forall|k: int| 0 <= k < 4 && suit_groups@[k] != k ==> #[trigger] w[k] == 0,
{
    let mut suit_weights: [i8; 4] = [0; 4];
    let mut s: usize = 0;
    while s < 4
        invariant
            suit_groups@.len() == 4,
            forall|k: int| 0 <= k < 4 ==> 0 <= #[trigger] suit_groups@[k] <= k,
            s <= 4,
            forall|k: int|
                0 <= k < s && suit_groups@[k] == k ==> #[trigger] suit_weights[k] == class_size(
                    suit_groups@,
                    k,
                ),
            forall|k: int| 0 <= k < s && suit_groups@[k] != k ==> #[trigger] suit_weights[k] == 0,
        decreases 4 - s,
    {
        if suit_groups[s] == s as u8 {
            let mut count: i8 = 0;
            if suit_groups[0] == s as u8 {
                count += 1;
            }
            if suit_groups[1] == s as u8 {
                count += 1;
            }
            if suit_groups[2] == s as u8 {
                count += 1;
            }
            if suit_groups[3] == s as u8 {
                count += 1;
            }
            suit_weights[s] = count;
        } else {
            suit_weights[s] = 0;
        }
        s += 1;
    }
    suit_weights
}

/// Enumerates the next cards a chance node deals, in ascending card
/// order: exactly the off-board cards whose suit represents its class,
/// each weighted by the class size, so one card stands for every
/// suit-equivalent runout.
#[verifier::loop_isolation(false)]
#[verifier::rlimit(100)]
pub fn build_next(board: &Board, next_cards: &mut Vec<u8>, next_weights: &mut Vec<i8>)
    requires
        crate::isomorphism::board_wf(*board),
        old(next_cards)@.len() == 0,
        old(next_weights)@.len() == 0,
    ensures
        chance_cards_ok(final(next_cards)@, final(next_weights)@, *board),
{
    let ghost cg = chance_groups(*board);
    let suit_groups = chance_groups_exec(board);
    let suit_weights = class_weights(&suit_groups);
    let mut c: u8 = 0;
    while c < 52
        invariant
            c <= 52,
            next_cards@.len() == next_weights@.len(),
            forall|k: int| 0 <= k < 4 ==> 0 <= #[trigger] suit_groups@[k] <= k,
            forall|k: int|
                0 <= k < 4 && cg[k] == k ==> #[trigger] suit_weights[k] == class_size(cg, k),
            forall|k: int| 0 <= k < 4 && cg[k] != k ==> #[trigger] suit_weights[k] == 0,
            forall|i: int|
                0 <= i < next_cards@.len() ==> !board@.contains(#[trigger] next_cards@[i])
                    && next_cards@[i] < c,
            forall|i: int, j: int|
                0 <= i < j < next_cards@.len() ==> next_cards@[i] < next_cards@[j],
            forall|i: int|
                0 <= i < next_cards@.len() ==> cg[#[trigger] next_cards@[i] as int % 4]
                    == next_cards@[i] % 4,
            forall|i: int|
                0 <= i < next_weights@.len() ==> #[trigger] next_weights@[i] == class_size(
                    cg,
                    next_cards@[i] as int % 4,
                ),
            forall|c2: u8|
                c2 < c && !board@.contains(c2) && cg[c2 as int % 4] == c2 % 4 ==> exists|i: int|
                    0 <= i < next_cards@.len() && next_cards@[i] == c2,
            weight_total(next_weights@) == rep_weight_sum(*board, cg, c as int),
        decreases 52 - c,
    {
        let ghost cards_before = next_cards@;
        let ghost weights_before = next_weights@;
        let mut emitted = false;
        if !crate::cards::check_card_overlap(c, board) {
            let suit = (c % 4) as usize;
            if suit_weights[suit] != 0 {
                next_cards.push(c);
                next_weights.push(suit_weights[suit]);
                emitted = true;
                proof {
                    assert(cg[suit as int] == suit as u8) by {
                        if cg[suit as int] != suit as u8 {
                            assert(suit_weights[suit as int] == 0);
                        }
                    }
                    assert(next_weights@.drop_last() =~= weights_before);
                    assert(weight_total(next_weights@) == weight_total(weights_before)
                        + suit_weights[suit as int]);
                }
            }
        }
        proof {
            assert forall|c2: u8|
                c2 < c + 1 && !board@.contains(c2) && cg[c2 as int % 4] == c2 % 4 implies exists|
                i: int,
            |
                0 <= i < next_cards@.len() && next_cards@[i] == c2 by {
                if c2 < c {
                    let i = choose|i: int| 0 <= i < cards_before.len() && cards_before[i] == c2;
                    assert(next_cards@[i] == c2);
                } else {
                    assert(next_cards@[next_cards@.len() - 1] == c2);
                }
            }
            if !emitted {
                assert(weight_total(next_weights@) == rep_weight_sum(*board, cg, c as int + 1))
                    by {
                    if !board@.contains(c) && cg[c as int % 4] == c % 4 {
                        assert(suit_weights[c as int % 4] == class_size(cg, c as int % 4));
                        assert(class_size(cg, c as int % 4) >= 1);
                        assert(false);
                    }
                }
            }
        }
        c += 1;
    }
    proof {
        lemma_rep_weights_cover_deck(*board, 13);
        assert(chance_cards_ok(next_cards@, next_weights@, *board));
    }
}

impl ChanceNode {
    /// A chance node for the street dealt after this board, its child
    /// slots still empty.
    pub fn new(board: &Board, street: u8, parallel: bool) -> (n: ChanceNode)
        requires
            crate::isomorphism::board_wf(*board),
        ensures
            n.street == street,
            n.parallel == parallel,
            n.next_nodes@.len() == 0,
            chance_cards_ok(n.next_cards@, n.next_weights@, *board),
    {
        let mut next_cards: Vec<u8> = Vec::new();
        let mut next_weights: Vec<i8> = Vec::new();
        build_next(board, &mut next_cards, &mut next_weights);
        ChanceNode { street, next_nodes: Vec::new(), next_cards, next_weights, parallel }
    }

    /// Wires the subgame of the next dealt card.
    pub fn add_next_node(&mut self, child: Node)
        ensures
            final(self).next_nodes@ == old(self).next_nodes@.push(child),
            final(self).street == old(self).street,
            final(self).next_cards == old(self).next_cards,
            final(self).next_weights == old(self).next_weights,
            final(self).parallel == old(self).parallel,
    {
        self.next_nodes.push(child);
    }
}

} // verus!

verus! {

/// How many board slots are still undealt.
pub open spec fn sentinels(board: Board) -> int {
    (if board[3] == 52 {
        1int
    } else {
        0int
    }) + (if board[4] == 52 {
        1int
    } else {
        0int
    })
}

/// The street the board stands on: 1 before the turn, 2 before the
/// river, 3 with the river out.
pub open spec fn street_of(board: Board) -> int {
    if board[3] == 52 {
        1int
    } else if board[4] == 52 {
        2int
    } else {
        3int
    }
}

/// The saturating step of the per-street bet counter.
pub open spec fn sat_inc(bet_number: u8) -> u8 {
    if bet_number < 255 {
        (bet_number + 1) as u8
    } else {
        255u8
    }
}

/// The pending call at a decision point: the stack difference.
pub open spec fn last_bet_of(a: ActionNode) -> int {
    if a.ip_stack >= a.oop_stack {
        a.ip_stack - a.oop_stack
    } else {
        a.oop_stack - a.ip_stack
    }
}

/// The chips each player keeps behind after the pending call.
pub open spec fn call_stacks_of(a: ActionNode) -> int {
    if a.ip_stack <= a.oop_stack {
        a.ip_stack as int
    } else {
        a.oop_stack as int
    }
}

pub open spec fn max_stack_of(a: ActionNode) -> int {
    if a.ip_stack >= a.oop_stack {
        a.ip_stack as int
    } else {
        a.oop_stack as int
    }
}

/// The pot a fold concedes: the uncalled bet goes back.
pub open spec fn fold_pot_of(a: ActionNode) -> int {
    if a.pot_size >= last_bet_of(a) {
        a.pot_size - last_bet_of(a)
    } else {
        0int
    }
}

/// The sizing a menu fraction asks for: that share of the pot after
/// the call, on top of the call, and always at least one chip beyond
/// the call.
pub open spec fn spec_desired(bet_pct: u32, pot: int, l: int) -> int {
    let d = bet_pct * (pot + l) / 100 + l;
    if d <= l {
        l + 1
    } else {
        d
    }
}

/// The most the acting player can put in: the smaller of their own
/// stack and what the opponent can still match.
pub open spec fn spec_cap(acting: int, opp: int, l: int) -> int {
    if acting <= opp + l {
        acting
    } else {
        opp + l
    }
}

/// The bet actually made for a fraction: the asked-for sizing clipped
/// to the cap.
pub open spec fn spec_final_bet(bet_pct: u32, pot: int, acting: int, opp: int, l: int) -> int {
    let d = spec_desired(bet_pct, pot, l);
    let c = spec_cap(acting, opp, l);
    if d <= c {
        d
    } else {
        c
    }
}

/// Whether the stacks clipped the asked-for sizing.
pub open spec fn spec_clipped(bet_pct: u32, pot: int, acting: int, opp: int, l: int) -> bool {
    spec_final_bet(bet_pct, pot, acting, opp, l) < spec_desired(bet_pct, pot, l)
}

/// The menu actually offered at a spot: the acting player's menu for
/// this bet count, with the all-in cutoff appended once the cutoff
/// multiple of the pot covers the larger stack.
pub open spec fn spec_offered_menu(
    params: GameParams,
    street: u8,
    player: u8,
    bet_number: u8,
    pot: int,
    maxs: int,
) -> Seq<u32> {
    let base = spec_current_bets(params, street, player, bet_number);
    if pot * params.all_in_cut_off >= 100 * maxs && base.len() < 100 {
        base.push(params.all_in_cut_off)
    } else {
        base
    }
}

/// The board after a chance card is dealt on the given street.
pub open spec fn deal(board: Board, street: int, card: u8) -> Board {
    if street == 1 {
        [board[0], board[1], board[2], card, 52u8]
    } else {
        [board[0], board[1], board[2], board[3], card]
    }
}

/// How many hands a player's manager holds for a board, 0 when the
/// board is not stored.
pub open spec fn spec_player_hands(t: Traversal, player: u8, board: Board) -> int {
    if player == 1 {
        if t.ip_rm.has_range(board) {
            t.ip_rm.range_at(board).len() as int
        } else {
            0int
        }
    } else {
        if t.oop_rm.has_range(board) {
            t.oop_rm.range_at(board).len() as int
        } else {
            0int
        }
    }
}

/// A chance node's deal in full: ascending off-board representative
/// cards, class-size weights, nothing missing, and the weights
/// covering every physical card once.
pub open spec fn chance_cards_ok(cards: Seq<u8>, weights: Seq<i8>, board: Board) -> bool {
    &&& cards.len() == weights.len()
    &&& forall|i: int|
        0 <= i < cards.len() ==> !board@.contains(#[trigger] cards[i]) && cards[i] < 52
    &&& forall|i: int, j: int| 0 <= i < j < cards.len() ==> cards[i] < cards[j]
    &&& forall|i: int|
        0 <= i < cards.len() ==> chance_groups(board)[(#[trigger] cards[i]) as int % 4] == cards[i]
            % 4
    &&& forall|i: int|
        0 <= i < weights.len() ==> #[trigger] weights[i] == class_size(
            chance_groups(board),
            cards[i] as int % 4,
        )
    &&& forall|c: u8|
        c < 52 && !board@.contains(c) && chance_groups(board)[c as int % 4] == c % 4
            ==> exists|i: int| 0 <= i < cards.len() && cards[i] == c
    &&& weight_total(weights) == offboard_count(board, 52)
}

/// A child slot holds a decision point of the given shape, itself
/// fully built for its spot.
pub open spec fn action_child_matches(
    n: Node,
    t: Traversal,
    params: GameParams,
    bet_number: u8,
    board: Board,
    player: u8,
    pot: int,
    ip: int,
    oop: int,
) -> bool
    decreases n, 1int,
{
    match n {
        Node::ActionNode(b) => {
            &&& b.player_node == player
            &&& b.pot_size == pot
            &&& b.ip_stack == ip
            &&& b.oop_stack == oop
            &&& action_subtree_ok(b, t, params, bet_number, board)
        },
        _ => false,
    }
}

/// The call-or-check child at slot 0: a showdown when the river play
/// closes, an all-in showdown when no chips remain behind, else a
/// chance node dealing the next street with one fully built
/// out-of-position subgame per canonical card.
pub open spec fn call_check_child_ok(
    a: ActionNode,
    t: Traversal,
    params: GameParams,
    board: Board,
) -> bool
    decreases a, 2int,
{
    let street = street_of(board);
    let l = last_bet_of(a);
    let c = call_stacks_of(a);
    &&& a.next_nodes@.len() >= 1
    &&& if street == 3 {
        match a.next_nodes@[0] {
            Node::ShowdownNode(sd) => sd.pot_size == a.pot_size + l,
            _ => false,
        }
    } else if c == 0 {
        match a.next_nodes@[0] {
            Node::AllInShowdownNode(x) => x.pot_size == a.pot_size + l && x.street == street,
            _ => false,
        }
    } else {
        match a.next_nodes@[0] {
            Node::ChanceNode(ch) => {
                &&& ch.street == street
                &&& ch.parallel == (params.parallel_street == street)
                &&& chance_cards_ok(ch.next_cards@, ch.next_weights@, board)
                &&& ch.next_nodes@.len() == ch.next_cards@.len()
                &&& forall|j: int|
                    0 <= j < ch.next_nodes@.len() ==> action_child_matches(
                        #[trigger] ch.next_nodes@[j],
                        t,
                        params,
                        0,
                        deal(board, street, ch.next_cards@[j]),
                        0,
                        a.pot_size + l,
                        c,
                        c,
                    )
            },
            _ => false,
        }
    }
}

/// The lone check child at an unopened out-of-position spot: play
/// passes to the in-position player with nothing changed.
pub open spec fn open_check_child_ok(
    a: ActionNode,
    t: Traversal,
    params: GameParams,
    board: Board,
) -> bool
    decreases a, 2int,
{
    &&& a.next_nodes@.len() >= 1
    &&& action_child_matches(
        a.next_nodes@[0],
        t,
        params,
        0,
        board,
        1,
        a.pot_size as int,
        a.ip_stack as int,
        a.oop_stack as int,
    )
}

/// The fold child at slot 1: the pot minus the uncalled bet goes to
/// the player who did not just act.
pub open spec fn fold_child_ok(a: ActionNode) -> bool {
    &&& a.next_nodes@.len() >= 2
    &&& match a.next_nodes@[1] {
        Node::TerminalNode(f) => f.pot_size == fold_pot_of(a) && f.player_node == (
        if a.player_node == 0 {
            1u8
        } else {
            0u8
        }),
        _ => false,
    }
}

/// The bet children after the first `g` slots: one child per offered
/// size in order, each moving its clipped sizing from the acting stack
/// into the pot, with the menu cut short exactly after a clipped size.
pub open spec fn bet_children_ok(
    a: ActionNode,
    t: Traversal,
    params: GameParams,
    bet_number: u8,
    g: int,
    board: Board,
) -> bool
    decreases a, 2int,
{
    let street = street_of(board);
    let l = last_bet_of(a);
    let acting = if a.player_node == 1 {
        a.ip_stack as int
    } else {
        a.oop_stack as int
    };
    let opp = if a.player_node == 1 {
        a.oop_stack as int
    } else {
        a.ip_stack as int
    };
    let menu = spec_offered_menu(
        params,
        street as u8,
        a.player_node,
        bet_number,
        a.pot_size as int,
        max_stack_of(a),
    );
    let bets = a.next_nodes@.len() - g;
    &&& 0 <= g <= a.next_nodes@.len()
    &&& bets <= menu.len()
    &&& (menu.len() > 0 ==> bets >= 1)
    &&& (menu.len() == 0 ==> bets == 0)
    &&& forall|k: int|
        0 <= k < bets ==> {
            let fb = spec_final_bet(menu[k], a.pot_size as int, acting, opp, l);
            action_child_matches(
                #[trigger] a.next_nodes@[g + k],
                t,
                params,
                sat_inc(bet_number),
                board,
                if a.player_node == 1 {
                    0u8
                } else {
                    1u8
                },
                a.pot_size + fb,
                if a.player_node == 1 {
                    a.ip_stack - fb
                } else {
                    a.ip_stack as int
                },
                if a.player_node == 1 {
                    a.oop_stack as int
                } else {
                    a.oop_stack - fb
                },
            )
        }
    &&& forall|k: int| 0 <= k < bets - 1 ==> !spec_clipped(menu[k], a.pot_size as int, acting, opp, l)
    &&& (bets < menu.len() ==> bets >= 1 && spec_clipped(
        menu[bets - 1],
        a.pot_size as int,
        acting,
        opp,
        l,
    ))
}

/// A fully built decision point for its spot: correct hand count and
/// child count, the call, check, or fold branches of spec, and one bet
/// branch per offered size, all the way down.
pub open spec fn action_subtree_ok(
    a: ActionNode,
    t: Traversal,
    params: GameParams,
    bet_number: u8,
    board: Board,
) -> bool
    decreases a, 3int,
{
    let open_check = a.player_node == 0 && bet_number == 0;
    let g: int = if open_check {
        1int
    } else if bet_number > 0 {
        2int
    } else {
        1int
    };
    &&& a.player_node <= 1
    &&& a.num_actions == a.next_nodes@.len()
    &&& a.num_hands == spec_player_hands(t, a.player_node, board)
    &&& a.next_nodes@.len() >= g
    &&& (if open_check {
        open_check_child_ok(a, t, params, board)
    } else {
        call_check_child_ok(a, t, params, board)
    })
    &&& (bet_number > 0 ==> fold_child_ok(a))
    &&& (a.ip_stack > 0 && a.oop_stack > 0 ==> bet_children_ok(a, t, params, bet_number, g, board))
    &&& (!(a.ip_stack > 0 && a.oop_stack > 0) ==> a.next_nodes@.len() == g)
}

/// The acting player's configured menu for this street and bet count.
pub open spec fn spec_player_menu(params: GameParams, street: u8, player: u8) -> Seq<Vec<u32>> {
    if street == 1 {
        if player == 0 {
            params.oop_flop_bets@
        } else {
            params.ip_flop_bets@
        }
    } else if street == 2 {
        if player == 0 {
            params.oop_turn_bets@
        } else {
            params.ip_turn_bets@
        }
    } else {
        if player == 0 {
            params.oop_river_bets@
        } else {
            params.ip_river_bets@
        }
    }
}

/// The bet-size menu for a street, an acting player, and the number of
/// bets the street has seen: the acting player's own menu when it
/// covers this bet count, else the single-entry default menu.
pub open spec fn spec_current_bets(params: GameParams, street: u8, player: u8, bet_number: u8) -> Seq<u32> {
    let menu = spec_player_menu(params, street, player);
    let bet = bet_number as int;
    if bet < menu.len() {
        menu[bet]@
    } else {
        params.default_bets@[0]@
    }
}

/// Copies out the menu for this spot.
fn get_current_bets(params: &GameParams, street: u8, player: u8, bet_number: u8) -> (bets: Vec<u32>)
    requires
        params.wf(),
    ensures
        bets@ == spec_current_bets(*params, street, player, bet_number),
        bets@.len() <= 100,
        forall|i: int| 0 <= i < bets@.len() ==> #[trigger] bets@[i] <= 10000,
{
    let bet = bet_number as usize;
    let menu: &Vec<Vec<u32>> = if street == 1 {
        if player == 0 {
            &params.oop_flop_bets
        } else {
            &params.ip_flop_bets
        }
    } else if street == 2 {
        if player == 0 {
            &params.oop_turn_bets
        } else {
            &params.ip_turn_bets
        }
    } else {
        if player == 0 {
            &params.oop_river_bets
        } else {
            &params.ip_river_bets
        }
    };
    let src: &Vec<u32> = if bet < menu.len() {
        &menu[bet]
    } else {
        &params.default_bets[0]
    };
    let mut out: Vec<u32> = Vec::new();
    let mut i: usize = 0;
    while i < src.len()
        invariant
            i <= src@.len(),
            out@.len() == i,
            forall|k: int| 0 <= k < src@.len() ==> #[trigger] src@[k] <= 10000,
            forall|k: int| 0 <= k < i ==> #[trigger] out@[k] == src@[k],
        decreases src@.len() - i,
    {
        out.push(src[i]);
        i += 1;
    }
    proof {
        assert(out@ =~= src@);
    }
    out
}

/// Wires the call-or-check branch and, when a bet is pending, the fold
/// branch.
#[verifier::loop_isolation(false)]
#[verifier::rlimit(100)]
fn create_next_call_check_and_fold_nodes(
    traversal: &Traversal,
    params: &GameParams,
    root: &mut ActionNode,
    bet_number: u8,
    street: u8,
    board: &Board,
)
    requires
        params.wf(),
        crate::range_manager::board_shape_ok(*board),
        street == street_of(*board),
        old(root).pot_size + old(root).ip_stack + old(root).oop_stack <= 0x2000_0000,
        old(root).num_actions == 0,
        old(root).next_nodes@.len() == 0,
        old(root).player_node <= 1,
    ensures
        final(root).num_actions == final(root).next_nodes@.len(),
        final(root).num_actions == (if bet_number > 0 {
            2int
        } else {
            1int
        }),
        final(root).player_node == old(root).player_node,
        final(root).num_hands == old(root).num_hands,
        final(root).pot_size == old(root).pot_size,
        final(root).ip_stack == old(root).ip_stack,
        final(root).oop_stack == old(root).oop_stack,
        call_check_child_ok(*final(root), *traversal, *params, *board),
        bet_number > 0 ==> fold_child_ok(*final(root)),
        forall|i: int|
            0 <= i < final(root).next_nodes@.len() ==> node_wf(
                #[trigger] final(root).next_nodes@[i],
            ),
    decreases sentinels(*board), old(root).ip_stack + old(root).oop_stack, 0int, 0int,
{
    let ghost l = last_bet_of(*old(root));
    let ghost cs = call_stacks_of(*old(root));
    let last_bet_size: u32 = if root.ip_stack >= root.oop_stack {
        root.ip_stack - root.oop_stack
    } else {
        root.oop_stack - root.ip_stack
    };
    let call_stacks: u32 = if root.ip_stack <= root.oop_stack {
        root.ip_stack
    } else {
        root.oop_stack
    };
    if street == 3 {
        let next = ShowdownNode::new(root.pot_size + last_bet_size);
        root.add_child(Node::ShowdownNode(next));
    } else if call_stacks == 0 {
        let next = AllInShowdownNode::new(root.pot_size + last_bet_size, street);
        root.add_child(Node::AllInShowdownNode(next));
    } else {
        let parallel = params.parallel_street == street;
        let mut next = ChanceNode::new(board, street, parallel);
        let num_cards = next.next_cards.len();
        let mut ci: usize = 0;
        while ci < num_cards
            invariant
                params.wf(),
                crate::range_manager::board_shape_ok(*board),
                street == street_of(*board),
                street == 1 || street == 2,
                call_stacks >= 1,
                root.pot_size + last_bet_size + 2 * call_stacks <= 0x2000_0000,
                num_cards == next.next_cards@.len(),
                next.street == street,
                next.parallel == parallel,
                chance_cards_ok(next.next_cards@, next.next_weights@, *board),
                ci <= num_cards,
                next.next_nodes@.len() == ci,
                forall|k: int| 0 <= k < ci ==> node_wf(#[trigger] next.next_nodes@[k]),
                forall|k: int|
                    0 <= k < ci ==> action_child_matches(
                        #[trigger] next.next_nodes@[k],
                        *traversal,
                        *params,
                        0,
                        deal(*board, street as int, next.next_cards@[k]),
                        0,
                        root.pot_size + last_bet_size,
                        call_stacks as int,
                        call_stacks as int,
                    ),
            decreases num_cards - ci,
        {
            let card = next.next_cards[ci];
            let new_board: Board = if street == 1 {
                [board[0], board[1], board[2], card, 52]
            } else {
                [board[0], board[1], board[2], board[3], card]
            };
            proof {
                assert(new_board == deal(*board, street as int, next.next_cards@[ci as int]));
            }
            let nh = traversal.num_hands_or_zero(0, &new_board);
            let mut next_game_node = ActionNode::new(
                0,
                nh,
                root.pot_size + last_bet_size,
                call_stacks,
                call_stacks,
            );
            add_successor_nodes(traversal, params, &mut next_game_node, 0, &new_board);
            proof {
                assert(node_wf(Node::ActionNode(next_game_node)));
                assert(action_child_matches(
                    Node::ActionNode(next_game_node),
                    *traversal,
                    *params,
                    0,
                    new_board,
                    0,
                    root.pot_size + last_bet_size,
                    call_stacks as int,
                    call_stacks as int,
                ));
            }
            next.add_next_node(Node::ActionNode(next_game_node));
            ci += 1;
        }
        proof {
            assert(node_wf(Node::ChanceNode(next)));
        }
        root.add_child(Node::ChanceNode(next));
    }
    proof {
        assert(last_bet_size == l && call_stacks == cs);
        assert(call_check_child_ok(*root, *traversal, *params, *board));
    }
    if bet_number > 0 {
        let fold_pot: u32 = if root.pot_size >= last_bet_size {
            root.pot_size - last_bet_size
        } else {
            0
        };
        let winner: u8 = if root.player_node == 0 {
            1
        } else {
            0
        };
        let fold = TerminalNode::new(fold_pot, winner);
        root.add_child(Node::TerminalNode(fold));
        proof {
            assert(fold_pot == fold_pot_of(*root));
            assert(fold_child_ok(*root));
            assert(call_check_child_ok(*root, *traversal, *params, *board));
        }
    }
}

/// Wires the lone check branch at an unopened out-of-position spot.
fn create_check_to_ip_node(
    traversal: &Traversal,
    params: &GameParams,
    root: &mut ActionNode,
    board: &Board,
)
    requires
        params.wf(),
        crate::range_manager::board_shape_ok(*board),
        old(root).player_node == 0,
        old(root).pot_size + old(root).ip_stack + old(root).oop_stack <= 0x2000_0000,
        old(root).num_actions == 0,
        old(root).next_nodes@.len() == 0,
    ensures
        final(root).num_actions == final(root).next_nodes@.len(),
        final(root).num_actions == 1,
        final(root).player_node == old(root).player_node,
        final(root).num_hands == old(root).num_hands,
        final(root).pot_size == old(root).pot_size,
        final(root).ip_stack == old(root).ip_stack,
        final(root).oop_stack == old(root).oop_stack,
        open_check_child_ok(*final(root), *traversal, *params, *board),
        forall|i: int|
            0 <= i < final(root).next_nodes@.len() ==> node_wf(
                #[trigger] final(root).next_nodes@[i],
            ),
    decreases sentinels(*board), old(root).ip_stack + old(root).oop_stack, 1int, 0int,
{
    let nh = traversal.num_hands_or_zero(1, board);
    let mut next = ActionNode::new(1, nh, root.pot_size, root.ip_stack, root.oop_stack);
    add_successor_nodes(traversal, params, &mut next, 0, board);
    proof {
        assert(node_wf(Node::ActionNode(next)));
        assert(action_child_matches(
            Node::ActionNode(next),
            *traversal,
            *params,
            0,
            *board,
            1,
            root.pot_size as int,
            root.ip_stack as int,
            root.oop_stack as int,
        ));
    }
    root.add_child(Node::ActionNode(next));
}

/// Wires one child per configured bet size, clipping to the stacks and
/// ending the menu after a clipped size.
#[verifier::loop_isolation(false)]
#[verifier::rlimit(100)]
fn create_next_bet_nodes(
    traversal: &Traversal,
    params: &GameParams,
    root: &mut ActionNode,
    bet_number: u8,
    street: u8,
    board: &Board,
)
    requires
        params.wf(),
        crate::range_manager::board_shape_ok(*board),
        street == street_of(*board),
        old(root).ip_stack >= 1,
        old(root).oop_stack >= 1,
        old(root).player_node <= 1,
        old(root).pot_size + old(root).ip_stack + old(root).oop_stack <= 0x2000_0000,
        old(root).num_actions == old(root).next_nodes@.len(),
        old(root).num_actions < 1000,
    ensures
        final(root).num_actions == final(root).next_nodes@.len(),
        final(root).num_actions >= old(root).num_actions,
        final(root).num_actions <= old(root).num_actions + 102,
        final(root).player_node == old(root).player_node,
        final(root).num_hands == old(root).num_hands,
        final(root).pot_size == old(root).pot_size,
        final(root).ip_stack == old(root).ip_stack,
        final(root).oop_stack == old(root).oop_stack,
        forall|i: int|
            0 <= i < old(root).next_nodes@.len() ==> #[trigger] final(root).next_nodes@[i] == old(
                root,
            ).next_nodes@[i],
        forall|i: int|
            old(root).next_nodes@.len() <= i < final(root).next_nodes@.len() ==> node_wf(
                #[trigger] final(root).next_nodes@[i],
            ),
        bet_children_ok(
            *final(root),
            *traversal,
            *params,
            bet_number,
            old(root).next_nodes@.len() as int,
            *board,
        ),
    decreases sentinels(*board), old(root).ip_stack + old(root).oop_stack, 0int, 0int,
{
    let ghost g = old(root).next_nodes@.len() as int;
    let ghost l = last_bet_of(*old(root));
    let ghost acting_g = if old(root).player_node == 1 {
        old(root).ip_stack as int
    } else {
        old(root).oop_stack as int
    };
    let ghost opp_g = if old(root).player_node == 1 {
        old(root).oop_stack as int
    } else {
        old(root).ip_stack as int
    };
    let max_stack: u32 = if root.ip_stack >= root.oop_stack {
        root.ip_stack
    } else {
        root.oop_stack
    };
    let mut current_bets = get_current_bets(params, street, root.player_node, bet_number);
    let extended: bool = {
        proof {
            assert((root.pot_size as int) * (params.all_in_cut_off as int) <= 0x2000_0000int
                * 100000int) by (nonlinear_arith)
                requires
                    0 <= root.pot_size <= 0x2000_0000,
                    0 <= params.all_in_cut_off <= 100000,
            ;
        }
        let product: u64 = (root.pot_size as u64) * (params.all_in_cut_off as u64);
        product >= 100 * (max_stack as u64)
    };
    if extended {
        if current_bets.len() < 100 {
            current_bets.push(params.all_in_cut_off);
        }
    }
    let ghost menu = spec_offered_menu(
        *params,
        street,
        old(root).player_node,
        bet_number,
        old(root).pot_size as int,
        max_stack_of(*old(root)),
    );
    proof {
        assert(current_bets@ =~= menu);
    }
    let mut bi: usize = 0;
    let mut clipped: bool = false;
    while bi < current_bets.len() && !clipped
        invariant
            params.wf(),
            crate::range_manager::board_shape_ok(*board),
            street == street_of(*board),
            bi <= current_bets@.len(),
            current_bets@.len() <= 101,
            current_bets@ == menu,
            forall|k: int| 0 <= k < current_bets@.len() ==> #[trigger] current_bets@[k] <= 100000,
            root.ip_stack == old(root).ip_stack,
            root.oop_stack == old(root).oop_stack,
            root.pot_size == old(root).pot_size,
            root.player_node == old(root).player_node,
            root.num_hands == old(root).num_hands,
            root.ip_stack >= 1,
            root.oop_stack >= 1,
            root.pot_size + root.ip_stack + root.oop_stack <= 0x2000_0000,
            root.num_actions == root.next_nodes@.len(),
            root.num_actions == old(root).num_actions + bi,
            forall|i: int|
                0 <= i < old(root).next_nodes@.len() ==> #[trigger] root.next_nodes@[i] == old(
                    root,
                ).next_nodes@[i],
            forall|i: int|
                old(root).next_nodes@.len() <= i < root.next_nodes@.len() ==> node_wf(
                    #[trigger] root.next_nodes@[i],
                ),
            forall|k: int|
                0 <= k < bi ==> {
                    let fb = spec_final_bet(menu[k], root.pot_size as int, acting_g, opp_g, l);
                    action_child_matches(
                        #[trigger] root.next_nodes@[g + k],
                        *traversal,
                        *params,
                        sat_inc(bet_number),
                        *board,
                        if root.player_node == 1 {
                            0u8
                        } else {
                            1u8
                        },
                        root.pot_size + fb,
                        if root.player_node == 1 {
                            root.ip_stack - fb
                        } else {
                            root.ip_stack as int
                        },
                        if root.player_node == 1 {
                            root.oop_stack as int
                        } else {
                            root.oop_stack - fb
                        },
                    )
                },
            clipped ==> bi > 0 && spec_clipped(
                menu[bi - 1],
                root.pot_size as int,
                acting_g,
                opp_g,
                l,
            ),
            !clipped ==> forall|k: int|
                0 <= k < bi ==> !spec_clipped(
                    #[trigger] menu[k],
                    root.pot_size as int,
                    acting_g,
                    opp_g,
                    l,
                ),
            forall|k: int|
                0 <= k < bi - 1 ==> !spec_clipped(
                    #[trigger] menu[k],
                    root.pot_size as int,
                    acting_g,
                    opp_g,
                    l,
                ),
        decreases current_bets@.len() - bi,
    {
        let bet_size = current_bets[bi];
        let last_bet: u32 = if root.oop_stack >= root.ip_stack {
            root.oop_stack - root.ip_stack
        } else {
            root.ip_stack - root.oop_stack
        };
        proof {
            assert(last_bet == l);
            assert((bet_size as int) * ((root.pot_size + last_bet) as int) <= 100000int
                * 0x4000_0000int) by (nonlinear_arith)
                requires
                    0 <= bet_size <= 100000,
                    0 <= root.pot_size + last_bet <= 0x4000_0000,
            ;
        }
        let desired: u64 = (bet_size as u64) * ((root.pot_size + last_bet) as u64) / 100 + (
        last_bet as u64);
        // A raise always moves at least one chip beyond the call.
        let desired: u64 = if desired <= last_bet as u64 {
            last_bet as u64 + 1
        } else {
            desired
        };
        proof {
            assert(desired == spec_desired(menu[bi as int], root.pot_size as int, l));
        }
        if root.player_node == 1 {
            let cap: u64 = if (root.ip_stack as u64) <= (root.oop_stack as u64) + (
            last_bet as u64) {
                root.ip_stack as u64
            } else {
                root.oop_stack as u64 + last_bet as u64
            };
            let final_bet_size: u32 = if desired <= cap {
                desired as u32
            } else {
                cap as u32
            };
            proof {
                assert(cap == spec_cap(acting_g, opp_g, l));
                assert(final_bet_size == spec_final_bet(
                    menu[bi as int],
                    root.pot_size as int,
                    acting_g,
                    opp_g,
                    l,
                ));
            }
            let nh = traversal.num_hands_or_zero(0, board);
            let mut next = ActionNode::new(
                0,
                nh,
                root.pot_size + final_bet_size,
                root.ip_stack - final_bet_size,
                root.oop_stack,
            );
            let next_bet_number: u8 = if bet_number < 255 {
                bet_number + 1
            } else {
                255
            };
            add_successor_nodes(traversal, params, &mut next, next_bet_number, board);
            proof {
                assert(node_wf(Node::ActionNode(next)));
                assert(next_bet_number == sat_inc(bet_number));
                assert(action_child_matches(
                    Node::ActionNode(next),
                    *traversal,
                    *params,
                    sat_inc(bet_number),
                    *board,
                    0u8,
                    root.pot_size + final_bet_size,
                    root.ip_stack - final_bet_size,
                    root.oop_stack as int,
                ));
            }
            root.add_child(Node::ActionNode(next));
            if (final_bet_size as u64) < desired {
                clipped = true;
            }
            proof {
                assert(((final_bet_size as u64) < desired) == spec_clipped(
                    menu[bi as int],
                    root.pot_size as int,
                    acting_g,
                    opp_g,
                    l,
                ));
            }
        } else {
            let cap: u64 = if (root.oop_stack as u64) <= (root.ip_stack as u64) + (
            last_bet as u64) {
                root.oop_stack as u64
            } else {
                root.ip_stack as u64 + last_bet as u64
            };
            let final_bet_size: u32 = if desired <= cap {
                desired as u32
            } else {
                cap as u32
            };
            proof {
                assert(cap == spec_cap(acting_g, opp_g, l));
                assert(final_bet_size == spec_final_bet(
                    menu[bi as int],
                    root.pot_size as int,
                    acting_g,
                    opp_g,
                    l,
                ));
            }
            let nh = traversal.num_hands_or_zero(1, board);
            let mut next = ActionNode::new(
                1,
                nh,
                root.pot_size + final_bet_size,
                root.ip_stack,
                root.oop_stack - final_bet_size,
            );
            let next_bet_number: u8 = if bet_number < 255 {
                bet_number + 1
            } else {
                255
            };
            add_successor_nodes(traversal, params, &mut next, next_bet_number, board);
            proof {
                assert(node_wf(Node::ActionNode(next)));
                assert(next_bet_number == sat_inc(bet_number));
                assert(action_child_matches(
                    Node::ActionNode(next),
                    *traversal,
                    *params,
                    sat_inc(bet_number),
                    *board,
                    1u8,
                    root.pot_size + final_bet_size,
                    root.ip_stack as int,
                    root.oop_stack - final_bet_size,
                ));
            }
            root.add_child(Node::ActionNode(next));
            if (final_bet_size as u64) < desired {
                clipped = true;
            }
            proof {
                assert(((final_bet_size as u64) < desired) == spec_clipped(
                    menu[bi as int],
                    root.pot_size as int,
                    acting_g,
                    opp_g,
                    l,
                ));
            }
        }
        bi += 1;
    }
    proof {
        assert(bet_children_ok(*root, *traversal, *params, bet_number, g, *board));
    }
}

/// Fills a decision point with its successors: the call, check, or
/// fold branches and one branch per legal bet size, recursively, so
/// the whole subtree below it is of spec.
fn add_successor_nodes(
    traversal: &Traversal,
    params: &GameParams,
    root: &mut ActionNode,
    bet_number: u8,
    board: &Board,
)
    requires
        params.wf(),
        crate::range_manager::board_shape_ok(*board),
        old(root).player_node <= 1,
        old(root).pot_size + old(root).ip_stack + old(root).oop_stack <= 0x2000_0000,
        old(root).num_actions == 0,
        old(root).next_nodes@.len() == 0,
        old(root).num_hands as int == spec_player_hands(
            *traversal,
            old(root).player_node,
            *board,
        ),
    ensures
        final(root).num_actions == final(root).next_nodes@.len(),
        final(root).num_actions >= 1,
        final(root).player_node == old(root).player_node,
        final(root).num_hands == old(root).num_hands,
        final(root).pot_size == old(root).pot_size,
        final(root).ip_stack == old(root).ip_stack,
        final(root).oop_stack == old(root).oop_stack,
        node_wf(Node::ActionNode(*final(root))),
        action_subtree_ok(*final(root), *traversal, *params, bet_number, *board),
    decreases sentinels(*board), old(root).ip_stack + old(root).oop_stack, (if old(root).player_node
        == 0 && bet_number == 0 {
        1int
    } else {
        0int
    }), 1int,
{
    let street: u8 = if board[3] == 52 {
        1
    } else if board[4] == 52 {
        2
    } else {
        3
    };
    let ghost g: int = if old(root).player_node == 0 && bet_number == 0 {
        1int
    } else if bet_number > 0 {
        2int
    } else {
        1int
    };
    if root.player_node == 1 || bet_number > 0 {
        create_next_call_check_and_fold_nodes(traversal, params, root, bet_number, street, board);
    } else {
        create_check_to_ip_node(traversal, params, root, board);
    }
    proof {
        assert(root.next_nodes@.len() == g);
    }
    let ghost mid = *root;
    if root.oop_stack > 0 && root.ip_stack > 0 {
        create_next_bet_nodes(traversal, params, root, bet_number, street, board);
        proof {
            assert(root.next_nodes@[0] == mid.next_nodes@[0]);
            if g == 2 {
                assert(root.next_nodes@[1] == mid.next_nodes@[1]);
            }
            if root.player_node == 0 && bet_number == 0 {
                assert(open_check_child_ok(*root, *traversal, *params, *board));
            } else {
                assert(call_check_child_ok(*root, *traversal, *params, *board));
            }
            if bet_number > 0 {
                assert(fold_child_ok(*root));
            }
        }
    }
    proof {
        assert(action_subtree_ok(*root, *traversal, *params, bet_number, *board));
    }
}

/// Builds the betting tree of a game: the out-of-position player acts
/// first at the root with the starting pot and stacks, and every node
/// below follows the street, stack, and menu rules.
pub fn construct_tree(traversal: &Traversal, params: &GameParams, board: &Board) -> (root:
    ActionNode)
    requires
        params.wf(),
        crate::range_manager::board_shape_ok(*board),
    ensures
        root.player_node == 0,
        root.pot_size == params.starting_pot,
        root.ip_stack == params.starting_stack,
        root.oop_stack == params.starting_stack,
        root.num_hands as int == spec_player_hands(*traversal, 0, *board),
        root.num_actions == root.next_nodes@.len(),
        root.num_actions >= 1,
        node_wf(Node::ActionNode(root)),
        action_subtree_ok(root, *traversal, *params, 0, *board),
{
    let nh = traversal.num_hands_or_zero(0, board);
    let mut root = ActionNode::new(
        0,
        nh,
        params.starting_pot,
        params.starting_stack,
        params.starting_stack,
    );
    add_successor_nodes(traversal, params, &mut root, 0, board);
    root
}

} // verus!

verus! {

/// The total of a weight list.
pub open spec fn weight_total(ws: Seq<i8>) -> int
    decreases ws.len(),
{
    if ws.len() == 0 {
        0int
    } else {
        weight_total(ws.drop_last()) + ws.last()
    }
}

/// How many cards below `n` are off the board.
pub open spec fn offboard_count(board: Board, n: int) -> int
    decreases n,
{
    if n <= 0 {
        0int
    } else {
        offboard_count(board, n - 1) + (if board@.contains((n - 1) as u8) {
            0int
        } else {
            1int
        })
    }
}

/// The class-size-weighted count of off-board representative cards
/// below `n`.
pub open spec fn rep_weight_sum(board: Board, cg: Seq<u8>, n: int) -> int
    decreases n,
{
    if n <= 0 {
        0int
    } else {
        rep_weight_sum(board, cg, n - 1) + (if !board@.contains((n - 1) as u8) && cg[(n - 1)
            % 4] == ((n - 1) % 4) as u8 {
            class_size(cg, (n - 1) % 4)
        } else {
            0int
        })
    }
}

/// Each suit's chance group shares its whole-board rank mask, and a
/// group is its own group.
proof fn lemma_chance_group_props(board: Board, s: int)
    requires
        0 <= s < 4,
    ensures
        crate::isomorphism::suit_mask(board, chance_groups(board)[s] as int)
            == crate::isomorphism::suit_mask(board, s),
        chance_groups(board)[chance_groups(board)[s] as int] == chance_groups(board)[s],
        0 <= chance_groups(board)[s] <= s,
{
    let cg = chance_groups(board);
    if board[3] != 52 {
        let flop_only: Board = [board[0], board[1], board[2], 52u8, 52u8];
        let fg = Seq::new(4, |i: int| crate::isomorphism::spec_initial_group(flop_only, i) as u8);
        crate::isomorphism::lemma_first_same_mask_and_prior_props(board, fg, s, 0);
        crate::isomorphism::lemma_next_group_idempotent(board, fg, s);
        let g = crate::isomorphism::spec_next_group(board, fg, s) as int;
        crate::isomorphism::lemma_first_same_mask_and_prior_props(board, fg, g, 0);
    } else {
        crate::isomorphism::lemma_first_same_mask_props(board, s, 0);
        crate::isomorphism::lemma_initial_group_idempotent(board, s);
        let g = crate::isomorphism::spec_initial_group(board, s) as int;
        crate::isomorphism::lemma_first_same_mask_props(board, g, 0);
    }
}

/// One suit row at a time: the weighted representatives of the row
/// cover exactly its off-board cards.
proof fn lemma_row_weights_cover(board: Board, r: int)
    requires
        crate::isomorphism::board_wf(board),
        0 <= r < 13,
    ensures
        rep_weight_sum(board, chance_groups(board), 4 * r + 4) == rep_weight_sum(
            board,
            chance_groups(board),
            4 * r,
        ) + (offboard_count(board, 4 * r + 4) - offboard_count(board, 4 * r)),
{
    let cg = chance_groups(board);
    lemma_chance_group_props(board, 0);
    lemma_chance_group_props(board, 1);
    lemma_chance_group_props(board, 2);
    lemma_chance_group_props(board, 3);
    assert forall|s: int| 0 <= s < 4 implies (#[trigger] board@.contains((4 * r + s) as u8)
        <==> board@.contains((4 * r + cg[s]) as u8)) by {
        crate::isomorphism::lemma_equal_masks_equal_blocking(board, s, cg[s] as int, r);
    }
    assert((4 * r + 0) % 4 == 0 && (4 * r + 1) % 4 == 1 && (4 * r + 2) % 4 == 2 && (4 * r + 3) % 4
        == 3) by (nonlinear_arith);
    let b0 = !board@.contains((4 * r + 0) as u8);
    let b1 = !board@.contains((4 * r + 1) as u8);
    let b2 = !board@.contains((4 * r + 2) as u8);
    let b3 = !board@.contains((4 * r + 3) as u8);
    let t0 = if b0 && cg[0] == 0u8 {
        class_size(cg, 0)
    } else {
        0int
    };
    let t1 = if b1 && cg[1] == 1u8 {
        class_size(cg, 1)
    } else {
        0int
    };
    let t2 = if b2 && cg[2] == 2u8 {
        class_size(cg, 2)
    } else {
        0int
    };
    let t3 = if b3 && cg[3] == 3u8 {
        class_size(cg, 3)
    } else {
        0int
    };
    assert(rep_weight_sum(board, cg, 4 * r + 1) == rep_weight_sum(board, cg, 4 * r) + t0);
    assert(rep_weight_sum(board, cg, 4 * r + 2) == rep_weight_sum(board, cg, 4 * r + 1) + t1);
    assert(rep_weight_sum(board, cg, 4 * r + 3) == rep_weight_sum(board, cg, 4 * r + 2) + t2);
    assert(rep_weight_sum(board, cg, 4 * r + 4) == rep_weight_sum(board, cg, 4 * r + 3) + t3);
    let u0: int = if b0 {
        1
    } else {
        0
    };
    let u1: int = if b1 {
        1
    } else {
        0
    };
    let u2: int = if b2 {
        1
    } else {
        0
    };
    let u3: int = if b3 {
        1
    } else {
        0
    };
    assert(offboard_count(board, 4 * r + 1) == offboard_count(board, 4 * r) + u0);
    assert(offboard_count(board, 4 * r + 2) == offboard_count(board, 4 * r + 1) + u1);
    assert(offboard_count(board, 4 * r + 3) == offboard_count(board, 4 * r + 2) + u2);
    assert(offboard_count(board, 4 * r + 4) == offboard_count(board, 4 * r + 3) + u3);
    // Each suit's card is covered exactly once, by its representative.
    assert(cg[0] == 0u8);
    assert(t0 + t1 + t2 + t3 == u0 + u1 + u2 + u3) by {
        if cg[1] == 0u8 {
            assert(b1 == b0);
        }
        if cg[2] == 0u8 {
            assert(b2 == b0);
        }
        if cg[2] == 1u8 {
            assert(b2 == b1);
        }
        if cg[3] == 0u8 {
            assert(b3 == b0);
        }
        if cg[3] == 1u8 {
            assert(b3 == b1);
        }
        if cg[3] == 2u8 {
            assert(b3 == b2);
        }
    }
}

/// The chance weights conserve the physical deck: summed over the
/// representatives they count every off-board card once.
pub proof fn lemma_rep_weights_cover_deck(board: Board, n: int)
    requires
        crate::isomorphism::board_wf(board),
        0 <= n <= 13,
    ensures
        rep_weight_sum(board, chance_groups(board), 4 * n) == offboard_count(board, 4 * n),
    decreases n,
{
    if n > 0 {
        lemma_rep_weights_cover_deck(board, n - 1);
        lemma_row_weights_cover(board, n - 1);
    }
}

} // verus!
