use postflop_cfr::cards::Board;
use postflop_cfr::tree::{construct_tree, GameParams, Node, NodeResultType};
use postflop_cfr::traversal::build_traversal_from_ranges;

fn params() -> GameParams {
    GameParams::new(
        1,
        60,
        1000,
        2000,
        75,
        vec![vec![75]],
        vec![vec![75]],
        vec![vec![75]],
        vec![vec![75]],
        vec![vec![75]],
        vec![vec![75]],
    )
}

#[test]
fn test_tree_root_shape() {
    let board: Board = [44, 22, 1, 52, 52];
    let t = build_traversal_from_ranges(board, "QQ,JJ", "random");
    let root = construct_tree(&t, &params(), &board);
    assert_eq!(root.player_node, 0);
    assert_eq!(root.pot_size, 60);
    assert_eq!(root.ip_stack, 1000);
    assert_eq!(root.oop_stack, 1000);
    // Unopened out-of-position spot: a check, the configured bet, and
    // the all-in appended once the cutoff multiple covers the stacks.
    assert_eq!(root.num_actions, 3);
    assert_eq!(root.num_actions, root.next_nodes.len());
    match &root.next_nodes[0] {
        Node::ActionNode(check) => {
            assert_eq!(check.player_node, 1);
            assert_eq!(check.pot_size, 60);
        },
        _ => panic!("the check branch should reach the other player"),
    }
    match &root.next_nodes[1] {
        Node::ActionNode(bet) => {
            assert_eq!(bet.player_node, 1);
            // Three quarters of the 60-chip pot.
            assert_eq!(bet.pot_size, 60 + 45);
            assert_eq!(bet.oop_stack, 1000 - 45);
            assert_eq!(bet.ip_stack, 1000);
        },
        _ => panic!("the bet branch should reach the other player"),
    }
    match &root.next_nodes[2] {
        Node::ActionNode(shove) => {
            // Twenty times the pot clips to the stack: an all-in.
            assert_eq!(shove.oop_stack, 0);
            assert_eq!(shove.pot_size, 60 + 1000);
        },
        _ => panic!("the all-in branch should reach the other player"),
    }
}

#[test]
fn test_tree_river_closes_to_showdown() {
    let board: Board = [44, 22, 1, 30, 15];
    let t = build_traversal_from_ranges(board, "QQ,JJ", "random");
    let root = construct_tree(&t, &params(), &board);
    // Follow check, check: the street closes into a showdown.
    match &root.next_nodes[0] {
        Node::ActionNode(ip) => match &ip.next_nodes[0] {
            Node::ShowdownNode(s) => assert_eq!(s.pot_size, 60),
            _ => panic!("check behind should close the river"),
        },
        _ => panic!("the check branch should reach the other player"),
    }
}

#[test]
fn test_tree_fold_branch() {
    let board: Board = [44, 22, 1, 30, 15];
    let t = build_traversal_from_ranges(board, "QQ,JJ", "random");
    let root = construct_tree(&t, &params(), &board);
    // Follow the out-of-position bet; the in-position reply must hold
    // call and fold branches, the fold paying the bettor the old pot.
    match &root.next_nodes[1] {
        Node::ActionNode(ip) => {
            assert_eq!(ip.pot_size, 105);
            let mut saw_fold = false;
            for child in ip.next_nodes.iter() {
                match child {
                    Node::TerminalNode(fold) => {
                        assert_eq!(fold.pot_size, 60);
                        assert_eq!(fold.player_node, 0);
                        saw_fold = true;
                    },
                    _ => {},
                }
            }
            assert!(saw_fold);
        },
        _ => panic!("the bet branch should reach the other player"),
    }
}

#[test]
fn test_tree_flop_chance_wiring() {
    let board: Board = [44, 22, 1, 52, 52];
    let t = build_traversal_from_ranges(board, "QQ,JJ", "random");
    let root = construct_tree(&t, &params(), &board);
    // Check, check: a turn chance node with one child per next card.
    match &root.next_nodes[0] {
        Node::ActionNode(ip) => match &ip.next_nodes[0] {
            Node::ChanceNode(chance) => {
                assert_eq!(chance.street, 1);
                assert!(chance.parallel);
                assert_eq!(chance.next_nodes.len(), chance.next_cards.len());
                assert_eq!(chance.next_cards.len(), 49);
            },
            _ => panic!("checking through should deal the turn"),
        },
        _ => panic!("the check branch should reach the other player"),
    }
}

#[test]
fn test_node_result_kinds_differ() {
    assert_eq!(NodeResultType::Action, NodeResultType::Action);
    assert_ne!(NodeResultType::Action, NodeResultType::Chance);
}

#[test]
fn test_tree_all_in_collapses_runouts() {
    // Matching all-in stacks before the river: the call closes into an
    // all-in showdown that still deals the remaining streets.
    let board: Board = [44, 22, 1, 30, 52];
    let t = build_traversal_from_ranges(board, "QQ,JJ", "random");
    let p = GameParams::new(
        2,
        100,
        50,
        2000,
        100,
        vec![vec![100]],
        vec![vec![100]],
        vec![vec![100]],
        vec![vec![100]],
        vec![vec![100]],
        vec![vec![100]],
    );
    let root = construct_tree(&t, &p, &board);
    // Out-of-position shoves 50 into 100; the reply holds the call.
    let shove = match &root.next_nodes[1] {
        Node::ActionNode(ip) => ip,
        _ => panic!("the bet branch should reach the other player"),
    };
    assert_eq!(shove.oop_stack, 0);
    let mut saw_all_in = false;
    for child in shove.next_nodes.iter() {
        if let Node::AllInShowdownNode(a) = child {
            assert_eq!(a.street, 2);
            assert_eq!(a.pot_size, 200);
            saw_all_in = true;
        }
    }
    assert!(saw_all_in);
}
