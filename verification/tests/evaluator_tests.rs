use postflop_cfr::cards::{Board, card_to_number};
use postflop_cfr::evaluator::eval7;

fn c(s: &str) -> u8 {
    card_to_number(s.to_string())
}

#[test]
fn test_eval7_categories() {
    let board: Board = [c("2c"), c("7d"), c("9h"), c("jc"), c("4s")];
    // High card.
    let high = eval7(&board, [c("ah"), c("kd")]);
    // Pair of aces.
    let pair = eval7(&board, [c("ah"), c("as")]);
    // Two pair, jacks and nines.
    let two = eval7(&board, [c("js"), c("9c")]);
    // Trip jacks.
    let trips = eval7(&board, [c("js"), c("jd")]);
    assert_eq!(high >> 20, 1);
    assert_eq!(pair >> 20, 2);
    assert_eq!(two >> 20, 3);
    assert_eq!(trips >> 20, 4);
    assert!(high < pair && pair < two && two < trips);

    let straight_board: Board = [c("5c"), c("6d"), c("7h"), c("kc"), c("2s")];
    let straight = eval7(&straight_board, [c("8s"), c("9d")]);
    let wheel_board: Board = [c("2c"), c("3d"), c("4h"), c("kc"), c("9s")];
    let wheel = eval7(&wheel_board, [c("ah"), c("5s")]);
    assert_eq!(straight >> 20, 5);
    assert_eq!(wheel >> 20, 5);
    assert!(wheel < straight);

    let flush_board: Board = [c("2h"), c("9h"), c("jh"), c("4c"), c("8d")];
    let flush = eval7(&flush_board, [c("ah"), c("3h")]);
    assert_eq!(flush >> 20, 6);

    let boat_board: Board = [c("9c"), c("9d"), c("4h"), c("4c"), c("kc")];
    let boat = eval7(&boat_board, [c("9h"), c("2d")]);
    assert_eq!(boat >> 20, 7);

    let quads = eval7(&boat_board, [c("4d"), c("4s")]);
    assert_eq!(quads >> 20, 8);

    let sf_board: Board = [c("5h"), c("6h"), c("7h"), c("kc"), c("2s")];
    let sf = eval7(&sf_board, [c("8h"), c("9h")]);
    assert_eq!(sf >> 20, 9);
    assert!(straight < flush && flush < boat && boat < quads && quads < sf);
}

#[test]
fn test_eval7_kickers_order() {
    let board: Board = [c("2c"), c("7d"), c("9h"), c("jc"), c("4s")];
    // Both hold a pair of jacks; the ace kicker must win.
    let with_ace = eval7(&board, [c("js"), c("ad")]);
    let with_king = eval7(&board, [c("jd"), c("kd")]);
    assert!(with_ace > with_king);
    // Equal hands evaluate equal regardless of suits.
    let a = eval7(&board, [c("as"), c("kd")]);
    let b = eval7(&board, [c("ad"), c("ks")]);
    assert_eq!(a, b);
}
