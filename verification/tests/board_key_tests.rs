use postflop_cfr::cards::Board;
use postflop_cfr::range_manager::get_key;

#[test]
fn test_get_key1() {
    let board: Board = [2, 6, 20, 52, 52];
    assert_eq!(get_key(&board), 307210000);
}

#[test]
fn test_get_key2() {
    let board: Board = [2, 6, 20, 12, 52];
    assert_eq!(get_key(&board), 307211300);
}

#[test]
fn test_get_key3() {
    let board: Board = [2, 6, 20, 12, 40];
    assert_eq!(get_key(&board), 307211341);
}
