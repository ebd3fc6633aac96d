//! Card encoding and board utilities.
//!
//! A card is a `u8` in `0..52`, encoded as `4 * rank + suit`.
//! Ranks `0..13` stand for deuce through ace; suits `0..4` stand for
//! clubs, diamonds, hearts and spades.  The value 52 is a sentinel that
//! marks an absent card (an undealt turn or river slot on a board).
use vstd::prelude::*;

verus! {

/// A hole-card pair, stored with `hand[0] < hand[1]`.
pub type Hand = [u8; 2];

/// The five community-card slots: three flop cards, then the turn and
/// river slots, which hold 52 while undealt.
pub type Board = [u8; 5];

/// The sentinel value marking an absent card.
pub const ABSENT_CARD: u8 = 52;

/// The suit of a card: `card % 4`.
pub fn get_suit(card: u8) -> (s: u8)
    ensures
        s == card % 4,
{
    card % 4
}

/// The rank of a card: `card / 4`.
pub fn get_rank(card: u8) -> (r: u8)
    ensures
        r == card / 4,
{
    card / 4
}

/// True when the board's turn slot is dealt.
pub fn board_has_turn(board: &Board) -> (b: bool)
    ensures
        b == (board@[3] != 52),
{
    board[3] != 52
}

/// True when the board's river slot is dealt.
pub fn board_has_river(board: &Board) -> (b: bool)
    ensures
        b == (board@[4] != 52),
{
    board[4] != 52
}

/// True when `card` occupies one of the board's five slots.
pub fn check_card_overlap(card: u8, board: &Board) -> (b: bool)
    ensures
        b == board@.contains(card),
{
    let b = board[0] == card || board[1] == card || board[2] == card || board[3] == card
        || board[4] == card;
    proof {
        if b {
            assert(board@.contains(card));
        } else {
            assert(forall|i: int| 0 <= i < 5 ==> board@[i] != card);
        }
    }
    b
}

/// True when either card of `hand` lies on the board.
pub fn check_hand_overlap(hand: Hand, board: &Board) -> (b: bool)
    ensures
        b == (board@.contains(hand[0]) || board@.contains(hand[1])),
{
    let o0 = check_card_overlap(hand[0], board);
    let o1 = check_card_overlap(hand[1], board);
    o0 || o1
}

/// Whether two hands share a card.
pub open spec fn hands_overlap(h1: Hand, h2: Hand) -> bool {
    h1[0] == h2[0] || h1[0] == h2[1] || h1[1] == h2[0] || h1[1] == h2[1]
}

/// True when the two hands share a card.
pub fn check_hands_overlap(hand1: &Hand, hand2: &Hand) -> (b: bool)
    ensures
        b == hands_overlap(*hand1, *hand2),
{
    hand1[0] == hand2[0] || hand1[0] == hand2[1] || hand1[1] == hand2[0] || hand1[1] == hand2[1]
}

/// The rank denoted by a card character, accepting both cases.
pub open spec fn spec_rank_of_char(c: char) -> Option<u8> {
    match c {
        '2' => Some(0u8),
        '3' => Some(1u8),
        '4' => Some(2u8),
        '5' => Some(3u8),
        '6' => Some(4u8),
        '7' => Some(5u8),
        '8' => Some(6u8),
        '9' => Some(7u8),
        't' | 'T' => Some(8u8),
        'j' | 'J' => Some(9u8),
        'q' | 'Q' => Some(10u8),
        'k' | 'K' => Some(11u8),
        'a' | 'A' => Some(12u8),
        _ => None,
    }
}

/// The suit denoted by a card character, accepting both cases.
pub open spec fn spec_suit_of_char(c: char) -> Option<u8> {
    match c {
        'c' | 'C' => Some(0u8),
        'd' | 'D' => Some(1u8),
        'h' | 'H' => Some(2u8),
        's' | 'S' => Some(3u8),
        _ => None,
    }
}

/// Parses a rank character such as 'a' or 'T'.
pub fn rank_of_char(c: char) -> (r: Option<u8>)
    ensures
        r == spec_rank_of_char(c),
{
    match c {
        '2' => Some(0u8),
        '3' => Some(1u8),
        '4' => Some(2u8),
        '5' => Some(3u8),
        '6' => Some(4u8),
        '7' => Some(5u8),
        '8' => Some(6u8),
        '9' => Some(7u8),
        't' | 'T' => Some(8u8),
        'j' | 'J' => Some(9u8),
        'q' | 'Q' => Some(10u8),
        'k' | 'K' => Some(11u8),
        'a' | 'A' => Some(12u8),
        _ => None,
    }
}

/// Parses a suit character such as 'c' or 'S'.
pub fn suit_of_char(c: char) -> (s: Option<u8>)
    ensures
        s == spec_suit_of_char(c),
{
    match c {
        'c' | 'C' => Some(0u8),
        'd' | 'D' => Some(1u8),
        'h' | 'H' => Some(2u8),
        's' | 'S' => Some(3u8),
        _ => None,
    }
}

/// The card denoted by a rank character and a suit character, if both
/// are recognised.
pub open spec fn spec_card_of_chars(rc: char, sc: char) -> Option<u8> {
    match (spec_rank_of_char(rc), spec_suit_of_char(sc)) {
        (Some(r), Some(s)) => Some((4 * r + s) as u8),
        _ => None,
    }
}

/// Parses a two-character card such as "kc": rank character then suit
/// character.  Returns the card `4 * rank + suit`.
pub fn card_of_chars(rc: char, sc: char) -> (c: Option<u8>)
    ensures
        c == spec_card_of_chars(rc, sc),
        c is Some ==> c.unwrap() < 52,
{
    match (rank_of_char(rc), suit_of_char(sc)) {
        (Some(r), Some(s)) => Some(4 * r + s),
        _ => None,
    }
}

/// Converts a card string such as "kc" to its number.  The string must
/// begin with a recognised rank character and suit character.
pub fn card_to_number(card: String) -> (c: u8)
    requires
        card@.len() >= 2,
        spec_card_of_chars(card@[0], card@[1]) is Some,
    ensures
        Some(c) == spec_card_of_chars(card@[0], card@[1]),
{
    let s = card.as_str();
    let rc = s.get_char(0);
    let sc = s.get_char(1);
    card_of_chars(rc, sc).unwrap()
}

/// The lower-case character for a rank.
pub open spec fn spec_char_of_rank(r: u8) -> char {
    match r {
        0u8 => '2',
        1u8 => '3',
        2u8 => '4',
        3u8 => '5',
        4u8 => '6',
        5u8 => '7',
        6u8 => '8',
        7u8 => '9',
        8u8 => 't',
        9u8 => 'j',
        10u8 => 'q',
        11u8 => 'k',
        _ => 'a',
    }
}

/// The lower-case character for a suit.
pub open spec fn spec_char_of_suit(s: u8) -> char {
    match s {
        0u8 => 'c',
        1u8 => 'd',
        2u8 => 'h',
        _ => 's',
    }
}

fn str_of_rank(r: u8) -> (out: &'static str)
    ensures
        out@ =~= seq![spec_char_of_rank(r)],
{
    proof {
        reveal_strlit("2");
        reveal_strlit("3");
        reveal_strlit("4");
        reveal_strlit("5");
        reveal_strlit("6");
        reveal_strlit("7");
        reveal_strlit("8");
        reveal_strlit("9");
        reveal_strlit("t");
        reveal_strlit("j");
        reveal_strlit("q");
        reveal_strlit("k");
        reveal_strlit("a");
    }
    match r {
        0u8 => "2",
        1u8 => "3",
        2u8 => "4",
        3u8 => "5",
        4u8 => "6",
        5u8 => "7",
        6u8 => "8",
        7u8 => "9",
        8u8 => "t",
        9u8 => "j",
        10u8 => "q",
        11u8 => "k",
        _ => "a",
    }
}

fn str_of_suit(s: u8) -> (out: &'static str)
    ensures
        out@ =~= seq![spec_char_of_suit(s)],
{
    proof {
        reveal_strlit("c");
        reveal_strlit("d");
        reveal_strlit("h");
        reveal_strlit("s");
    }
    match s {
        0u8 => "c",
        1u8 => "d",
        2u8 => "h",
        _ => "s",
    }
}

/// The two-character string for a card: its rank character followed by
/// its suit character.
pub open spec fn spec_card_string(card: u8) -> Seq<char> {
    seq![spec_char_of_rank((card / 4) as u8), spec_char_of_suit((card % 4) as u8)]
}

/// Renders a card as its two-character string, such as "kc".
pub fn number_to_card(card: u8) -> (out: String)
    ensures
        out@ =~= spec_card_string(card),
{
    let rank = card / 4;
    let suit = card % 4;
    let mut out = String::from_str(str_of_rank(rank));
    out.append(str_of_suit(suit));
    out
}

/// Renders a hand as the concatenation of its two card strings.
pub fn hand_to_string(h: &Hand) -> (out: String)
    ensures
        out@ =~= spec_card_string(h[0]) + spec_card_string(h[1]),
{
    let first = number_to_card(h[0]);
    let second = number_to_card(h[1]);
    first.concat(second.as_str())
}

} // verus!
