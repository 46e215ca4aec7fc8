use dou_dizhu::engine::{Guard, UncheckedAddExt, UncheckedSubExt};
use dou_dizhu::{Hand, Play, Rank};

fn hand(counts: [u8; 15]) -> Hand {
    Hand::try_from(counts).unwrap()
}

fn counts(hand: Option<Hand>) -> Option<[u8; 15]> {
    hand.map(|hand| hand.to_array())
}

#[test]
fn two_hands_add_rank_by_rank() {
    let a = hand([1, 2, 0, 0, 0, 0, 0, 0, 0, 0, 0, 0, 3, 0, 1]);
    let b = hand([3, 1, 4, 0, 0, 0, 0, 0, 0, 0, 0, 0, 1, 1, 0]);
    assert_eq!(counts(a + b), Some([4, 3, 4, 0, 0, 0, 0, 0, 0, 0, 0, 0, 4, 1, 1]));
    assert_eq!(counts(b + a), Some([4, 3, 4, 0, 0, 0, 0, 0, 0, 0, 0, 0, 4, 1, 1]));
    assert_eq!(counts(a + Hand::empty()), Some(a.to_array()));
}

#[test]
fn a_sum_above_a_limit_is_none() {
    let a = hand([3, 0, 0, 0, 0, 0, 0, 0, 0, 0, 0, 0, 0, 0, 0]);
    let b = hand([2, 0, 0, 0, 0, 0, 0, 0, 0, 0, 0, 0, 0, 0, 0]);
    assert_eq!(a + b, None);
    let joker = hand([0, 0, 0, 0, 0, 0, 0, 0, 0, 0, 0, 0, 0, 0, 1]);
    assert_eq!(joker + joker, None);
    assert_eq!(Hand::full_deck() + joker, None);
    assert_eq!(Hand::full_deck() + hand([0, 0, 0, 0, 0, 0, 0, 1, 0, 0, 0, 0, 0, 0, 0]), None);
    assert_eq!(counts(Hand::full_deck() + Hand::empty()), Some(Hand::full_deck().to_array()));
}

#[test]
fn a_hand_is_taken_out_rank_by_rank() {
    let a = hand([4, 3, 4, 0, 0, 0, 0, 0, 0, 0, 0, 0, 4, 1, 1]);
    let b = hand([3, 1, 4, 0, 0, 0, 0, 0, 0, 0, 0, 0, 1, 1, 0]);
    assert_eq!(counts(a - b), Some([1, 2, 0, 0, 0, 0, 0, 0, 0, 0, 0, 0, 3, 0, 1]));
    assert_eq!(counts(a - a), Some([0; 15]));
    assert_eq!(counts(a - Hand::empty()), Some(a.to_array()));
}

#[test]
fn taking_out_a_card_that_is_not_held_is_none() {
    let a = hand([1, 2, 0, 0, 0, 0, 0, 0, 0, 0, 0, 0, 3, 0, 1]);
    let b = hand([1, 3, 0, 0, 0, 0, 0, 0, 0, 0, 0, 0, 0, 0, 0]);
    assert_eq!(a - b, None);
    assert_eq!(Hand::empty() - hand([0, 0, 0, 0, 0, 0, 0, 0, 0, 0, 0, 0, 0, 1, 0]), None);
    assert_eq!(a - Hand::full_deck(), None);
    for rank in 0..15 {
        let mut one = [0u8; 15];
        one[rank] = 1;
        let mut rest = Hand::full_deck().to_array();
        rest[rank] = 0;
        assert_eq!(hand(rest) - hand(one), None);
    }
}

#[test]
fn a_play_is_taken_out_of_a_hand() {
    let bomb = Guard::new_unchecked(Play::Bomb(Rank::Three));
    assert!((Hand::full_deck() - &bomb).is_some());
    assert_eq!(
        counts(Hand::full_deck() - &bomb),
        Some([0, 4, 4, 4, 4, 4, 4, 4, 4, 4, 4, 4, 4, 1, 1])
    );
    let rocket = Guard::new_unchecked(Play::Rocket);
    assert_eq!(
        counts(Hand::full_deck() - &rocket),
        Some([4, 4, 4, 4, 4, 4, 4, 4, 4, 4, 4, 4, 4, 0, 0])
    );
    let plane = Guard::new_unchecked(Play::AirplaneWithSolos {
        airplane: vec![Rank::Three, Rank::Four],
        solos: vec![Rank::Five, Rank::RedJoker],
    });
    let a = hand([3, 3, 2, 0, 0, 0, 0, 0, 0, 0, 0, 0, 0, 0, 1]);
    assert_eq!(counts(a - &plane), Some([0, 0, 1, 0, 0, 0, 0, 0, 0, 0, 0, 0, 0, 0, 0]));
}

#[test]
fn a_play_that_the_hand_does_not_contain_gives_none() {
    let bomb = Guard::new_unchecked(Play::Bomb(Rank::Three));
    let a = hand([3, 4, 4, 0, 0, 0, 0, 0, 0, 0, 0, 0, 0, 1, 1]);
    assert_eq!(a - &bomb, None);
    let rocket = Guard::new_unchecked(Play::Rocket);
    assert_eq!(hand([4, 4, 4, 4, 4, 4, 4, 4, 4, 4, 4, 4, 4, 1, 0]) - &rocket, None);
    assert_eq!(Hand::empty() - &Guard::new_unchecked(Play::Solo(Rank::Five)), None);
    let trio = Guard::new_unchecked(Play::TrioWithSolo { trio: Rank::Ace, solo: Rank::Two });
    assert_eq!(hand([0, 0, 0, 0, 0, 0, 0, 0, 0, 0, 0, 3, 0, 0, 0]) - &trio, None);
}

#[test]
fn a_play_is_put_into_a_hand() {
    let pair = Guard::new_unchecked(Play::Pair(Rank::Four));
    let a = hand([1, 2, 0, 0, 0, 0, 0, 0, 0, 0, 0, 0, 0, 0, 0]);
    assert_eq!(counts(a + &pair), Some([1, 4, 0, 0, 0, 0, 0, 0, 0, 0, 0, 0, 0, 0, 0]));
    assert_eq!(counts(&pair + a), Some([1, 4, 0, 0, 0, 0, 0, 0, 0, 0, 0, 0, 0, 0, 0]));
    let b = hand([1, 3, 0, 0, 0, 0, 0, 0, 0, 0, 0, 0, 0, 0, 0]);
    assert_eq!(b + &pair, None);
    assert_eq!(&pair + b, None);
    let rocket = Guard::new_unchecked(Play::Rocket);
    assert_eq!(hand([0, 0, 0, 0, 0, 0, 0, 0, 0, 0, 0, 0, 0, 1, 0]) + &rocket, None);
    assert_eq!(Hand::full_deck() + &Guard::new_unchecked(Play::Solo(Rank::Three)), None);
}

#[test]
fn a_hand_is_taken_out_of_a_play() {
    let bomb = Guard::new_unchecked(Play::Bomb(Rank::Three));
    let a = hand([3, 0, 0, 0, 0, 0, 0, 0, 0, 0, 0, 0, 0, 0, 0]);
    assert_eq!(counts(&bomb - a), Some([1, 0, 0, 0, 0, 0, 0, 0, 0, 0, 0, 0, 0, 0, 0]));
    let b = hand([0, 1, 0, 0, 0, 0, 0, 0, 0, 0, 0, 0, 0, 0, 0]);
    assert_eq!(&bomb - b, None);
    assert_eq!(&bomb - Hand::full_deck(), None);
}

#[test]
fn nothing_comes_of_no_hand() {
    let a = hand([1, 2, 0, 0, 0, 0, 0, 0, 0, 0, 0, 0, 0, 0, 0]);
    let pair = Guard::new_unchecked(Play::Pair(Rank::Four));
    let none: Option<Hand> = None;
    assert_eq!(a + none, None);
    assert_eq!(none + a, None);
    assert_eq!(none + &pair, None);
    assert_eq!(&pair + none, None);
    assert_eq!(a - none, None);
    assert_eq!(none - a, None);
    assert_eq!(none - &pair, None);
    assert_eq!(&pair - none, None);
}

#[test]
fn sums_and_differences_chain_through_options() {
    let a = hand([1, 2, 0, 0, 0, 0, 0, 0, 0, 0, 0, 0, 0, 0, 0]);
    let b = hand([1, 0, 0, 0, 0, 0, 0, 0, 0, 0, 0, 0, 0, 1, 0]);
    let pair = Guard::new_unchecked(Play::Pair(Rank::Four));
    assert_eq!(counts(a + Some(b)), Some([2, 2, 0, 0, 0, 0, 0, 0, 0, 0, 0, 0, 0, 1, 0]));
    assert_eq!(counts(Some(a) + b), Some([2, 2, 0, 0, 0, 0, 0, 0, 0, 0, 0, 0, 0, 1, 0]));
    assert_eq!(counts(Some(a) + &pair), Some([1, 4, 0, 0, 0, 0, 0, 0, 0, 0, 0, 0, 0, 0, 0]));
    assert_eq!(counts(&pair + Some(a)), Some([1, 4, 0, 0, 0, 0, 0, 0, 0, 0, 0, 0, 0, 0, 0]));
    assert_eq!(counts(a + b + &pair), Some([2, 4, 0, 0, 0, 0, 0, 0, 0, 0, 0, 0, 0, 1, 0]));
    assert_eq!(a + b + &pair + &pair, None);
    assert_eq!(counts(a - Some(b)), None);
    assert_eq!(counts(Some(a) - b), None);
    let c = hand([1, 1, 0, 0, 0, 0, 0, 0, 0, 0, 0, 0, 0, 0, 0]);
    assert_eq!(counts(a - Some(c)), Some([0, 1, 0, 0, 0, 0, 0, 0, 0, 0, 0, 0, 0, 0, 0]));
    assert_eq!(counts(Some(a) - c), Some([0, 1, 0, 0, 0, 0, 0, 0, 0, 0, 0, 0, 0, 0, 0]));
    assert_eq!(counts(Some(a) - &pair), Some([1, 0, 0, 0, 0, 0, 0, 0, 0, 0, 0, 0, 0, 0, 0]));
    assert_eq!(counts(Some(c) - &pair), None);
    let d = hand([0, 1, 0, 0, 0, 0, 0, 0, 0, 0, 0, 0, 0, 0, 0]);
    assert_eq!(counts(&pair - Some(d)), Some([0, 1, 0, 0, 0, 0, 0, 0, 0, 0, 0, 0, 0, 0, 0]));
    assert_eq!(counts(&pair - Some(a)), None);
    assert_eq!(counts(a - c - d), Some([0; 15]));
    assert_eq!(a - c - d - d, None);
}

#[test]
fn unchecked_arithmetic_on_operands_that_fit() {
    let a = hand([1, 2, 0, 0, 0, 0, 0, 0, 0, 0, 0, 0, 3, 0, 1]);
    let b = hand([3, 1, 4, 0, 0, 0, 0, 0, 0, 0, 0, 0, 1, 1, 0]);
    let sum = a.unchecked_add(b);
    assert_eq!(sum.to_array(), [4, 3, 4, 0, 0, 0, 0, 0, 0, 0, 0, 0, 4, 1, 1]);
    assert_eq!(sum.unchecked_sub(b), a);
    assert_eq!(sum.unchecked_sub(a), b);
    let pair = Guard::new_unchecked(Play::Pair(Rank::Four));
    let with = a.unchecked_add(&pair);
    assert_eq!(with.to_array(), [1, 4, 0, 0, 0, 0, 0, 0, 0, 0, 0, 0, 3, 0, 1]);
    assert_eq!(with.unchecked_sub(&pair), a);
}
