use dou_dizhu::{Hand, HandError, PlayKind, Rank};

fn hand(counts: [u8; 15]) -> Hand {
    Hand::try_from(counts).unwrap()
}

#[test]
fn valid_counts_round_trip_through_a_hand() {
    let counts = [4, 3, 2, 1, 0, 4, 3, 2, 1, 0, 4, 3, 2, 1, 0];
    assert_eq!(hand(counts).to_array(), counts);
    let limits = [4, 4, 4, 4, 4, 4, 4, 4, 4, 4, 4, 4, 4, 1, 1];
    assert_eq!(hand(limits).to_array(), limits);
    assert_eq!(hand([0; 15]).to_array(), [0; 15]);
}

#[test]
fn every_single_count_within_its_limit_is_accepted() {
    for rank in 0..15 {
        let limit = if rank < 13 { 4 } else { 1 };
        for count in 0..=limit {
            let mut counts = [0u8; 15];
            counts[rank] = count;
            assert_eq!(Hand::try_from(counts).unwrap().to_array(), counts);
        }
    }
}

#[test]
fn a_count_above_its_limit_is_refused_with_its_rank() {
    for rank in 0..15u8 {
        let limit = if rank < 13 { 4 } else { 1 };
        let mut counts = [1u8; 15];
        counts[rank as usize] = limit + 1;
        assert_eq!(
            Hand::try_from(counts),
            Err(HandError::InvalidCount { rank: Rank::from_ordinal(rank).unwrap() })
        );
    }
}

#[test]
fn the_first_offending_rank_is_named() {
    let counts = [0, 0, 5, 0, 0, 0, 9, 0, 0, 0, 0, 0, 0, 2, 2];
    assert_eq!(Hand::try_from(counts), Err(HandError::InvalidCount { rank: Rank::Five }));
    let jokers = [4, 4, 4, 4, 4, 4, 4, 4, 4, 4, 4, 4, 4, 1, 2];
    assert_eq!(Hand::try_from(jokers), Err(HandError::InvalidCount { rank: Rank::RedJoker }));
    let both = [0, 0, 0, 0, 0, 0, 0, 0, 0, 0, 0, 0, 0, 255, 2];
    assert_eq!(Hand::try_from(both), Err(HandError::InvalidCount { rank: Rank::BlackJoker }));
}

#[test]
fn a_slice_of_fifteen_counts_makes_a_hand() {
    let counts = vec![1u8, 0, 0, 0, 0, 0, 0, 0, 0, 0, 0, 0, 4, 1, 1];
    let made = Hand::try_from(counts.as_slice()).unwrap();
    assert_eq!(made.to_array().to_vec(), counts);
}

#[test]
fn a_slice_of_another_length_is_refused() {
    let short = vec![1u8; 14];
    assert_eq!(Hand::try_from(short.as_slice()), Err(HandError::WrongLength { len: 14 }));
    let long = vec![0u8; 16];
    assert_eq!(Hand::try_from(long.as_slice()), Err(HandError::WrongLength { len: 16 }));
    let none: Vec<u8> = Vec::new();
    assert_eq!(Hand::try_from(none.as_slice()), Err(HandError::WrongLength { len: 0 }));
}

#[test]
fn a_slice_with_a_count_too_high_is_refused() {
    let counts = vec![0u8, 0, 0, 0, 0, 0, 0, 0, 0, 0, 0, 5, 0, 0, 0];
    assert_eq!(
        Hand::try_from(counts.as_slice()),
        Err(HandError::InvalidCount { rank: Rank::Ace })
    );
}

#[test]
fn the_messages_of_the_errors() {
    assert_eq!(
        HandError::InvalidCount { rank: Rank::Ten }.message(),
        "more than four `Ten`s are specified"
    );
    assert_eq!(
        HandError::InvalidCount { rank: Rank::Two }.message(),
        "more than four `Two`s are specified"
    );
    assert_eq!(
        HandError::InvalidCount { rank: Rank::BlackJoker }.message(),
        "more than one `BlackJoker` is specified"
    );
    assert_eq!(
        HandError::InvalidCount { rank: Rank::RedJoker }.message(),
        "more than one `RedJoker` is specified"
    );
    assert_eq!(
        HandError::WrongLength { len: 14 }.message(),
        "invalid slice length: expected 15, got 14"
    );
    assert_eq!(
        HandError::WrongLength { len: 0 }.message(),
        "invalid slice length: expected 15, got 0"
    );
    assert_eq!(
        HandError::WrongLength { len: 1203 }.message(),
        "invalid slice length: expected 15, got 1203"
    );
}

#[test]
fn the_full_deck_has_54_cards() {
    assert_eq!(Hand::full_deck().len(), 54);
    assert_eq!(Hand::full_deck().to_array(), [4, 4, 4, 4, 4, 4, 4, 4, 4, 4, 4, 4, 4, 1, 1]);
    assert!(!Hand::full_deck().is_empty());
}

#[test]
fn the_empty_hand_is_empty() {
    assert!(Hand::empty().is_empty());
    assert_eq!(Hand::empty().len(), 0);
    assert_eq!(Hand::empty().to_array(), [0; 15]);
}

#[test]
fn the_length_is_the_sum_of_the_counts() {
    assert_eq!(hand([4, 3, 2, 1, 0, 0, 0, 0, 0, 0, 0, 0, 0, 1, 0]).len(), 11);
    assert_eq!(hand([0, 0, 0, 0, 0, 0, 0, 0, 0, 0, 0, 0, 0, 0, 1]).len(), 1);
    assert!(!hand([0, 0, 0, 0, 0, 0, 0, 0, 0, 0, 0, 0, 0, 0, 1]).is_empty());
    assert!(!hand([1, 0, 0, 0, 0, 0, 0, 0, 0, 0, 0, 0, 0, 0, 0]).is_empty());
}

#[test]
fn a_hand_is_indexed_by_rank() {
    let bomb = hand([0, 0, 0, 0, 0, 0, 0, 4, 0, 0, 0, 0, 0, 0, 0]);
    assert_eq!(bomb[Rank::Ten], 4);
    assert_eq!(bomb[Rank::Nine], 0);
    assert_eq!(bomb.to_array()[Rank::Ten as usize], 4);
    assert_eq!(Hand::full_deck()[Rank::RedJoker], 1);
}

#[test]
fn the_ranks_in_order_of_strength() {
    let ranks = [
        Rank::Three,
        Rank::Four,
        Rank::Five,
        Rank::Six,
        Rank::Seven,
        Rank::Eight,
        Rank::Nine,
        Rank::Ten,
        Rank::Jack,
        Rank::Queen,
        Rank::King,
        Rank::Ace,
        Rank::Two,
        Rank::BlackJoker,
        Rank::RedJoker,
    ];
    for (i, rank) in ranks.iter().enumerate() {
        assert_eq!(rank.ordinal() as usize, i);
        assert_eq!(Rank::from_ordinal(i as u8), Some(*rank));
    }
    assert_eq!(Rank::from_ordinal(15), None);
    assert_eq!(Rank::from_ordinal(255), None);
    assert!(Rank::Ace < Rank::Two);
    assert!(Rank::Two < Rank::BlackJoker);
    assert!(Rank::BlackJoker < Rank::RedJoker);
    assert_eq!(Rank::Queen.name(), "Queen");
    assert_eq!(Rank::Three.name(), "Three");
}

#[test]
fn the_hand_of_the_two_jokers_is_the_rocket() {
    let rocket = hand([0, 0, 0, 0, 0, 0, 0, 0, 0, 0, 0, 0, 0, 1, 1]).to_play().unwrap();
    assert!(matches!(rocket.into_inner(), dou_dizhu::Play::Rocket));
}

#[test]
fn a_hand_that_is_no_play_reads_as_none() {
    assert!(Hand::full_deck().to_play().is_none());
    assert!(Hand::empty().to_play().is_none());
    assert!(hand([1, 1, 0, 0, 0, 0, 0, 0, 0, 0, 0, 0, 0, 0, 0]).to_play().is_none());
    assert!(hand([1, 1, 1, 1, 0, 0, 0, 0, 0, 0, 0, 0, 0, 0, 0]).to_play().is_none());
    assert!(hand([2, 2, 0, 0, 0, 0, 0, 0, 0, 0, 0, 0, 0, 0, 0]).to_play().is_none());
    assert!(hand([4, 1, 0, 0, 0, 0, 0, 0, 0, 0, 0, 0, 0, 0, 0]).to_play().is_none());
}

#[test]
fn the_rocket_is_found_only_with_both_jokers() {
    assert_eq!(Hand::full_deck().plays(PlayKind::Rocket).len(), 1);
    assert!(matches!(
        Hand::full_deck().plays(PlayKind::Rocket)[0].clone().into_inner(),
        dou_dizhu::Play::Rocket
    ));
    assert!(hand([0, 0, 0, 0, 0, 0, 0, 0, 0, 0, 0, 0, 0, 1, 0]).plays(PlayKind::Rocket).is_empty());
    assert!(hand([0, 0, 0, 0, 0, 0, 0, 0, 0, 0, 0, 0, 0, 0, 1]).plays(PlayKind::Rocket).is_empty());
    assert!(Hand::empty().plays(PlayKind::Rocket).is_empty());
}
