use dou_dizhu::engine::search::plays_of_length;
use dou_dizhu::engine::{CompositionExt, KickerCount, PlaySpec, SearchExt};
use dou_dizhu::{Hand, Play, PlayKind, Rank};

fn hand(counts: [u8; 15]) -> Hand {
    Hand::try_from(counts).unwrap()
}

fn arrays(hands: Vec<Hand>) -> Vec<[u8; 15]> {
    hands.into_iter().map(|hand| hand.to_array()).collect()
}

fn distinct(plays: &Vec<[u8; 15]>) -> usize {
    let mut sorted = plays.clone();
    sorted.sort();
    sorted.dedup();
    sorted.len()
}

fn searched(hand: Hand, kind: PlayKind) -> Vec<[u8; 15]> {
    arrays(SearchExt::plays(hand, PlaySpec::standard(kind)))
}

#[test]
fn the_full_deck_holds_7516_airplanes_with_solos() {
    let plays = Hand::full_deck().plays(PlayKind::AirplaneWithSolos);
    assert_eq!(plays.len(), 7516);
    let hands: Vec<[u8; 15]> = plays.iter().map(|play| play.to_hand().to_array()).collect();
    assert_eq!(distinct(&hands), 7516);
}

#[test]
fn the_number_of_plays_of_each_category_in_the_full_deck() {
    let expected = [
        (PlayKind::Solo, 15),
        (PlayKind::Chain, 36),
        (PlayKind::Pair, 13),
        (PlayKind::PairsChain, 55),
        (PlayKind::Trio, 13),
        (PlayKind::Airplane, 66),
        (PlayKind::TrioWithSolo, 182),
        (PlayKind::AirplaneWithSolos, 7516),
        (PlayKind::TrioWithPair, 156),
        (PlayKind::AirplaneWithPairs, 3436),
        (PlayKind::Bomb, 13),
        (PlayKind::FourWithDualSolo, 1170),
        (PlayKind::FourWithDualPair, 858),
        (PlayKind::Rocket, 1),
    ];
    for (kind, count) in expected {
        let plays = Hand::full_deck().plays(kind);
        assert_eq!(plays.len(), count);
        for play in plays.iter() {
            assert_eq!(play.kind(), kind);
        }
        if kind != PlayKind::Rocket {
            let hands = searched(Hand::full_deck(), kind);
            assert_eq!(hands.len(), count);
            assert_eq!(distinct(&hands), count);
        }
    }
}

#[test]
fn every_play_found_is_held_by_the_hand_and_reads_as_its_category() {
    let source = hand([3, 3, 3, 1, 2, 2, 2, 4, 0, 1, 1, 4, 2, 1, 1]);
    let kinds = [
        PlayKind::Solo,
        PlayKind::Chain,
        PlayKind::Pair,
        PlayKind::PairsChain,
        PlayKind::Trio,
        PlayKind::Airplane,
        PlayKind::TrioWithSolo,
        PlayKind::AirplaneWithSolos,
        PlayKind::TrioWithPair,
        PlayKind::AirplaneWithPairs,
        PlayKind::Bomb,
        PlayKind::FourWithDualSolo,
        PlayKind::FourWithDualPair,
        PlayKind::Rocket,
    ];
    for kind in kinds {
        for play in source.plays(kind) {
            assert_eq!(play.kind(), kind);
            assert!((source - &play).is_some());
            let again = play.to_hand().composition().to_play(kind).unwrap();
            assert_eq!(again.into_inner(), play.into_inner());
        }
    }
}

#[test]
fn chains_come_by_length_and_then_by_start() {
    let source = hand([1, 1, 1, 1, 1, 1, 0, 0, 0, 0, 0, 0, 1, 1, 1]);
    assert_eq!(
        searched(source, PlayKind::Chain),
        vec![
            [1, 1, 1, 1, 1, 0, 0, 0, 0, 0, 0, 0, 0, 0, 0],
            [0, 1, 1, 1, 1, 1, 0, 0, 0, 0, 0, 0, 0, 0, 0],
            [1, 1, 1, 1, 1, 1, 0, 0, 0, 0, 0, 0, 0, 0, 0],
        ]
    );
    let plays: Vec<Play> =
        source.plays(PlayKind::Chain).into_iter().map(|play| play.into_inner()).collect();
    assert_eq!(
        plays,
        vec![
            Play::Chain(vec![Rank::Three, Rank::Four, Rank::Five, Rank::Six, Rank::Seven]),
            Play::Chain(vec![Rank::Four, Rank::Five, Rank::Six, Rank::Seven, Rank::Eight]),
            Play::Chain(vec![
                Rank::Three,
                Rank::Four,
                Rank::Five,
                Rank::Six,
                Rank::Seven,
                Rank::Eight,
            ]),
        ]
    );
}

#[test]
fn chains_in_the_full_deck_stay_below_two() {
    let chains = searched(Hand::full_deck(), PlayKind::Chain);
    assert_eq!(chains.len(), 36);
    for chain in chains.iter() {
        assert_eq!(chain[12], 0);
        assert_eq!(chain[13], 0);
        assert_eq!(chain[14], 0);
        let cards: u32 = chain.iter().map(|&n| n as u32).sum();
        assert!(cards >= 5 && cards <= 12);
    }
    assert_eq!(chains[0], [1, 1, 1, 1, 1, 0, 0, 0, 0, 0, 0, 0, 0, 0, 0]);
    assert_eq!(chains[7], [0, 0, 0, 0, 0, 0, 0, 1, 1, 1, 1, 1, 0, 0, 0]);
    assert_eq!(chains[8], [1, 1, 1, 1, 1, 1, 0, 0, 0, 0, 0, 0, 0, 0, 0]);
    assert_eq!(chains[35], [1, 1, 1, 1, 1, 1, 1, 1, 1, 1, 1, 1, 0, 0, 0]);
    for kind in [PlayKind::PairsChain, PlayKind::Airplane] {
        for run in searched(Hand::full_deck(), kind) {
            assert_eq!(run[12], 0);
        }
    }
}

#[test]
fn a_run_does_not_cross_a_missing_rank() {
    let source = hand([1, 1, 1, 1, 0, 1, 1, 1, 1, 1, 0, 0, 0, 0, 0]);
    assert_eq!(
        searched(source, PlayKind::Chain),
        vec![[0, 0, 0, 0, 0, 1, 1, 1, 1, 1, 0, 0, 0, 0, 0]]
    );
    let pairs = hand([2, 2, 0, 2, 2, 2, 0, 0, 0, 0, 2, 2, 2, 0, 0]);
    assert_eq!(
        searched(pairs, PlayKind::PairsChain),
        vec![[0, 0, 0, 2, 2, 2, 0, 0, 0, 0, 0, 0, 0, 0, 0]]
    );
}

#[test]
fn solos_include_two_and_the_jokers() {
    let source = hand([0, 0, 0, 0, 0, 1, 0, 0, 0, 0, 0, 0, 1, 1, 1]);
    let solos: Vec<Play> =
        source.plays(PlayKind::Solo).into_iter().map(|play| play.into_inner()).collect();
    assert_eq!(
        solos,
        vec![
            Play::Solo(Rank::Eight),
            Play::Solo(Rank::Two),
            Play::Solo(Rank::BlackJoker),
            Play::Solo(Rank::RedJoker),
        ]
    );
}

#[test]
fn kickers_come_from_the_pool_first_and_then_with_one_joker() {
    let source = hand([3, 1, 0, 0, 0, 0, 0, 0, 0, 0, 0, 0, 1, 1, 1]);
    assert_eq!(
        searched(source, PlayKind::TrioWithSolo),
        vec![
            [3, 1, 0, 0, 0, 0, 0, 0, 0, 0, 0, 0, 0, 0, 0],
            [3, 0, 0, 0, 0, 0, 0, 0, 0, 0, 0, 0, 1, 0, 0],
            [3, 0, 0, 0, 0, 0, 0, 0, 0, 0, 0, 0, 0, 1, 0],
            [3, 0, 0, 0, 0, 0, 0, 0, 0, 0, 0, 0, 0, 0, 1],
        ]
    );
    let four = hand([4, 1, 0, 0, 0, 0, 0, 0, 0, 0, 0, 0, 1, 1, 1]);
    assert_eq!(
        searched(four, PlayKind::FourWithDualSolo),
        vec![
            [4, 1, 0, 0, 0, 0, 0, 0, 0, 0, 0, 0, 1, 0, 0],
            [4, 1, 0, 0, 0, 0, 0, 0, 0, 0, 0, 0, 0, 1, 0],
            [4, 0, 0, 0, 0, 0, 0, 0, 0, 0, 0, 0, 1, 1, 0],
            [4, 1, 0, 0, 0, 0, 0, 0, 0, 0, 0, 0, 0, 0, 1],
            [4, 0, 0, 0, 0, 0, 0, 0, 0, 0, 0, 0, 1, 0, 1],
        ]
    );
}

#[test]
fn the_two_jokers_are_never_kickers_together() {
    let plane = hand([3, 3, 1, 0, 0, 0, 0, 0, 0, 0, 0, 0, 0, 1, 1]);
    assert_eq!(
        searched(plane, PlayKind::AirplaneWithSolos),
        vec![
            [3, 3, 1, 0, 0, 0, 0, 0, 0, 0, 0, 0, 0, 1, 0],
            [3, 3, 1, 0, 0, 0, 0, 0, 0, 0, 0, 0, 0, 0, 1],
        ]
    );
    let only = hand([3, 3, 0, 0, 0, 0, 0, 0, 0, 0, 0, 0, 0, 1, 1]);
    assert!(searched(only, PlayKind::AirplaneWithSolos).is_empty());
    assert!(only.plays(PlayKind::AirplaneWithSolos).is_empty());
    let four = hand([4, 0, 0, 0, 0, 0, 0, 0, 0, 0, 0, 0, 0, 1, 1]);
    assert!(searched(four, PlayKind::FourWithDualSolo).is_empty());
    assert!(four.plays(PlayKind::FourWithDualSolo).is_empty());
    let more = hand([4, 0, 0, 0, 0, 0, 0, 0, 0, 0, 0, 0, 1, 1, 1]);
    assert_eq!(
        searched(more, PlayKind::FourWithDualSolo),
        vec![
            [4, 0, 0, 0, 0, 0, 0, 0, 0, 0, 0, 0, 1, 1, 0],
            [4, 0, 0, 0, 0, 0, 0, 0, 0, 0, 0, 0, 1, 0, 1],
        ]
    );
    for kind in [PlayKind::AirplaneWithSolos, PlayKind::FourWithDualSolo] {
        for play in Hand::full_deck().plays(kind) {
            let cards = play.to_hand().to_array();
            assert!(!(cards[13] == 1 && cards[14] == 1));
        }
    }
}

#[test]
fn sets_of_kickers_come_in_the_order_of_the_ranks_picked() {
    let source = hand([3, 3, 1, 1, 1, 1, 0, 0, 0, 0, 0, 0, 0, 0, 0]);
    assert_eq!(
        arrays(plays_of_length(source, 3, 1, 2, 2)),
        vec![
            [3, 3, 1, 1, 0, 0, 0, 0, 0, 0, 0, 0, 0, 0, 0],
            [3, 3, 1, 0, 1, 0, 0, 0, 0, 0, 0, 0, 0, 0, 0],
            [3, 3, 1, 0, 0, 1, 0, 0, 0, 0, 0, 0, 0, 0, 0],
            [3, 3, 0, 1, 1, 0, 0, 0, 0, 0, 0, 0, 0, 0, 0],
            [3, 3, 0, 1, 0, 1, 0, 0, 0, 0, 0, 0, 0, 0, 0],
            [3, 3, 0, 0, 1, 1, 0, 0, 0, 0, 0, 0, 0, 0, 0],
        ]
    );
    assert_eq!(arrays(plays_of_length(source, 3, 1, 2, 3)).len(), 4);
    assert_eq!(
        arrays(plays_of_length(source, 3, 1, 2, 4)),
        vec![[3, 3, 1, 1, 1, 1, 0, 0, 0, 0, 0, 0, 0, 0, 0]]
    );
    assert!(plays_of_length(source, 3, 1, 2, 5).is_empty());
}

#[test]
fn pairs_as_kickers_are_never_jokers() {
    let source = hand([3, 2, 0, 0, 0, 0, 0, 0, 0, 0, 0, 0, 2, 1, 1]);
    assert_eq!(
        searched(source, PlayKind::TrioWithPair),
        vec![
            [3, 2, 0, 0, 0, 0, 0, 0, 0, 0, 0, 0, 0, 0, 0],
            [3, 0, 0, 0, 0, 0, 0, 0, 0, 0, 0, 0, 2, 0, 0],
        ]
    );
    let four = hand([4, 2, 0, 0, 0, 0, 0, 0, 0, 0, 0, 0, 2, 1, 1]);
    assert_eq!(
        searched(four, PlayKind::FourWithDualPair),
        vec![[4, 2, 0, 0, 0, 0, 0, 0, 0, 0, 0, 0, 2, 0, 0]]
    );
}

#[test]
fn a_kicker_may_be_a_rank_of_which_the_hand_holds_more() {
    let source = hand([3, 3, 0, 0, 0, 0, 0, 0, 0, 0, 0, 0, 0, 0, 0]);
    assert_eq!(
        searched(source, PlayKind::TrioWithSolo),
        vec![
            [3, 1, 0, 0, 0, 0, 0, 0, 0, 0, 0, 0, 0, 0, 0],
            [1, 3, 0, 0, 0, 0, 0, 0, 0, 0, 0, 0, 0, 0, 0],
        ]
    );
    assert_eq!(
        searched(source, PlayKind::Airplane),
        vec![[3, 3, 0, 0, 0, 0, 0, 0, 0, 0, 0, 0, 0, 0, 0]]
    );
}

#[test]
fn a_hand_holds_the_plays_of_each_part_of_it() {
    let large = hand([3, 3, 3, 1, 2, 2, 2, 4, 0, 1, 1, 4, 2, 1, 1]);
    let small = hand([3, 3, 0, 1, 2, 2, 1, 4, 0, 0, 1, 3, 2, 0, 1]);
    assert!((large - small).is_some());
    let kinds = [
        PlayKind::Solo,
        PlayKind::Chain,
        PlayKind::Pair,
        PlayKind::PairsChain,
        PlayKind::Trio,
        PlayKind::Airplane,
        PlayKind::TrioWithSolo,
        PlayKind::AirplaneWithSolos,
        PlayKind::TrioWithPair,
        PlayKind::AirplaneWithPairs,
        PlayKind::Bomb,
        PlayKind::FourWithDualSolo,
        PlayKind::FourWithDualPair,
        PlayKind::Rocket,
    ];
    for kind in kinds {
        let of_large: Vec<Play> =
            large.plays(kind).into_iter().map(|play| play.into_inner()).collect();
        let of_small: Vec<Play> =
            small.plays(kind).into_iter().map(|play| play.into_inner()).collect();
        assert!(of_small.len() <= of_large.len());
        for (i, play) in of_small.iter().enumerate() {
            assert!(of_large.contains(play));
            assert!(!of_small[..i].contains(play));
        }
        for (i, play) in of_large.iter().enumerate() {
            assert!(!of_large[..i].contains(play));
        }
    }
    assert_eq!(small.plays(PlayKind::Rocket).len(), 0);
    assert_eq!(large.plays(PlayKind::Rocket).len(), 1);
    assert_eq!(small.plays(PlayKind::Bomb).len(), 1);
    assert_eq!(large.plays(PlayKind::Bomb).len(), 2);
}

#[test]
fn the_empty_hand_holds_no_play() {
    for kind in [PlayKind::Solo, PlayKind::Chain, PlayKind::Bomb, PlayKind::AirplaneWithPairs] {
        assert!(Hand::empty().plays(kind).is_empty());
        assert!(searched(Hand::empty(), kind).is_empty());
    }
}

#[test]
fn a_shape_of_its_own() {
    let source = hand([2, 2, 2, 2, 0, 0, 0, 0, 0, 0, 0, 0, 0, 1, 0]);
    let spec = PlaySpec {
        primal_size: 2,
        primal_count: (2, 3),
        kicker_size: 1,
        kicker_count: KickerCount::fixed(1),
    };
    assert_eq!(
        arrays(SearchExt::plays(source, spec)),
        vec![
            [2, 2, 1, 0, 0, 0, 0, 0, 0, 0, 0, 0, 0, 0, 0],
            [2, 2, 0, 1, 0, 0, 0, 0, 0, 0, 0, 0, 0, 0, 0],
            [2, 2, 0, 0, 0, 0, 0, 0, 0, 0, 0, 0, 0, 1, 0],
            [1, 2, 2, 0, 0, 0, 0, 0, 0, 0, 0, 0, 0, 0, 0],
            [0, 2, 2, 1, 0, 0, 0, 0, 0, 0, 0, 0, 0, 0, 0],
            [0, 2, 2, 0, 0, 0, 0, 0, 0, 0, 0, 0, 0, 1, 0],
            [1, 0, 2, 2, 0, 0, 0, 0, 0, 0, 0, 0, 0, 0, 0],
            [0, 1, 2, 2, 0, 0, 0, 0, 0, 0, 0, 0, 0, 0, 0],
            [0, 0, 2, 2, 0, 0, 0, 0, 0, 0, 0, 0, 0, 1, 0],
            [2, 2, 2, 1, 0, 0, 0, 0, 0, 0, 0, 0, 0, 0, 0],
            [2, 2, 2, 0, 0, 0, 0, 0, 0, 0, 0, 0, 0, 1, 0],
            [1, 2, 2, 2, 0, 0, 0, 0, 0, 0, 0, 0, 0, 0, 0],
            [0, 2, 2, 2, 0, 0, 0, 0, 0, 0, 0, 0, 0, 1, 0],
        ]
    );
}

#[test]
fn the_lengths_of_a_shape_are_held_between_1_and_12() {
    let source = hand([1, 1, 0, 0, 0, 0, 0, 0, 0, 0, 0, 0, 0, 0, 0]);
    let spec = PlaySpec {
        primal_size: 1,
        primal_count: (0, 255),
        kicker_size: 0,
        kicker_count: KickerCount::fixed(0),
    };
    assert_eq!(
        arrays(SearchExt::plays(source, spec)),
        vec![
            [1, 0, 0, 0, 0, 0, 0, 0, 0, 0, 0, 0, 0, 0, 0],
            [0, 1, 0, 0, 0, 0, 0, 0, 0, 0, 0, 0, 0, 0, 0],
            [1, 1, 0, 0, 0, 0, 0, 0, 0, 0, 0, 0, 0, 0, 0],
        ]
    );
    let empty = PlaySpec {
        primal_size: 1,
        primal_count: (3, 2),
        kicker_size: 0,
        kicker_count: KickerCount::fixed(0),
    };
    assert!(SearchExt::plays(Hand::full_deck(), empty).is_empty());
    let above = PlaySpec {
        primal_size: 1,
        primal_count: (13, 20),
        kicker_size: 0,
        kicker_count: KickerCount::fixed(0),
    };
    assert!(SearchExt::plays(Hand::full_deck(), above).is_empty());
}

#[test]
fn the_lengths_that_a_search_considers() {
    let shape = |primal_count| PlaySpec {
        primal_size: 1,
        primal_count,
        kicker_size: 0,
        kicker_count: KickerCount::fixed(0),
    };
    assert_eq!(shape((5, 12)).lengths(), (5, 12));
    assert_eq!(shape((0, 255)).lengths(), (1, 12));
    assert_eq!(shape((1, 13)).lengths(), (1, 12));
    assert_eq!(shape((3, 2)).lengths(), (3, 2));
    assert_eq!(shape((200, 201)).lengths(), (200, 12));
}

#[test]
fn a_length_with_too_many_kickers_is_skipped() {
    let spec = PlaySpec {
        primal_size: 1,
        primal_count: (1, 2),
        kicker_size: 1,
        kicker_count: KickerCount::from_fn(|len| if len == 1 { 15 } else { 0 }),
    };
    let source = hand([1, 1, 0, 0, 0, 0, 0, 0, 0, 0, 0, 0, 0, 0, 0]);
    assert_eq!(
        arrays(SearchExt::plays(source, spec)),
        vec![[1, 1, 0, 0, 0, 0, 0, 0, 0, 0, 0, 0, 0, 0, 0]]
    );
    let most = PlaySpec {
        primal_size: 1,
        primal_count: (1, 1),
        kicker_size: 1,
        kicker_count: KickerCount::fixed(14),
    };
    assert_eq!(arrays(SearchExt::plays(Hand::full_deck(), most)), vec![[1; 15], [1; 15]]);
    let huge = PlaySpec {
        primal_size: 1,
        primal_count: (1, 1),
        kicker_size: 1,
        kicker_count: KickerCount::fixed(255),
    };
    assert!(SearchExt::plays(Hand::full_deck(), huge).is_empty());
}

#[test]
fn a_size_that_no_rank_reaches_finds_nothing() {
    let five = PlaySpec {
        primal_size: 5,
        primal_count: (1, 12),
        kicker_size: 0,
        kicker_count: KickerCount::fixed(0),
    };
    assert!(SearchExt::plays(Hand::full_deck(), five).is_empty());
    let kickers = PlaySpec {
        primal_size: 4,
        primal_count: (1, 1),
        kicker_size: 5,
        kicker_count: KickerCount::fixed(1),
    };
    assert!(SearchExt::plays(Hand::full_deck(), kickers).is_empty());
}

#[test]
fn kicker_counts_from_a_function() {
    let per = KickerCount::from_fn(|len| len);
    for len in 0..=12 {
        assert_eq!(per.of(len), len);
        assert_eq!(KickerCount::per_primal().of(len), len);
    }
    assert_eq!(per.of(13), 0);
    let two = KickerCount::from_fn(|_| 2);
    assert_eq!(two.of(1), 2);
    assert_eq!(two.of(12), 2);
    assert_eq!(two.of(0), 0);
    assert_eq!(two.of(13), 0);
    assert_eq!(two.of(255), 0);
    assert_eq!(KickerCount::fixed(2).of(7), 2);
    assert_eq!(KickerCount::fixed(2).of(0), 2);
    assert_eq!(KickerCount::fixed(2).of(13), 2);
    assert_eq!(KickerCount::fixed(2).of(200), 2);
    assert_eq!(KickerCount::per_primal().of(13), 13);
    assert_eq!(KickerCount::per_primal().of(255), 255);
}

#[test]
fn the_shapes_of_the_categories() {
    let solo = PlaySpec::standard(PlayKind::Solo);
    assert_eq!((solo.primal_size, solo.primal_count, solo.kicker_size), (1, (1, 1), 0));
    assert_eq!(solo.kicker_count.of(1), 0);
    let chain = PlaySpec::standard(PlayKind::Chain);
    assert_eq!((chain.primal_size, chain.primal_count, chain.kicker_size), (1, (5, 12), 0));
    let pairs = PlaySpec::standard(PlayKind::PairsChain);
    assert_eq!((pairs.primal_size, pairs.primal_count, pairs.kicker_size), (2, (3, 12), 0));
    let plane = PlaySpec::standard(PlayKind::Airplane);
    assert_eq!((plane.primal_size, plane.primal_count, plane.kicker_size), (3, (2, 12), 0));
    let solos = PlaySpec::standard(PlayKind::AirplaneWithSolos);
    assert_eq!((solos.primal_size, solos.primal_count, solos.kicker_size), (3, (2, 7), 1));
    assert_eq!(solos.kicker_count.of(2), 2);
    assert_eq!(solos.kicker_count.of(7), 7);
    let with_pairs = PlaySpec::standard(PlayKind::AirplaneWithPairs);
    assert_eq!(
        (with_pairs.primal_size, with_pairs.primal_count, with_pairs.kicker_size),
        (3, (2, 7), 2)
    );
    assert_eq!(with_pairs.kicker_count.of(3), 3);
    let trio = PlaySpec::standard(PlayKind::TrioWithPair);
    assert_eq!((trio.primal_size, trio.primal_count, trio.kicker_size), (3, (1, 1), 2));
    assert_eq!(trio.kicker_count.of(1), 1);
    let four = PlaySpec::standard(PlayKind::FourWithDualSolo);
    assert_eq!((four.primal_size, four.primal_count, four.kicker_size), (4, (1, 1), 1));
    assert_eq!(four.kicker_count.of(1), 2);
    let dual = PlaySpec::standard(PlayKind::FourWithDualPair);
    assert_eq!((dual.primal_size, dual.primal_count, dual.kicker_size), (4, (1, 1), 2));
    assert_eq!(dual.kicker_count.of(1), 2);
    for len in [0u8, 1, 12, 13, 100, 255] {
        assert_eq!(solo.kicker_count.of(len), 0);
        assert_eq!(chain.kicker_count.of(len), 0);
        assert_eq!(solos.kicker_count.of(len), len);
        assert_eq!(with_pairs.kicker_count.of(len), len);
        assert_eq!(trio.kicker_count.of(len), 1);
        assert_eq!(PlaySpec::standard(PlayKind::TrioWithSolo).kicker_count.of(len), 1);
        assert_eq!(four.kicker_count.of(len), 2);
        assert_eq!(dual.kicker_count.of(len), 2);
    }
    let bomb = PlaySpec::standard(PlayKind::Bomb);
    assert_eq!((bomb.primal_size, bomb.primal_count, bomb.kicker_size), (4, (1, 1), 0));
}

#[test]
fn the_plays_of_one_length() {
    let source = hand([3, 3, 3, 1, 0, 0, 0, 0, 0, 0, 0, 0, 0, 0, 1]);
    assert_eq!(
        arrays(plays_of_length(source, 3, 1, 3, 3)),
        Vec::<[u8; 15]>::new()
    );
    assert_eq!(
        arrays(plays_of_length(source, 3, 1, 2, 2)),
        vec![
            [3, 3, 1, 1, 0, 0, 0, 0, 0, 0, 0, 0, 0, 0, 0],
            [3, 3, 1, 0, 0, 0, 0, 0, 0, 0, 0, 0, 0, 0, 1],
            [3, 3, 0, 1, 0, 0, 0, 0, 0, 0, 0, 0, 0, 0, 1],
            [1, 3, 3, 1, 0, 0, 0, 0, 0, 0, 0, 0, 0, 0, 0],
            [1, 3, 3, 0, 0, 0, 0, 0, 0, 0, 0, 0, 0, 0, 1],
            [0, 3, 3, 1, 0, 0, 0, 0, 0, 0, 0, 0, 0, 0, 1],
        ]
    );
    assert!(plays_of_length(source, 3, 1, 0, 0).is_empty());
    assert!(plays_of_length(source, 3, 1, 16, 0).is_empty());
    assert_eq!(
        arrays(plays_of_length(source, 3, 0, 3, 0)),
        vec![[3, 3, 3, 0, 0, 0, 0, 0, 0, 0, 0, 0, 0, 0, 0]]
    );
}
