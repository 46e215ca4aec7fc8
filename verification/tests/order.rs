use dou_dizhu::engine::Guard;
use dou_dizhu::{Play, PlayKind, Rank};
use std::cmp::Ordering;

fn guard(play: Play) -> Guard<Play> {
    Guard::new_unchecked(play)
}

fn ordinary() -> Vec<Guard<Play>> {
    vec![
        guard(Play::Solo(Rank::RedJoker)),
        guard(Play::Chain(vec![Rank::Ten, Rank::Jack, Rank::Queen, Rank::King, Rank::Ace])),
        guard(Play::Pair(Rank::Two)),
        guard(Play::PairsChain(vec![Rank::Queen, Rank::King, Rank::Ace])),
        guard(Play::Trio(Rank::Two)),
        guard(Play::Airplane(vec![Rank::King, Rank::Ace])),
        guard(Play::TrioWithSolo { trio: Rank::Two, solo: Rank::RedJoker }),
        guard(Play::AirplaneWithSolos {
            airplane: vec![Rank::King, Rank::Ace],
            solos: vec![Rank::Two, Rank::RedJoker],
        }),
        guard(Play::TrioWithPair { trio: Rank::Two, pair: Rank::Ace }),
        guard(Play::AirplaneWithPairs {
            airplane: vec![Rank::King, Rank::Ace],
            pairs: vec![Rank::Queen, Rank::Two],
        }),
        guard(Play::FourWithDualSolo { four: Rank::Two, dual_solo: [Rank::Ace, Rank::RedJoker] }),
        guard(Play::FourWithDualPair { four: Rank::Two, dual_pair: [Rank::King, Rank::Ace] }),
    ]
}

#[test]
fn the_rocket_beats_every_other_play() {
    let rocket = guard(Play::Rocket);
    for play in ordinary() {
        assert_eq!(rocket.partial_cmp(&play), Some(Ordering::Greater));
        assert_eq!(play.partial_cmp(&rocket), Some(Ordering::Less));
        assert!(rocket > play);
    }
    for i in 0..13 {
        let bomb = guard(Play::Bomb(Rank::from_ordinal(i).unwrap()));
        assert_eq!(rocket.partial_cmp(&bomb), Some(Ordering::Greater));
        assert_eq!(bomb.partial_cmp(&rocket), Some(Ordering::Less));
    }
    assert_eq!(rocket.partial_cmp(&guard(Play::Rocket)), Some(Ordering::Equal));
    assert!(rocket == guard(Play::Rocket));
}

#[test]
fn a_bomb_beats_every_play_but_a_bomb_and_the_rocket() {
    let bomb = guard(Play::Bomb(Rank::Three));
    for play in ordinary() {
        assert_eq!(bomb.partial_cmp(&play), Some(Ordering::Greater));
        assert_eq!(play.partial_cmp(&bomb), Some(Ordering::Less));
        assert!(play < bomb);
        assert!(play != bomb);
    }
}

#[test]
fn bombs_compare_by_rank() {
    let three = guard(Play::Bomb(Rank::Three));
    let four = guard(Play::Bomb(Rank::Four));
    assert_eq!(three.partial_cmp(&four), Some(Ordering::Less));
    assert_eq!(four.partial_cmp(&three), Some(Ordering::Greater));
    assert_eq!(three.partial_cmp(&guard(Play::Bomb(Rank::Three))), Some(Ordering::Equal));
    assert!(three < four);
    assert!(guard(Play::Bomb(Rank::Ace)) < guard(Play::Bomb(Rank::Two)));
}

#[test]
fn ordinary_plays_of_different_categories_do_not_compare() {
    let plays = ordinary();
    for (i, a) in plays.iter().enumerate() {
        for (j, b) in plays.iter().enumerate() {
            if i != j {
                assert_eq!(a.partial_cmp(b), None);
                assert!(!(a < b));
                assert!(!(a > b));
                assert!(!(a <= b));
                assert!(!(a >= b));
                assert!(a != b);
            } else {
                assert_eq!(a.partial_cmp(b), Some(Ordering::Equal));
            }
        }
    }
}

#[test]
fn plays_of_one_category_compare_by_their_weakest_rank() {
    assert!(guard(Play::Solo(Rank::Ace)) < guard(Play::Solo(Rank::Two)));
    assert!(guard(Play::Solo(Rank::BlackJoker)) < guard(Play::Solo(Rank::RedJoker)));
    assert!(guard(Play::Pair(Rank::King)) > guard(Play::Pair(Rank::Queen)));
    assert!(guard(Play::Trio(Rank::King)) == guard(Play::Trio(Rank::King)));
    assert!(guard(Play::Trio(Rank::King)) < guard(Play::Trio(Rank::Two)));
}

#[test]
fn kickers_count_for_the_weakest_rank() {
    assert_eq!(
        guard(Play::TrioWithSolo { trio: Rank::Five, solo: Rank::Three })
            .partial_cmp(&guard(Play::TrioWithSolo { trio: Rank::Four, solo: Rank::Six })),
        Some(Ordering::Less)
    );
    assert_eq!(
        guard(Play::TrioWithSolo { trio: Rank::Four, solo: Rank::Six })
            .partial_cmp(&guard(Play::TrioWithSolo { trio: Rank::Five, solo: Rank::Three })),
        Some(Ordering::Greater)
    );
    assert_eq!(
        guard(Play::TrioWithSolo { trio: Rank::Five, solo: Rank::RedJoker })
            .partial_cmp(&guard(Play::TrioWithSolo { trio: Rank::Six, solo: Rank::Three })),
        Some(Ordering::Greater)
    );
    assert_eq!(
        guard(Play::TrioWithSolo { trio: Rank::Five, solo: Rank::RedJoker })
            .partial_cmp(&guard(Play::TrioWithSolo { trio: Rank::Six, solo: Rank::Five })),
        Some(Ordering::Equal)
    );
    assert_eq!(
        guard(Play::TrioWithPair { trio: Rank::Five, pair: Rank::Three })
            .partial_cmp(&guard(Play::TrioWithPair { trio: Rank::Five, pair: Rank::Two })),
        Some(Ordering::Less)
    );
    assert_eq!(
        guard(Play::TrioWithPair { trio: Rank::Five, pair: Rank::Ace })
            .partial_cmp(&guard(Play::TrioWithPair { trio: Rank::Five, pair: Rank::Two })),
        Some(Ordering::Equal)
    );
    assert_eq!(
        guard(Play::FourWithDualSolo { four: Rank::Nine, dual_solo: [Rank::Three, Rank::Four] })
            .partial_cmp(&guard(Play::FourWithDualSolo {
                four: Rank::Eight,
                dual_solo: [Rank::Ace, Rank::Two],
            })),
        Some(Ordering::Less)
    );
    assert_eq!(
        guard(Play::FourWithDualSolo { four: Rank::Nine, dual_solo: [Rank::Ten, Rank::Two] })
            .partial_cmp(&guard(Play::FourWithDualSolo {
                four: Rank::Eight,
                dual_solo: [Rank::Ace, Rank::Two],
            })),
        Some(Ordering::Greater)
    );
    assert_eq!(
        guard(Play::FourWithDualPair { four: Rank::Three, dual_pair: [Rank::Ace, Rank::Two] })
            .partial_cmp(&guard(Play::FourWithDualPair {
                four: Rank::Four,
                dual_pair: [Rank::Five, Rank::Six],
            })),
        Some(Ordering::Less)
    );
    assert_eq!(
        guard(Play::FourWithDualPair { four: Rank::Ace, dual_pair: [Rank::Five, Rank::Two] })
            .partial_cmp(&guard(Play::FourWithDualPair {
                four: Rank::Four,
                dual_pair: [Rank::Five, Rank::Six],
            })),
        Some(Ordering::Greater)
    );
    assert_eq!(
        guard(Play::AirplaneWithSolos {
            airplane: vec![Rank::Five, Rank::Six],
            solos: vec![Rank::Three, Rank::Two],
        })
        .partial_cmp(&guard(Play::AirplaneWithSolos {
            airplane: vec![Rank::Four, Rank::Five],
            solos: vec![Rank::Six, Rank::Seven],
        })),
        Some(Ordering::Less)
    );
    assert_eq!(
        guard(Play::AirplaneWithPairs {
            airplane: vec![Rank::Five, Rank::Six],
            pairs: vec![Rank::Ten, Rank::Two],
        })
        .partial_cmp(&guard(Play::AirplaneWithPairs {
            airplane: vec![Rank::Seven, Rank::Eight],
            pairs: vec![Rank::Four, Rank::Nine],
        })),
        Some(Ordering::Greater)
    );
}

#[test]
fn runs_compare_only_with_runs_of_the_same_length() {
    let low = guard(Play::Chain(vec![Rank::Three, Rank::Four, Rank::Five, Rank::Six, Rank::Seven]));
    let high =
        guard(Play::Chain(vec![Rank::Four, Rank::Five, Rank::Six, Rank::Seven, Rank::Eight]));
    let long = guard(Play::Chain(vec![
        Rank::Four,
        Rank::Five,
        Rank::Six,
        Rank::Seven,
        Rank::Eight,
        Rank::Nine,
    ]));
    assert_eq!(low.partial_cmp(&high), Some(Ordering::Less));
    assert_eq!(high.partial_cmp(&low), Some(Ordering::Greater));
    assert_eq!(low.partial_cmp(&long), None);
    assert_eq!(long.partial_cmp(&high), None);
    assert!(long != high);
    let planes = guard(Play::Airplane(vec![Rank::Three, Rank::Four]));
    let more = guard(Play::Airplane(vec![Rank::Three, Rank::Four, Rank::Five]));
    assert_eq!(planes.partial_cmp(&more), None);
    let a = guard(Play::AirplaneWithSolos {
        airplane: vec![Rank::Three, Rank::Four],
        solos: vec![Rank::Ace, Rank::Two],
    });
    let b = guard(Play::AirplaneWithSolos {
        airplane: vec![Rank::Five, Rank::Six],
        solos: vec![Rank::Four, Rank::Seven],
    });
    assert_eq!(a.partial_cmp(&b), Some(Ordering::Less));
    let longer = guard(Play::AirplaneWithSolos {
        airplane: vec![Rank::Five, Rank::Six, Rank::Seven],
        solos: vec![Rank::Four, Rank::Eight, Rank::Nine],
    });
    assert_eq!(a.partial_cmp(&longer), None);
    let c = guard(Play::PairsChain(vec![Rank::Three, Rank::Four, Rank::Five]));
    let d = guard(Play::PairsChain(vec![Rank::Three, Rank::Four, Rank::Five, Rank::Six]));
    assert_eq!(c.partial_cmp(&d), None);
    let e = guard(Play::AirplaneWithPairs {
        airplane: vec![Rank::Three, Rank::Four],
        pairs: vec![Rank::Ace, Rank::Two],
    });
    let f = guard(Play::AirplaneWithPairs {
        airplane: vec![Rank::Three, Rank::Four],
        pairs: vec![Rank::Five, Rank::Six],
    });
    assert_eq!(e.partial_cmp(&f), Some(Ordering::Equal));
    assert!(e == f);
}

#[test]
fn categories_compare_by_tier() {
    assert_eq!(PlayKind::Rocket.partial_cmp(&PlayKind::Bomb), Some(Ordering::Greater));
    assert_eq!(PlayKind::Bomb.partial_cmp(&PlayKind::Rocket), Some(Ordering::Less));
    assert_eq!(PlayKind::Bomb.partial_cmp(&PlayKind::Solo), Some(Ordering::Greater));
    assert_eq!(PlayKind::Chain.partial_cmp(&PlayKind::Rocket), Some(Ordering::Less));
    assert_eq!(PlayKind::Chain.partial_cmp(&PlayKind::Chain), Some(Ordering::Equal));
    assert_eq!(PlayKind::Bomb.partial_cmp(&PlayKind::Bomb), Some(Ordering::Equal));
    assert_eq!(PlayKind::Chain.partial_cmp(&PlayKind::Solo), None);
    assert_eq!(PlayKind::FourWithDualSolo.partial_cmp(&PlayKind::Trio), None);
    assert!(PlayKind::Rocket > PlayKind::FourWithDualPair);
    assert!(!(PlayKind::Pair < PlayKind::Trio));
    assert!(!(PlayKind::Pair > PlayKind::Trio));
}
