//! What holds of the rules as a whole: facts that relate several functions
//! of the library, each proved of every hand and every play.

use crate::engine::composition::{
    composition_of, lemma_composition_valid, lemma_ranks_holding, ranks_holding, CompositionView,
};
use crate::engine::ops::{checked_difference, checked_sum, holds_all, sum_fits};
use crate::engine::search::{
    first_length, kicker_rank, kicker_set, last_length, lemma_kicker_set_valid, lemma_plays_in, plays_in,
    primal_rank, primal_window, shaped, standard_kicker_size, standard_primal_count,
    standard_primal_size,
};
use crate::engine::standard::{
    kind_plays, lemma_standard_play_classifies, standard_kicker_counts, standard_plays,
};
use crate::error::HandError;
use crate::hand::{limit, valid_counts, Hand};
use crate::play::{held, lemma_valid_play_counts, PlayKind, PlayView};
use crate::rank::{lemma_of_ord_round_trip, lemma_ord_round_trip, Rank};
use crate::ranks::{
    ascending, conceals_rocket, consecutive, disjoint, lemma_ascending_unique,
    lemma_consecutive_ascending,
};
use vstd::prelude::*;
use vstd::std_specs::convert::TryFromSpec;

verus! {

/// Fifteen counts that one deck can supply make a hand, and the hand holds
/// exactly these counts.
pub proof fn lemma_valid_counts_make_a_hand(counts: [u8; 15])
    requires
        valid_counts(counts@),
    ensures
        <Hand as TryFromSpec<[u8; 15]>>::try_from_spec(counts) is Ok,
        <Hand as TryFromSpec<[u8; 15]>>::try_from_spec(counts).unwrap()@ == counts@,
{
    Hand::lemma_try_from(counts);
}

/// Fifteen counts of which one is above what a deck can supply make no
/// hand, and the error names a rank whose count is too high.
pub proof fn lemma_invalid_counts_make_no_hand(counts: [u8; 15])
    requires
        !valid_counts(counts@),
    ensures
        <Hand as TryFromSpec<[u8; 15]>>::try_from_spec(counts) matches Err(
            HandError::InvalidCount { rank },
        ) && counts@[rank.ord()] > limit(rank.ord()),
{
    Hand::lemma_try_from(counts);
}

/// The counts of a play with a main part `main` of `a` cards each and with
/// kickers `kickers` of `b` cards each.
pub open spec fn two_part_counts(main: Seq<Rank>, a: u8, kickers: Seq<Rank>, b: u8) -> Seq<u8> {
    Seq::new(15, |i: int| held(kickers, Rank::of_ord(i), b, held(main, Rank::of_ord(i), a, 0)))
}

/// In a hand made of two disjoint ascending lists of ranks, with a number
/// of cards of its own for each list, the ranks that hold as many cards as
/// those of one list are that list, and no rank holds any other number.
pub proof fn lemma_two_part_groups(main: Seq<Rank>, a: u8, kickers: Seq<Rank>, b: u8, m: u8)
    requires
        ascending(main),
        ascending(kickers),
        disjoint(main, kickers),
        a >= 1,
        b >= 1,
        a != b,
        m >= 1,
    ensures
        ranks_holding(two_part_counts(main, a, kickers, b), m, 15) == (if m == a {
            main
        } else if m == b {
            kickers
        } else {
            Seq::empty()
        }),
{
    let counts = two_part_counts(main, a, kickers, b);
    let group = ranks_holding(counts, m, 15);
    let target = if m == a {
        main
    } else if m == b {
        kickers
    } else {
        Seq::empty()
    };
    lemma_ranks_holding(counts, m, 15);
    assert forall|r: Rank| group.contains(r) <==> target.contains(r) by {
        let i = r.ord();
        assert(Rank::of_ord(i) == r);
        assert(group.contains(r) <==> counts[i] == m);
        if kickers.contains(r) && main.contains(r) {
            let s = choose|s: int| 0 <= s < main.len() && main[s] == r;
            let t = choose|t: int| 0 <= t < kickers.len() && kickers[t] == r;
            assert(main[s] != kickers[t]);
        }
    }
    lemma_ascending_unique(group, target);
}

/// A list of one rank ascends and holds that rank only.
proof fn lemma_single(rank: Rank)
    ensures
        ascending(seq![rank]),
        seq![rank].len() == 1,
        seq![rank][0] == rank,
        forall|other: Rank| seq![rank].contains(other) <==> other == rank,
{
    assert(seq![rank][0] == rank);
}

/// The groups of the hand of a play with a main part and kickers.
proof fn lemma_groups_of(main: Seq<Rank>, a: u8, kickers: Seq<Rank>, b: u8)
    requires
        ascending(main),
        ascending(kickers),
        disjoint(main, kickers),
        1 <= a <= 4,
        1 <= b <= 4,
        a != b,
    ensures
        forall|m: u8|
            1 <= m <= 4 ==> #[trigger] ranks_holding(two_part_counts(main, a, kickers, b), m, 15)
                == (if m == a {
                main
            } else if m == b {
                kickers
            } else {
                Seq::empty()
            }),
{
    lemma_two_part_groups(main, a, kickers, b, 1);
    lemma_two_part_groups(main, a, kickers, b, 2);
    lemma_two_part_groups(main, a, kickers, b, 3);
    lemma_two_part_groups(main, a, kickers, b, 4);
}

/// A hand is a play of at most one category: where it is a play of the
/// category `kind`, that is the play it is read as, and it is no play of
/// any other category.
pub proof fn lemma_one_kind(comp: CompositionView, kind: PlayKind)
    requires
        comp.to_play(kind) is Some,
    ensures
        comp.guess_play() == comp.to_play(kind),
        comp.to_play(kind).unwrap().kind() == kind,
        forall|other: PlayKind| other != kind ==> comp.to_play(other) is None,
{
}

/// A hand that is read as no play is no play of any category, and one that
/// is read as a play is a play of that play's category.
pub proof fn lemma_guess_play(comp: CompositionView)
    ensures
        comp.guess_play() is None ==> forall|kind: PlayKind| comp.to_play(kind) is None,
        comp.guess_play() matches Some(play) ==> comp.to_play(play.kind()) == Some(play),
{
}

/// The hand of a valid play reads as that play again: the play, made into
/// a hand and classified, comes back with the same category and the same
/// ranks.
pub proof fn lemma_round_trip(play: PlayView)
    requires
        play.valid(),
    ensures
        valid_counts(play.counts()),
        composition_of(play.counts()).to_play(play.kind()) == Some(play),
        composition_of(play.counts()).guess_play() == Some(play),
{
    lemma_valid_play_counts(play);
    let counts = play.counts();
    let none = Seq::<Rank>::empty();
    match play {
        PlayView::Solo(rank) => {
            lemma_single(rank);
            lemma_groups_of(seq![rank], 1, none, 2);
            assert(counts =~= two_part_counts(seq![rank], 1, none, 2));
        },
        PlayView::Chain(ranks) => {
            lemma_consecutive_ascending(ranks);
            lemma_groups_of(ranks, 1, none, 2);
            assert(counts =~= two_part_counts(ranks, 1, none, 2));
        },
        PlayView::Pair(rank) => {
            lemma_single(rank);
            lemma_groups_of(seq![rank], 2, none, 1);
            assert(counts =~= two_part_counts(seq![rank], 2, none, 1));
        },
        PlayView::PairsChain(ranks) => {
            lemma_consecutive_ascending(ranks);
            lemma_groups_of(ranks, 2, none, 1);
            assert(counts =~= two_part_counts(ranks, 2, none, 1));
        },
        PlayView::Trio(rank) => {
            lemma_single(rank);
            lemma_groups_of(seq![rank], 3, none, 1);
            assert(counts =~= two_part_counts(seq![rank], 3, none, 1));
        },
        PlayView::Airplane(ranks) => {
            lemma_consecutive_ascending(ranks);
            lemma_groups_of(ranks, 3, none, 1);
            assert(counts =~= two_part_counts(ranks, 3, none, 1));
        },
        PlayView::TrioWithSolo { trio, solo } => {
            lemma_single(trio);
            lemma_single(solo);
            lemma_groups_of(seq![trio], 3, seq![solo], 1);
            assert(counts =~= two_part_counts(seq![trio], 3, seq![solo], 1));
        },
        PlayView::AirplaneWithSolos { airplane, solos } => {
            lemma_consecutive_ascending(airplane);
            lemma_groups_of(airplane, 3, solos, 1);
            assert(counts =~= two_part_counts(airplane, 3, solos, 1));
        },
        PlayView::TrioWithPair { trio, pair } => {
            lemma_single(trio);
            lemma_single(pair);
            lemma_groups_of(seq![trio], 3, seq![pair], 2);
            assert(counts =~= two_part_counts(seq![trio], 3, seq![pair], 2));
        },
        PlayView::AirplaneWithPairs { airplane, pairs } => {
            lemma_consecutive_ascending(airplane);
            lemma_groups_of(airplane, 3, pairs, 2);
            assert(counts =~= two_part_counts(airplane, 3, pairs, 2));
        },
        PlayView::Bomb(rank) => {
            lemma_single(rank);
            lemma_groups_of(seq![rank], 4, none, 1);
            assert(counts =~= two_part_counts(seq![rank], 4, none, 1));
        },
        PlayView::FourWithDualSolo { four, dual_solo } => {
            lemma_single(four);
            assert forall|i: int, j: int|
                0 <= i < seq![four].len() && 0 <= j < dual_solo.len() implies seq![four][i]
                != dual_solo[j] by {
                assert(dual_solo.contains(dual_solo[j]));
            }
            lemma_groups_of(seq![four], 4, dual_solo, 1);
            assert(counts =~= two_part_counts(seq![four], 4, dual_solo, 1));
        },
        PlayView::FourWithDualPair { four, dual_pair } => {
            lemma_single(four);
            assert forall|i: int, j: int|
                0 <= i < seq![four].len() && 0 <= j < dual_pair.len() implies seq![four][i]
                != dual_pair[j] by {
                assert(dual_pair.contains(dual_pair[j]));
            }
            lemma_groups_of(seq![four], 4, dual_pair, 2);
            assert(counts =~= two_part_counts(seq![four], 4, dual_pair, 2));
        },
        PlayView::Rocket => {
            let jokers = seq![Rank::BlackJoker, Rank::RedJoker];
            lemma_groups_of(jokers, 1, none, 2);
            assert(counts =~= two_part_counts(jokers, 1, none, 2));
            assert(jokers[0] == Rank::BlackJoker && jokers[1] == Rank::RedJoker);
        },
    }
    let comp = composition_of(counts);
    assert(comp.to_play(play.kind()) == Some(play));
    lemma_one_kind(comp, play.kind());
}

/// A hand of four cards of one ordinary rank and nothing else is a bomb of
/// that rank, and no play of any other category.
pub proof fn lemma_four_of_a_kind_is_a_bomb(rank: Rank)
    requires
        !rank.is_joker(),
    ensures
        PlayView::Bomb(rank).counts() == Seq::new(
            15,
            |i: int|
                if i == rank.ord() {
                    4u8
                } else {
                    0u8
                },
        ),
        composition_of(PlayView::Bomb(rank).counts()).guess_play() == Some(PlayView::Bomb(rank)),
        forall|kind: PlayKind|
            kind != PlayKind::Bomb ==> composition_of(PlayView::Bomb(rank).counts()).to_play(kind)
                is None,
{
    let bomb = PlayView::Bomb(rank);
    lemma_round_trip(bomb);
    lemma_single(rank);
    assert(bomb.counts() =~= Seq::new(
        15,
        |i: int|
            if i == rank.ord() {
                4u8
            } else {
                0u8
            },
    )) by {
        assert forall|i: int| 0 <= i < 15 implies bomb.counts()[i] == (if i == rank.ord() {
            4u8
        } else {
            0u8
        }) by {
            lemma_of_ord_round_trip(i);
        }
    }
}

/// A hand of the two jokers and nothing else is the rocket.
pub proof fn lemma_two_jokers_are_the_rocket()
    ensures
        PlayView::Rocket.counts() == Seq::new(
            15,
            |i: int|
                if i >= 13 {
                    1u8
                } else {
                    0u8
                },
        ),
        composition_of(PlayView::Rocket.counts()).guess_play() == Some(PlayView::Rocket),
{
    lemma_round_trip(PlayView::Rocket);
    let jokers = seq![Rank::BlackJoker, Rank::RedJoker];
    assert forall|i: int| 0 <= i < 15 implies PlayView::Rocket.counts()[i] == (if i >= 13 {
        1u8
    } else {
        0u8
    }) by {
        let r = Rank::of_ord(i);
        if i == 13 {
            assert(jokers[0] == r);
        } else if i == 14 {
            assert(jokers[1] == r);
        } else if jokers.contains(r) {
            let j = choose|j: int| 0 <= j < jokers.len() && jokers[j] == r;
        }
    }
    assert(PlayView::Rocket.counts() =~= Seq::new(
        15,
        |i: int|
            if i >= 13 {
                1u8
            } else {
                0u8
            },
    ));
}

/// No set of kickers holds both jokers.
pub proof fn lemma_kickers_hold_one_joker(
    hand: Seq<u8>,
    size: u8,
    start: int,
    len: int,
    k: nat,
    set: Seq<Rank>,
)
    requires
        kicker_set(hand, size, start, len, k, set),
    ensures
        !(set.contains(Rank::BlackJoker) && set.contains(Rank::RedJoker)),
{
    if set.contains(Rank::BlackJoker) && set.contains(Rank::RedJoker) {
        let a = choose|a: int| 0 <= a < set.len() && set[a] == Rank::BlackJoker;
        let b = choose|b: int| 0 <= b < set.len() && set[b] == Rank::RedJoker;
        assert(set[a].is_joker() && set[b].is_joker());
        assert(a != b);
    }
}

/// A main part of two or more ranks stays below `Two`.
pub proof fn lemma_runs_stay_below_two(hand: Seq<u8>, size: u8, start: int, len: int)
    requires
        primal_window(hand, size, start, len),
        len >= 2,
    ensures
        start + len <= 12,
{
    assert(primal_rank(hand, size, len, start + len - 1));
}

/// No play that a search finds with a main part of two or more ranks and
/// without kickers holds a `Two` or a joker.
pub proof fn lemma_chains_exclude_two_and_jokers(
    hand: Seq<u8>,
    primal_size: u8,
    kicker_size: u8,
    first: int,
    n: int,
    kickers: Seq<u8>,
    i: int,
)
    requires
        2 <= first,
        forall|len: int| first <= len < n ==> kickers[len] == 0,
        0 <= i < plays_in(hand, primal_size, kicker_size, first, n, kickers).len(),
    ensures
        plays_in(hand, primal_size, kicker_size, first, n, kickers)[i][12] == 0,
        plays_in(hand, primal_size, kicker_size, first, n, kickers)[i][13] == 0,
        plays_in(hand, primal_size, kicker_size, first, n, kickers)[i][14] == 0,
{
    let play = plays_in(hand, primal_size, kicker_size, first, n, kickers)[i];
    lemma_plays_in(hand, primal_size, kicker_size, first, n, kickers, i);
    let (len, start, set) = choose|len: int, start: int, set: Seq<Rank>|
        {
            &&& first <= len < n
            &&& kickers[len] + len <= 15
            &&& shaped(hand, primal_size, kicker_size, len, kickers[len] as nat, start, set, play)
        };
    lemma_runs_stay_below_two(hand, primal_size, start, len);
    assert(set.len() == 0);
}

/// Every chain that a hand contains is made of ranks below `Two`.
pub proof fn lemma_chain_plays_exclude_two_and_jokers(hand: Seq<u8>, i: int)
    requires
        0 <= i < standard_plays(hand, PlayKind::Chain).len(),
    ensures
        standard_plays(hand, PlayKind::Chain)[i][12] == 0,
        standard_plays(hand, PlayKind::Chain)[i][13] == 0,
        standard_plays(hand, PlayKind::Chain)[i][14] == 0,
{
    lemma_chains_exclude_two_and_jokers(
        hand,
        1,
        0,
        5,
        13,
        standard_kicker_counts(PlayKind::Chain),
        i,
    );
}

/// Each play of a category that a hand contains is a valid play of that
/// category. In particular the kickers of an airplane with solos or of a
/// four with two solos are never the two jokers together.
pub proof fn lemma_kind_plays_valid(hand: Seq<u8>, kind: PlayKind, i: int)
    requires
        valid_counts(hand),
        0 <= i < kind_plays(hand, kind).len(),
    ensures
        kind_plays(hand, kind)[i].valid(),
        kind_plays(hand, kind)[i].kind() == kind,
        kind_plays(hand, kind)[i] matches PlayView::AirplaneWithSolos { solos, .. } ==> !(
        solos.contains(Rank::BlackJoker) && solos.contains(Rank::RedJoker)),
        kind_plays(hand, kind)[i] matches PlayView::FourWithDualSolo { dual_solo, .. } ==> !(
        dual_solo.contains(Rank::BlackJoker) && dual_solo.contains(Rank::RedJoker)),
{
    let play = kind_plays(hand, kind)[i];
    if kind != PlayKind::Rocket {
        let cards = standard_plays(hand, kind)[i];
        lemma_standard_play_classifies(hand, kind, i);
        let comp = composition_of(cards);
        assert(play == comp.to_play(kind).unwrap());
        lemma_searched_valid(hand, kind, i);
        lemma_composition_valid(cards);
        lemma_classified_valid(comp, kind);
    }
    lemma_no_two_jokers(play);
}

/// What a search for the shape of a category finds can be taken from one
/// deck.
pub proof fn lemma_searched_valid(hand: Seq<u8>, kind: PlayKind, i: int)
    requires
        valid_counts(hand),
        0 <= i < standard_plays(hand, kind).len(),
    ensures
        valid_counts(standard_plays(hand, kind)[i]),
{
    let primal_size = standard_primal_size(kind);
    let kicker_size = standard_kicker_size(kind);
    let first = first_length(standard_primal_count(kind).0);
    let n = last_length(standard_primal_count(kind).1) + 1;
    let counts = standard_kicker_counts(kind);
    let play = standard_plays(hand, kind)[i];
    lemma_plays_in(hand, primal_size, kicker_size, first, n, counts, i);
    let (len, start, set) = choose|len: int, start: int, set: Seq<Rank>|
        {
            &&& first <= len < n
            &&& counts[len] + len <= 15
            &&& shaped(hand, primal_size, kicker_size, len, counts[len] as nat, start, set, play)
        };
    lemma_kicker_set_valid(
        hand,
        primal_size,
        kicker_size,
        start,
        len,
        counts[len] as nat,
        set,
    );
}

/// The play that a valid composition is read as is valid.
pub proof fn lemma_classified_valid(comp: CompositionView, kind: PlayKind)
    requires
        comp.valid(),
        comp.to_play(kind) is Some,
    ensures
        comp.to_play(kind).unwrap().valid(),
        comp.to_play(kind).unwrap().kind() == kind,
{
    match kind {
        PlayKind::FourWithDualSolo => {
            let four = comp.fours.ranks[0];
            let solos = comp.solos.ranks;
            if solos.contains(four) {
                let j = choose|j: int| 0 <= j < solos.len() && solos[j] == four;
                assert(solos[j] != comp.fours.ranks[0]);
            }
        },
        PlayKind::FourWithDualPair => {
            let four = comp.fours.ranks[0];
            let pairs = comp.pairs.ranks;
            if pairs.contains(four) {
                let j = choose|j: int| 0 <= j < pairs.len() && pairs[j] == four;
                assert(pairs[j] != comp.fours.ranks[0]);
            }
        },
        _ => {},
    }
}

/// The single kickers of a valid play are never the two jokers together.
pub proof fn lemma_no_two_jokers(play: PlayView)
    requires
        play.valid(),
    ensures
        play matches PlayView::AirplaneWithSolos { solos, .. } ==> !(solos.contains(
            Rank::BlackJoker,
        ) && solos.contains(Rank::RedJoker)),
        play matches PlayView::FourWithDualSolo { dual_solo, .. } ==> !(dual_solo.contains(
            Rank::BlackJoker,
        ) && dual_solo.contains(Rank::RedJoker)),
{
    match play {
        PlayView::AirplaneWithSolos { solos, .. } => {
            if solos.contains(Rank::BlackJoker) && solos.contains(Rank::RedJoker) {
                lemma_ascending_jokers_last(solos);
            }
        },
        PlayView::FourWithDualSolo { dual_solo, .. } => {
            if dual_solo.contains(Rank::BlackJoker) && dual_solo.contains(Rank::RedJoker) {
                lemma_ascending_jokers_last(dual_solo);
            }
        },
        _ => {},
    }
}

/// An ascending list that holds both jokers ends with them.
pub proof fn lemma_ascending_jokers_last(ranks: Seq<Rank>)
    requires
        ascending(ranks),
        ranks.contains(Rank::BlackJoker),
        ranks.contains(Rank::RedJoker),
    ensures
        conceals_rocket(ranks),
{
    let a = choose|a: int| 0 <= a < ranks.len() && ranks[a] == Rank::BlackJoker;
    let b = choose|b: int| 0 <= b < ranks.len() && ranks[b] == Rank::RedJoker;
    let n = ranks.len() as int;
    assert(a < b) by {
        if b <= a {
            if b < a {
                assert(ranks[b].ord() < ranks[a].ord());
            }
        }
    }
    if b < n - 1 {
        assert(ranks[b].ord() < ranks[n - 1].ord());
        lemma_ord_round_trip(ranks[n - 1]);
    }
    if a < n - 2 {
        assert(ranks[a].ord() < ranks[n - 2].ord());
        assert(ranks[n - 2].ord() < ranks[n - 1].ord());
    }
}

/// Taking out of a hand a card that it does not hold gives nothing: where
/// `b` asks for more cards of some rank than `a` holds, there is no
/// difference.
pub proof fn lemma_lacking_card_gives_none(a: Seq<u8>, b: Seq<u8>, i: int)
    requires
        0 <= i < 15,
        b[i] > a[i],
    ensures
        checked_difference(a, b) is None,
{
    if holds_all(a, b) {
        assert(b[i] <= a[i]);
    }
}

/// Putting into a hand more cards of a rank than a deck holds gives
/// nothing: where `a` and `b` together go above the limit of some rank,
/// there is no sum.
pub proof fn lemma_excess_card_gives_none(a: Seq<u8>, b: Seq<u8>, i: int)
    requires
        0 <= i < 15,
        a[i] + b[i] > limit(i),
    ensures
        checked_sum(a, b) is None,
{
    if sum_fits(a, b) {
        assert(a[i] + b[i] <= limit(i));
    }
}

/// A list of ranks holds a rank exactly if one of its entries is the rank;
/// so an empty list holds none, and a list of one rank holds that rank
/// only.
proof fn lemma_short_lists(ranks: Seq<Rank>, rank: Rank)
    ensures
        ranks.len() == 0 ==> !ranks.contains(rank),
        ranks.len() == 1 ==> (ranks.contains(rank) <==> ranks[0] == rank),
        ranks.len() == 1 ==> (seq![ranks[0]].contains(rank) <==> ranks[0] == rank),
{
    if ranks.len() == 1 {
        lemma_single(ranks[0]);
        if ranks[0] == rank {
            assert(ranks[0] == rank);
        }
    }
}

/// The play that a hand reads as holds exactly the cards of the hand: a
/// hand, classified and made into a hand again, comes back as it was.
pub proof fn lemma_play_holds_the_hand(hand: Seq<u8>, kind: PlayKind)
    requires
        valid_counts(hand),
        composition_of(hand).to_play(kind) is Some,
    ensures
        composition_of(hand).to_play(kind).unwrap().valid(),
        composition_of(hand).to_play(kind).unwrap().counts() == hand,
{
    let comp = composition_of(hand);
    let play = comp.to_play(kind).unwrap();
    lemma_composition_valid(hand);
    lemma_classified_valid(comp, kind);
    lemma_ranks_holding(hand, 1, 15);
    lemma_ranks_holding(hand, 2, 15);
    lemma_ranks_holding(hand, 3, 15);
    lemma_ranks_holding(hand, 4, 15);
    assert forall|i: int| 0 <= i < 15 implies play.counts()[i] == hand[i] by {
        let r = Rank::of_ord(i);
        lemma_of_ord_round_trip(i);
        assert(hand[i] <= limit(i));
        lemma_short_lists(comp.solos.ranks, r);
        lemma_short_lists(comp.pairs.ranks, r);
        lemma_short_lists(comp.trios.ranks, r);
        lemma_short_lists(comp.fours.ranks, r);
        if kind == PlayKind::Rocket {
            let jokers = seq![Rank::BlackJoker, Rank::RedJoker];
            assert(comp.solos.ranks =~= jokers);
        }
    }
    assert(play.counts() =~= hand);
}

/// Every play that a search finds is part of the searched hand: the hand
/// holds each of its cards, so the play can be taken out of the hand.
pub proof fn lemma_found_plays_are_held(
    hand: Seq<u8>,
    primal_size: u8,
    kicker_size: u8,
    first: int,
    n: int,
    kickers: Seq<u8>,
    i: int,
)
    requires
        valid_counts(hand),
        0 <= i < plays_in(hand, primal_size, kicker_size, first, n, kickers).len(),
    ensures
        valid_counts(plays_in(hand, primal_size, kicker_size, first, n, kickers)[i]),
        holds_all(hand, plays_in(hand, primal_size, kicker_size, first, n, kickers)[i]),
        checked_difference(hand, plays_in(hand, primal_size, kicker_size, first, n, kickers)[i])
            is Some,
{
    let play = plays_in(hand, primal_size, kicker_size, first, n, kickers)[i];
    lemma_plays_in(hand, primal_size, kicker_size, first, n, kickers, i);
    let (len, start, set) = choose|len: int, start: int, set: Seq<Rank>|
        {
            &&& first <= len < n
            &&& kickers[len] + len <= 15
            &&& shaped(hand, primal_size, kicker_size, len, kickers[len] as nat, start, set, play)
        };
    lemma_kicker_set_valid(hand, primal_size, kicker_size, start, len, kickers[len] as nat, set);
    assert forall|p: int| 0 <= p < 15 implies (#[trigger] play[p]) <= hand[p] by {
        let r = Rank::of_ord(p);
        lemma_of_ord_round_trip(p);
        if set.contains(r) {
            let t = choose|t: int| 0 <= t < set.len() && set[t] == r;
            assert(kicker_rank(hand, kicker_size, start, len, set[t].ord()));
        } else if start <= p < start + len {
            assert(primal_rank(hand, primal_size, len, p));
        }
    }
}

/// The rank by which a valid play compares is the weakest of the ranks of
/// which the play holds a card: the play holds a card of it, and no card of
/// any weaker rank.
pub proof fn lemma_lead_is_weakest(play: PlayView, rank: Rank)
    requires
        play.valid(),
    ensures
        play.count(play.lead()) > 0,
        play.count(rank) > 0 ==> play.lead().ord() <= rank.ord(),
{
    let lead = play.lead();
    match play {
        PlayView::Solo(r) => {
            lemma_single(r);
        },
        PlayView::Chain(ranks) => {
            lemma_first_is_weakest(ranks, rank);
        },
        PlayView::Pair(r) => {
            lemma_single(r);
        },
        PlayView::PairsChain(ranks) => {
            lemma_first_is_weakest(ranks, rank);
        },
        PlayView::Trio(r) => {
            lemma_single(r);
        },
        PlayView::Airplane(ranks) => {
            lemma_first_is_weakest(ranks, rank);
        },
        PlayView::TrioWithSolo { trio, solo } => {
            lemma_single(trio);
            lemma_single(solo);
        },
        PlayView::AirplaneWithSolos { airplane, solos } => {
            lemma_first_is_weakest(airplane, rank);
            lemma_first_is_weakest(solos, rank);
        },
        PlayView::TrioWithPair { trio, pair } => {
            lemma_single(trio);
            lemma_single(pair);
        },
        PlayView::AirplaneWithPairs { airplane, pairs } => {
            lemma_first_is_weakest(airplane, rank);
            lemma_first_is_weakest(pairs, rank);
        },
        PlayView::Bomb(r) => {
            lemma_single(r);
        },
        PlayView::FourWithDualSolo { four, dual_solo } => {
            lemma_single(four);
            lemma_first_is_weakest(dual_solo, rank);
        },
        PlayView::FourWithDualPair { four, dual_pair } => {
            lemma_single(four);
            lemma_first_is_weakest(dual_pair, rank);
        },
        PlayView::Rocket => {
            let jokers = seq![Rank::BlackJoker, Rank::RedJoker];
            assert(jokers[0] == Rank::BlackJoker);
            if jokers.contains(rank) {
                let j = choose|j: int| 0 <= j < jokers.len() && jokers[j] == rank;
            }
        },
    }
}

/// A list of ranks that ascend, or that form a run, holds its first rank
/// and no weaker one.
proof fn lemma_first_is_weakest(ranks: Seq<Rank>, rank: Rank)
    requires
        ranks.len() > 0,
        ascending(ranks) || consecutive(ranks),
    ensures
        ranks.contains(ranks[0]),
        ranks.contains(rank) ==> ranks[0].ord() <= rank.ord(),
{
    assert(ranks[0] == ranks[0]);
    if consecutive(ranks) {
        lemma_consecutive_ascending(ranks);
    }
    if ranks.contains(rank) {
        let j = choose|j: int| 0 <= j < ranks.len() && ranks[j] == rank;
        if j > 0 {
            assert(ranks[0].ord() < ranks[j].ord());
        }
    }
}

} // verus!
