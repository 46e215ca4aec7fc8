//! The plays of the standard categories in a hand: what a search for the
//! shape of a category finds, read as plays of that category.

use crate::engine::composition::{composition_of, lemma_ranks_holding, ranks_holding};
use crate::engine::guard::Guard;
use crate::engine::search::{
    first_length, kicker_rank, last_length, lemma_plays_in, plays_in, primal_rank, shaped,
    standard_kicker_size, standard_kickers, standard_primal_count, standard_primal_size,
};
use crate::hand::valid_counts;
use crate::play::{Play, PlayKind, PlayView};
use crate::rank::Rank;
use crate::ranks::{ascending, lemma_ascending_unique, lemma_window, window};
use vstd::prelude::*;

verus! {

/// The table of the numbers of kickers of the category `kind`, by the
/// length of the main part.
pub open spec fn standard_kicker_counts(kind: PlayKind) -> Seq<u8> {
    Seq::new(13, |len: int| standard_kickers(kind, len))
}

/// What a search for the shape of the category `kind` finds in the hand
/// that holds `hand`.
pub open spec fn standard_plays(hand: Seq<u8>, kind: PlayKind) -> Seq<Seq<u8>> {
    plays_in(
        hand,
        standard_primal_size(kind),
        standard_kicker_size(kind),
        first_length(standard_primal_count(kind).0),
        last_length(standard_primal_count(kind).1) + 1,
        standard_kicker_counts(kind),
    )
}

/// The plays of the category `kind` in the hand that holds `hand`: the
/// rocket if the hand holds both jokers, and for every other category what
/// the search for its shape finds.
pub open spec fn kind_plays(hand: Seq<u8>, kind: PlayKind) -> Seq<PlayView> {
    if kind == PlayKind::Rocket {
        if hand[13] == 1 && hand[14] == 1 {
            seq![PlayView::Rocket]
        } else {
            Seq::empty()
        }
    } else {
        standard_plays(hand, kind).map_values(
            |cards: Seq<u8>| composition_of(cards).to_play(kind).unwrap(),
        )
    }
}

/// What each play of a list says.
pub open spec fn play_views(plays: Seq<Guard<Play>>) -> Seq<PlayView> {
    plays.map_values(|play: Guard<Play>| play@@)
}

/// The ranks of which a play of a given shape holds `m` cards: the main
/// part, the kickers, or none.
pub open spec fn part(
    m: u8,
    primal_size: u8,
    kicker_size: u8,
    len: int,
    k: nat,
    start: int,
    set: Seq<Rank>,
) -> Seq<Rank> {
    if m == primal_size {
        window(start, len)
    } else if k > 0 && m == kicker_size {
        set
    } else {
        Seq::empty()
    }
}

/// In a play made of a main part and of kickers with another number of
/// cards each, the ranks that hold as many cards as the main part are the
/// main part, those that hold as many as a kicker are the kickers, and no
/// rank holds any other number of cards.
pub proof fn lemma_shaped_groups(
    hand: Seq<u8>,
    primal_size: u8,
    kicker_size: u8,
    len: int,
    k: nat,
    start: int,
    set: Seq<Rank>,
    play: Seq<u8>,
    m: u8,
)
    requires
        shaped(hand, primal_size, kicker_size, len, k, start, set, play),
        primal_size >= 1,
        k > 0 ==> kicker_size >= 1 && kicker_size != primal_size,
        m >= 1,
    ensures
        ranks_holding(play, m, 15) == part(m, primal_size, kicker_size, len, k, start, set),
{
    let group = ranks_holding(play, m, 15);
    let target = part(m, primal_size, kicker_size, len, k, start, set);
    lemma_ranks_holding(play, m, 15);
    lemma_window(start, len);
    assert(ascending(target));
    assert forall|r: Rank| group.contains(r) <==> target.contains(r) by {
        let i = r.ord();
        assert(Rank::of_ord(i) == r);
        assert(group.contains(r) <==> play[i] == m);
        if set.contains(r) {
            let t = choose|t: int| 0 <= t < set.len() && set[t] == r;
            assert(kicker_rank(hand, kicker_size, start, len, set[t].ord()));
            assert(play[i] == kicker_size);
            assert(!window(start, len).contains(r));
        } else if start <= i < start + len {
            assert(play[i] == primal_size);
            assert(window(start, len).contains(r));
        } else {
            assert(play[i] == 0);
            assert(!window(start, len).contains(r));
        }
    }
    lemma_ascending_unique(group, target);
}

/// Every play that the search for the shape of a category finds in a hand
/// is a play of that category.
pub proof fn lemma_standard_play_classifies(hand: Seq<u8>, kind: PlayKind, i: int)
    requires
        valid_counts(hand),
        kind != PlayKind::Rocket,
        0 <= i < standard_plays(hand, kind).len(),
    ensures
        composition_of(standard_plays(hand, kind)[i]).to_play(kind) is Some,
{
    let primal_size = standard_primal_size(kind);
    let kicker_size = standard_kicker_size(kind);
    let first = first_length(standard_primal_count(kind).0);
    let n = last_length(standard_primal_count(kind).1) + 1;
    let counts = standard_kicker_counts(kind);
    let play = standard_plays(hand, kind)[i];
    lemma_plays_in(hand, primal_size, kicker_size, first, n, counts, i);
    let (len, start, set) = choose|len: int, start: int, set: Seq<Rank>|
        {
            &&& first <= len < n
            &&& counts[len] + len <= 15
            &&& shaped(hand, primal_size, kicker_size, len, counts[len] as nat, start, set, play)
        };
    let k = counts[len] as nat;
    assert(k == standard_kickers(kind, len));
    lemma_shaped_groups(hand, primal_size, kicker_size, len, k, start, set, play, 1);
    lemma_shaped_groups(hand, primal_size, kicker_size, len, k, start, set, play, 2);
    lemma_shaped_groups(hand, primal_size, kicker_size, len, k, start, set, play, 3);
    lemma_shaped_groups(hand, primal_size, kicker_size, len, k, start, set, play, 4);
    lemma_window(start, len);
    if len >= 2 {
        assert(primal_rank(hand, primal_size, len, start + len - 1));
        assert(start + len <= 12);
    }
    if k >= 2 {
        assert(!set[k - 2].is_joker());
    }
    let comp = composition_of(play);
    assert(comp.solos.ranks == part(1, primal_size, kicker_size, len, k, start, set));
    assert(comp.pairs.ranks == part(2, primal_size, kicker_size, len, k, start, set));
    assert(comp.trios.ranks == part(3, primal_size, kicker_size, len, k, start, set));
    assert(comp.fours.ranks == part(4, primal_size, kicker_size, len, k, start, set));
}

} // verus!
