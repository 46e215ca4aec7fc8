use crate::engine::composition::{composition_of, play_view, CompositionExt};
use crate::engine::counting::lemma_kind_plays_distinct;
use crate::error::HandError;
use crate::laws::lemma_kind_plays_valid;
use crate::engine::guard::Guard;
use crate::engine::search::{hand_views, PlaySpec, SearchExt};
use crate::engine::standard::{
    kind_plays, lemma_standard_play_classifies, play_views, standard_plays,
};
use crate::play::{Play, PlayKind, PlayView};
use crate::rank::{lemma_of_ord_round_trip, Rank};
use std::ops::Index;
use vstd::prelude::*;
use vstd::std_specs::cmp::PartialEqSpecImpl;
use vstd::std_specs::convert::{TryFromSpec, TryFromSpecImpl};

verus! {

/// The most cards that a deck holds of the rank at position `i`: four of
/// each ordinary rank, one of each joker.
pub open spec fn limit(i: int) -> int {
    if i < 13 {
        4
    } else {
        1
    }
}

/// Whether `counts` gives, for each of the 15 ranks, a number of cards that
/// one deck can supply.
pub open spec fn valid_counts(counts: Seq<u8>) -> bool {
    &&& counts.len() == 15
    &&& forall|i: int| 0 <= i < 15 ==> #[trigger] counts[i] <= limit(i)
}

/// Whether position `i` is the first at which `counts` asks for more cards
/// than a deck holds.
pub open spec fn first_excess(counts: Seq<u8>, i: int) -> bool {
    &&& 0 <= i < 15
    &&& counts[i] > limit(i)
    &&& forall|j: int| 0 <= j < i ==> #[trigger] counts[j] <= limit(j)
}

/// The number of cards in the first `n` ranks of `counts`.
pub open spec fn card_total(counts: Seq<u8>, n: int) -> int
    decreases n,
{
    if n <= 0 {
        0
    } else {
        card_total(counts, n - 1) + counts[n - 1]
    }
}

/// A multiset of cards from one deck, held as the number of cards of each
/// rank.
#[derive(Debug, Clone, Copy, Eq)]
pub struct Hand([u8; 15]);

impl View for Hand {
    type V = Seq<u8>;

    /// The number of cards of each rank, by the rank's position.
    closed spec fn view(&self) -> Seq<u8> {
        self.0@
    }
}

impl Hand {
    /// Every hand holds counts that one deck can supply.
    #[verifier::type_invariant]
    pub closed spec fn inv(self) -> bool {
        valid_counts(self@)
    }

    /// The number of cards of `rank` in the hand.
    pub open spec fn count(self, rank: Rank) -> u8 {
        self@[rank.ord()]
    }

    /// The hand that holds `counts`, where these are valid.
    pub closed spec fn holding(counts: Seq<u8>) -> Hand {
        choose|hand: Hand| hand@ == counts
    }

    /// A hand is the hand that holds its counts.
    pub proof fn lemma_holding(self)
        ensures
            Hand::holding(self@) == self,
    {
        let other = Hand::holding(self@);
        assert(other@ == self@);
        other.lemma_ext_equal(self);
    }

    /// What making a hand of 15 counts gives: the hand that holds them if
    /// one deck can supply them, else an error that names the first rank
    /// of which they ask too many cards.
    pub proof fn lemma_try_from(counts: [u8; 15])
        ensures
            valid_counts(counts@) ==> (<Hand as TryFromSpec<[u8; 15]>>::try_from_spec(counts)
                matches Ok(hand) && hand@ == counts@),
            !valid_counts(counts@) ==> (<Hand as TryFromSpec<[u8; 15]>>::try_from_spec(counts)
                matches Err(HandError::InvalidCount { rank }) && first_excess(
                counts@,
                rank.ord(),
            )),
    {
        if !valid_counts(counts@) {
            lemma_first_excess_exists(counts@, 0);
            let i = choose|i: int| first_excess(counts@, i);
            lemma_of_ord_round_trip(i);
        }
    }

    /// Two hands with the same counts are the same hand.
    pub proof fn lemma_ext_equal(self, other: Hand)
        requires
            self@ == other@,
        ensures
            self == other,
    {
        assert(self.0 =~= other.0);
    }

    /// Wraps counts that are known to be valid.
    pub(crate) fn from_counts(counts: [u8; 15]) -> (hand: Hand)
        requires
            valid_counts(counts@),
        ensures
            hand@ == counts@,
    {
        Hand(counts)
    }

    /// A complete deck: four cards of each ordinary rank and the two jokers.
    pub fn full_deck() -> (hand: Hand)
        ensures
            hand@ == Seq::new(15, |i: int| limit(i) as u8),
    {
        let hand = Hand([4, 4, 4, 4, 4, 4, 4, 4, 4, 4, 4, 4, 4, 1, 1]);
        assert(hand@ =~= Seq::new(15, |i: int| limit(i) as u8));
        hand
    }

    /// The hand without cards.
    pub fn empty() -> (hand: Hand)
        ensures
            hand@ == Seq::new(15, |i: int| 0u8),
    {
        let hand = Hand([0, 0, 0, 0, 0, 0, 0, 0, 0, 0, 0, 0, 0, 0, 0]);
        assert(hand@ =~= Seq::new(15, |i: int| 0u8));
        hand
    }

    /// The number of cards of each rank, by the rank's position.
    pub fn to_array(self) -> (counts: [u8; 15])
        ensures
            counts@ == self@,
            valid_counts(counts@),
    {
        proof {
            use_type_invariant(&self);
        }
        self.0
    }

    /// The standard play that the hand is, or `None` if it is none.
    pub fn to_play(self) -> (play: Option<Guard<Play>>)
        ensures
            play_view(play) == composition_of(self@).guess_play(),
    {
        self.composition().guess_play()
    }

    /// Every play of the category `kind` that the hand contains. Runs come
    /// by ascending length and then by ascending start, each with its sets
    /// of kickers in turn.
    pub fn plays(self, kind: PlayKind) -> (plays: Vec<Guard<Play>>)
        ensures
            play_views(plays@) == kind_plays(self@, kind),
            forall|i: int| 0 <= i < plays@.len() ==> (#[trigger] plays@[i])@@.kind() == kind,
            play_views(plays@).no_duplicates(),
    {
        proof {
            use_type_invariant(&self);
        }
        let mut plays: Vec<Guard<Play>> = Vec::new();
        match kind {
            PlayKind::Rocket => {
                if self.0[13] == 1 && self.0[14] == 1 {
                    plays.push(Guard::new_unchecked(Play::Rocket));
                    assert(play_views(plays@) =~= seq![PlayView::Rocket]);
                } else {
                    assert(play_views(plays@) =~= Seq::empty());
                }
            },
            _ => {
                let hands = SearchExt::plays(self, PlaySpec::standard(kind));
                let ghost found = standard_plays(self@, kind);
                let ghost f = |cards: Seq<u8>| composition_of(cards).to_play(kind).unwrap();
                assert(hand_views(hands@) == found);
                assert(play_views(plays@) =~= found.take(0).map_values(f));
                let mut i: usize = 0;
                while i < hands.len()
                    invariant
                        0 <= i <= hands.len(),
                        valid_counts(self@),
                        kind != PlayKind::Rocket,
                        found == standard_plays(self@, kind),
                        hand_views(hands@) == found,
                        f == |cards: Seq<u8>| composition_of(cards).to_play(kind).unwrap(),
                        play_views(plays@) == found.take(i as int).map_values(f),
                    decreases hands.len() - i,
                {
                    let hand = hands[i];
                    proof {
                        assert(hand_views(hands@)[i as int] == hand@);
                        lemma_standard_play_classifies(self@, kind, i as int);
                    }
                    let ghost before = plays@;
                    match hand.composition().to_play(kind) {
                        Some(play) => {
                            plays.push(play);
                            proof {
                                assert(found.take(i + 1) =~= found.take(i as int).push(
                                    found[i as int],
                                ));
                                assert(play_views(plays@) =~= play_views(before).push(play@@));
                                assert(play_views(plays@) =~= found.take(i + 1).map_values(f));
                            }
                        },
                        None => {
                            assert(false);
                        },
                    }
                    i += 1;
                }
                assert(found.take(i as int) =~= found);
            },
        }
        proof {
            assert forall|i: int| 0 <= i < plays@.len() implies (#[trigger] plays@[i])@@.kind()
                == kind by {
                assert(play_views(plays@)[i] == plays@[i]@@);
                lemma_kind_plays_valid(self@, kind, i);
            }
            let views = play_views(plays@);
            assert forall|i: int, j: int|
                0 <= i < views.len() && 0 <= j < views.len() && i != j implies views[i]
                != views[j] by {
                if i < j {
                    lemma_kind_plays_distinct(self@, kind, i, j);
                } else {
                    lemma_kind_plays_distinct(self@, kind, j, i);
                }
            }
        }
        plays
    }

    /// The number of cards in the hand.
    pub fn len(&self) -> (n: usize)
        ensures
            n == card_total(self@, 15),
            n <= 54,
    {
        proof {
            use_type_invariant(self);
        }
        let mut sum: usize = 0;
        let mut i: usize = 0;
        while i < 15
            invariant
                0 <= i <= 15,
                valid_counts(self@),
                self@ == self.0@,
                sum == card_total(self@, i as int),
                sum <= 4 * i,
            decreases 15 - i,
        {
            assert(self@[i as int] <= limit(i as int));
            sum += self.0[i] as usize;
            i += 1;
        }
        proof {
            lemma_card_total_bound(self@, 15);
        }
        sum
    }

    /// Whether the hand holds no card.
    pub fn is_empty(&self) -> (b: bool)
        ensures
            b == (forall|i: int| 0 <= i < 15 ==> self@[i] == 0),
            b == (card_total(self@, 15) == 0),
    {
        proof {
            use_type_invariant(self);
        }
        let mut i: usize = 0;
        while i < 15
            invariant
                0 <= i <= 15,
                self@ == self.0@,
                self@.len() == 15,
                forall|j: int| 0 <= j < i ==> self@[j] == 0,
            decreases 15 - i,
        {
            if self.0[i] != 0 {
                proof {
                    lemma_card_total_zero(self@, 15);
                }
                return false;
            }
            i += 1;
        }
        proof {
            lemma_card_total_zero(self@, 15);
        }
        true
    }
}

/// The first `n` ranks of valid counts hold no more cards than the deck
/// has in those ranks.
pub proof fn lemma_card_total_bound(counts: Seq<u8>, n: int)
    requires
        valid_counts(counts),
        0 <= n <= 15,
    ensures
        0 <= card_total(counts, n) <= (if n <= 13 { 4 * n } else { 52 + (n - 13) }),
    decreases n,
{
    if n > 0 {
        lemma_card_total_bound(counts, n - 1);
        assert(counts[n - 1] <= limit(n - 1));
    }
}

/// The first `n` ranks hold no card in total exactly if none of them holds
/// one.
pub proof fn lemma_card_total_zero(counts: Seq<u8>, n: int)
    requires
        0 <= n <= counts.len(),
    ensures
        0 <= card_total(counts, n),
        card_total(counts, n) == 0 <==> (forall|i: int| 0 <= i < n ==> counts[i] == 0),
    decreases n,
{
    if n > 0 {
        lemma_card_total_zero(counts, n - 1);
        if counts[n - 1] == 0 {
            assert forall|i: int| 0 <= i < n && (forall|j: int| 0 <= j < n - 1 ==> counts[j] == 0)
                implies counts[i] == 0 by {}
        }
    }
}

/// Counts of which one is too high have a first one that is.
pub proof fn lemma_first_excess_exists(counts: Seq<u8>, from: int)
    requires
        counts.len() == 15,
        !valid_counts(counts),
        0 <= from <= 15,
        forall|j: int| 0 <= j < from ==> #[trigger] counts[j] <= limit(j),
    ensures
        exists|i: int| first_excess(counts, i),
    decreases 15 - from,
{
    if from < 15 {
        if counts[from] > limit(from) {
            assert(first_excess(counts, from));
        } else {
            lemma_first_excess_exists(counts, from + 1);
        }
    }
}

/// Counts exceed a deck's limits at one first position only.
pub proof fn lemma_first_excess_unique(counts: Seq<u8>, i: int)
    requires
        first_excess(counts, i),
    ensures
        !valid_counts(counts),
        (choose|k: int| first_excess(counts, k)) == i,
{
    let k = choose|k: int| first_excess(counts, k);
    assert(first_excess(counts, k));
    if k < i {
        assert(counts[k] <= limit(k));
    } else if i < k {
        assert(counts[i] <= limit(i));
    }
}

impl TryFrom<[u8; 15]> for Hand {
    type Error = HandError;

    /// Makes a hand of 15 counts, or names the first rank of which they ask
    /// too many cards.
    fn try_from(counts: [u8; 15]) -> (r: Result<Hand, HandError>)
        ensures
            valid_counts(counts@) ==> r.is_ok() && r.unwrap()@ == counts@,
            !valid_counts(counts@) ==> (r matches Err(HandError::InvalidCount { rank })
                && first_excess(counts@, rank.ord())),
    {
        let mut i: u8 = 0;
        while i < 13
            invariant
                0 <= i <= 13,
                forall|j: int| 0 <= j < i ==> #[trigger] counts@[j] <= limit(j),
            decreases 13 - i,
        {
            if counts[i as usize] > 4 {
                proof {
                    lemma_first_excess_unique(counts@, i as int);
                }
                return Err(HandError::InvalidCount { rank: Rank::at(i) });
            }
            i += 1;
        }
        while i < 15
            invariant
                13 <= i <= 15,
                forall|j: int| 0 <= j < i ==> #[trigger] counts@[j] <= limit(j),
            decreases 15 - i,
        {
            if counts[i as usize] > 1 {
                proof {
                    lemma_first_excess_unique(counts@, i as int);
                }
                return Err(HandError::InvalidCount { rank: Rank::at(i) });
            }
            i += 1;
        }
        Ok(Hand(counts))
    }
}

impl TryFromSpecImpl<[u8; 15]> for Hand {
    open spec fn obeys_try_from_spec() -> bool {
        true
    }

    closed spec fn try_from_spec(counts: [u8; 15]) -> Result<Hand, HandError> {
        if valid_counts(counts@) {
            Ok(Hand(counts))
        } else {
            Err(
                HandError::InvalidCount {
                    rank: Rank::of_ord(choose|i: int| first_excess(counts@, i)),
                },
            )
        }
    }
}

impl TryFrom<&[u8]> for Hand {
    type Error = HandError;

    /// Makes a hand of a list of counts, which must have 15 entries that
    /// one deck can supply.
    fn try_from(counts: &[u8]) -> (r: Result<Hand, HandError>)
        ensures
            valid_counts(counts@) ==> r.is_ok() && r.unwrap()@ == counts@,
            counts@.len() != 15 ==> r == Err::<Hand, HandError>(
                HandError::WrongLength { len: counts.len() },
            ),
            counts@.len() == 15 && !valid_counts(counts@) ==> (r matches Err(
                HandError::InvalidCount { rank },
            ) && first_excess(counts@, rank.ord())),
    {
        if counts.len() != 15 {
            return Err(HandError::WrongLength { len: counts.len() });
        }
        let mut array: [u8; 15] = [0, 0, 0, 0, 0, 0, 0, 0, 0, 0, 0, 0, 0, 0, 0];
        let mut i: usize = 0;
        while i < 15
            invariant
                0 <= i <= 15,
                counts@.len() == 15,
                forall|j: int| 0 <= j < i ==> array@[j] == counts@[j],
            decreases 15 - i,
        {
            array[i] = counts[i];
            i += 1;
        }
        assert(array@ =~= counts@);
        assert(array == array_of(counts@)) by {
            assert(array_of(counts@)@ == counts@);
            assert(array =~= array_of(counts@));
        }
        Hand::try_from(array)
    }
}

/// The array that holds the 15 entries of `counts`.
pub closed spec fn array_of(counts: Seq<u8>) -> [u8; 15] {
    choose|array: [u8; 15]| array@ == counts
}

impl TryFromSpecImpl<&[u8]> for Hand {
    open spec fn obeys_try_from_spec() -> bool {
        true
    }

    closed spec fn try_from_spec(counts: &[u8]) -> Result<Hand, HandError> {
        if counts@.len() != 15 {
            Err(HandError::WrongLength { len: counts@.len() as usize })
        } else {
            <Hand as TryFromSpec<[u8; 15]>>::try_from_spec(array_of(counts@))
        }
    }
}

impl PartialEq for Hand {
    /// Whether two hands hold the same cards.
    fn eq(&self, other: &Self) -> (b: bool) {
        let mut i: usize = 0;
        while i < 15
            invariant
                0 <= i <= 15,
                forall|j: int| 0 <= j < i ==> self.0@[j] == other.0@[j],
            decreases 15 - i,
        {
            if self.0[i] != other.0[i] {
                return false;
            }
            i += 1;
        }
        assert(self.0@ =~= other.0@);
        true
    }
}

impl PartialEqSpecImpl for Hand {
    open spec fn obeys_eq_spec() -> bool {
        true
    }

    open spec fn eq_spec(&self, other: &Self) -> bool {
        self@ == other@
    }
}

impl Index<Rank> for Hand {
    type Output = u8;

    /// The number of cards of `rank` in the hand.
    fn index(&self, rank: Rank) -> (n: &u8)
        ensures
            *n == self.count(rank),
            *n <= limit(rank.ord()),
    {
        proof {
            use_type_invariant(self);
        }
        &self.0[rank.ordinal() as usize]
    }
}

impl vstd::std_specs::core::IndexSpecImpl<Rank> for Hand {
    open spec fn index_req(&self, rank: &Rank) -> bool {
        true
    }
}

} // verus!
