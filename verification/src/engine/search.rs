//! The search for every play of a given shape that a hand contains.
//!
//! A shape has a main part, a run of consecutive ranks with the same number
//! of cards of each, and may have kickers, further ranks outside the run
//! with their own number of cards of each. The two jokers are never
//! kickers together: they would be a rocket hidden in a play.

use crate::engine::private::Sealed;
use crate::hand::{limit, valid_counts, Hand};
use crate::play::{copy_ranks, held, mark, PlayKind};
use crate::rank::Rank;
use crate::ranks::ascending;
use itertools::Itertools;
use vstd::prelude::*;

verus! {

/// The ways to pick `k` of the ranks of `pool`. Each keeps the order of the
/// pool, and they are listed from the one that picks the first ranks of
/// the pool to the one that picks its last: all that hold the first rank
/// come before all that do not.
pub open spec fn combinations(pool: Seq<Rank>, k: nat) -> Seq<Seq<Rank>>
    decreases pool.len(),
{
    if k == 0 {
        seq![Seq::empty()]
    } else if pool.len() == 0 {
        Seq::empty()
    } else {
        combinations(pool.drop_first(), (k - 1) as nat).map_values(
            |rest: Seq<Rank>| seq![pool[0]] + rest,
        ) + combinations(pool.drop_first(), k)
    }
}

/// Whether the hand holds enough cards of the rank at position `i` for a
/// main part of `len` ranks with `size` cards of each. `Two` and the jokers
/// stand in no run of two or more ranks.
pub open spec fn primal_rank(hand: Seq<u8>, size: u8, len: int, i: int) -> bool {
    &&& hand[i] >= size
    &&& (i < 12 || len == 1)
}

/// Whether the `len` ranks from position `start` on can be the main part.
pub open spec fn primal_window(hand: Seq<u8>, size: u8, start: int, len: int) -> bool {
    &&& 0 <= start
    &&& 1 <= len
    &&& start + len <= 15
    &&& forall|i: int| start <= i < start + len ==> primal_rank(hand, size, len, i)
}

/// Whether the rank at position `i` can be a kicker with `size` cards
/// beside the main part of `len` ranks from `start` on.
pub open spec fn kicker_rank(hand: Seq<u8>, size: u8, start: int, len: int, i: int) -> bool {
    &&& hand[i] >= size
    &&& !(start <= i < start + len)
}

/// The ranks at the positions from `from` up to `n` that can be kickers,
/// in ascending order.
pub open spec fn kicker_ranks(
    hand: Seq<u8>,
    size: u8,
    start: int,
    len: int,
    from: int,
    n: int,
) -> Seq<Rank>
    decreases n - from,
{
    if n <= from {
        Seq::empty()
    } else if kicker_rank(hand, size, start, len, n - 1) {
        kicker_ranks(hand, size, start, len, from, n - 1).push(Rank::of_ord(n - 1))
    } else {
        kicker_ranks(hand, size, start, len, from, n - 1)
    }
}

/// The ordinary ranks that can be kickers.
pub open spec fn kicker_pool(hand: Seq<u8>, size: u8, start: int, len: int) -> Seq<Rank> {
    kicker_ranks(hand, size, start, len, 0, 13)
}

/// The jokers that can be kickers. A joker is a kicker only as a single
/// card.
pub open spec fn kicker_jokers(hand: Seq<u8>, size: u8, start: int, len: int) -> Seq<Rank> {
    if size == 1 {
        kicker_ranks(hand, size, start, len, 13, 15)
    } else {
        Seq::empty()
    }
}

/// The sets of `k` kickers that hold one of the first `n` of `jokers`
/// beside `k - 1` ranks of the pool.
pub open spec fn joker_sets(pool: Seq<Rank>, jokers: Seq<Rank>, k: nat, n: int) -> Seq<Seq<Rank>>
    decreases n,
{
    if n <= 0 {
        Seq::empty()
    } else {
        joker_sets(pool, jokers, k, n - 1) + combinations(pool, (k - 1) as nat).map_values(
            |rest: Seq<Rank>| rest.push(jokers[n - 1]),
        )
    }
}

/// The sets of `k` kickers: first those of ordinary ranks only, then those
/// with one joker. None holds both jokers.
pub open spec fn kicker_sets(pool: Seq<Rank>, jokers: Seq<Rank>, k: nat) -> Seq<Seq<Rank>> {
    if k == 0 {
        seq![Seq::empty()]
    } else {
        combinations(pool, k) + joker_sets(pool, jokers, k, jokers.len() as int)
    }
}

/// Whether `set` is a set of `k` kickers beside the main part of `len`
/// ranks from `start` on: ranks outside the main part in ascending order,
/// of each of which the hand holds enough cards, with at most one joker,
/// which is then a single card.
pub open spec fn kicker_set(
    hand: Seq<u8>,
    size: u8,
    start: int,
    len: int,
    k: nat,
    set: Seq<Rank>,
) -> bool {
    &&& set.len() == k
    &&& ascending(set)
    &&& forall|t: int|
        0 <= t < set.len() ==> kicker_rank(hand, size, start, len, (#[trigger] set[t]).ord())
    &&& forall|t: int| 0 <= t < set.len() - 1 ==> !(#[trigger] set[t]).is_joker()
    &&& forall|t: int| 0 <= t < set.len() && (#[trigger] set[t]).is_joker() ==> size == 1
}

/// The counts with `size` cards of each of the `len` ranks from `start` on
/// and no other card.
pub open spec fn primal_base(start: int, len: int, size: u8) -> Seq<u8> {
    Seq::new(
        15,
        |i: int|
            if start <= i < start + len {
                size
            } else {
                0
            },
    )
}

/// The counts `base` with the count of each of `kickers` set to `size`.
pub open spec fn marked(base: Seq<u8>, kickers: Seq<Rank>, size: u8) -> Seq<u8> {
    Seq::new(15, |i: int| held(kickers, Rank::of_ord(i), size, base[i]))
}

/// A set of kickers with a joker added to it, if there is one to add.
pub open spec fn with_joker(kickers: Seq<Rank>, joker: Option<Rank>) -> Seq<Rank> {
    match joker {
        Some(joker) => kickers.push(joker),
        None => kickers,
    }
}

/// The counts of the hand that holds `primal_size` cards of each of the
/// `len` ranks from `start` on, and `kicker_size` cards of each kicker.
pub open spec fn shape_counts(
    start: int,
    len: int,
    primal_size: u8,
    kickers: Seq<Rank>,
    kicker_size: u8,
) -> Seq<u8> {
    marked(primal_base(start, len, primal_size), kickers, kicker_size)
}

/// The plays whose main part is the `len` ranks from `start` on, with `k`
/// kickers each, one for each set of kickers.
pub open spec fn window_plays(
    hand: Seq<u8>,
    primal_size: u8,
    kicker_size: u8,
    start: int,
    len: int,
    k: nat,
) -> Seq<Seq<u8>> {
    kicker_sets(
        kicker_pool(hand, kicker_size, start, len),
        kicker_jokers(hand, kicker_size, start, len),
        k,
    ).map_values(|kickers: Seq<Rank>| shape_counts(start, len, primal_size, kickers, kicker_size))
}

/// The plays with a main part of `len` ranks that starts below position
/// `n`, by ascending start of the main part.
pub open spec fn length_plays(
    hand: Seq<u8>,
    primal_size: u8,
    kicker_size: u8,
    len: int,
    k: nat,
    n: int,
) -> Seq<Seq<u8>>
    decreases n,
{
    if n <= 0 {
        Seq::empty()
    } else {
        length_plays(hand, primal_size, kicker_size, len, k, n - 1) + (if primal_window(
            hand,
            primal_size,
            n - 1,
            len,
        ) {
            window_plays(hand, primal_size, kicker_size, n - 1, len, k)
        } else {
            Seq::empty()
        })
    }
}

/// The least length of a main part that a search from `lo` on considers.
pub open spec fn first_length(lo: u8) -> int {
    if lo < 1 {
        1
    } else {
        lo as int
    }
}

/// The greatest length of a main part that a search up to `hi` considers.
pub open spec fn last_length(hi: u8) -> int {
    if hi > 12 {
        12
    } else {
        hi as int
    }
}

/// The plays with a main part of at least `first` and less than `n` ranks,
/// by ascending length and then by ascending start of the main part, where
/// `kickers` gives the number of kickers for each length. A length whose
/// main part and kickers together would be more than 15 ranks has no play.
pub open spec fn plays_in(
    hand: Seq<u8>,
    primal_size: u8,
    kicker_size: u8,
    first: int,
    n: int,
    kickers: Seq<u8>,
) -> Seq<Seq<u8>>
    decreases n - first,
{
    if n <= first {
        Seq::empty()
    } else {
        plays_in(hand, primal_size, kicker_size, first, n - 1, kickers) + (if kickers[n - 1] + (n
            - 1) <= 15 {
            length_plays(hand, primal_size, kicker_size, n - 1, kickers[n - 1] as nat, 15)
        } else {
            Seq::empty()
        })
    }
}

/// Whether `play` is the play in `hand` with the main part of `len` ranks
/// from `start` on and with the `k` kickers of `set`.
pub open spec fn shaped(
    hand: Seq<u8>,
    primal_size: u8,
    kicker_size: u8,
    len: int,
    k: nat,
    start: int,
    set: Seq<Rank>,
    play: Seq<u8>,
) -> bool {
    &&& primal_window(hand, primal_size, start, len)
    &&& kicker_set(hand, kicker_size, start, len, k, set)
    &&& play == shape_counts(start, len, primal_size, set, kicker_size)
}

/// The counts of each hand of a list.
pub open spec fn hand_views(hands: Seq<Hand>) -> Seq<Seq<u8>> {
    hands.map_values(|hand: Hand| hand@)
}

/// The ranks of each list of a list of lists.
pub open spec fn rank_views(lists: Seq<Vec<Rank>>) -> Seq<Seq<Rank>> {
    lists.map_values(|list: Vec<Rank>| list@)
}

/// What a table of numbers of kickers gives for a main part of more than
/// 12 ranks, which no search asks for.
#[derive(Debug, Clone, Copy)]
enum Beyond {
    /// The same number for every length.
    Fixed(u8),
    /// As many kickers as the main part has ranks.
    PerPrimal,
}

/// The number of kickers of a play, by the number of ranks of its main
/// part.
#[derive(Debug, Clone, Copy)]
pub struct KickerCount {
    table: [u8; 13],
    beyond: Beyond,
}

impl View for KickerCount {
    type V = Seq<u8>;

    /// The number of kickers for each length from 0 to 12 of the main part.
    closed spec fn view(&self) -> Seq<u8> {
        self.table@
    }
}

impl KickerCount {
    /// The number of kickers beside a main part of `len` ranks, for every
    /// length that a byte can hold.
    pub closed spec fn rule(self, len: int) -> u8 {
        if 0 <= len <= 12 {
            self.table@[len]
        } else {
            match self.beyond {
                Beyond::Fixed(kickers) => kickers,
                Beyond::PerPrimal => len as u8,
            }
        }
    }

    /// For the lengths from 0 to 12 the rule is the table.
    pub proof fn lemma_rule(self)
        ensures
            self@.len() == 13,
            forall|len: int| 0 <= len <= 12 ==> self.rule(len) == #[trigger] self@[len],
    {
    }

    /// The same number of kickers for every length of the main part.
    pub fn fixed(kickers: u8) -> (count: KickerCount)
        ensures
            count@ == Seq::new(13, |len: int| kickers),
            forall|len: int| 0 <= len <= 255 ==> #[trigger] count.rule(len) == kickers,
    {
        let count = KickerCount {
            table: [
                kickers,
                kickers,
                kickers,
                kickers,
                kickers,
                kickers,
                kickers,
                kickers,
                kickers,
                kickers,
                kickers,
                kickers,
                kickers,
            ],
            beyond: Beyond::Fixed(kickers),
        };
        assert(count@ =~= Seq::new(13, |len: int| kickers));
        count
    }

    /// One kicker for each rank of the main part.
    pub fn per_primal() -> (count: KickerCount)
        ensures
            count@ == Seq::new(13, |len: int| len as u8),
            forall|len: int| 0 <= len <= 255 ==> #[trigger] count.rule(len) == len,
    {
        let count = KickerCount {
            table: [0, 1, 2, 3, 4, 5, 6, 7, 8, 9, 10, 11, 12],
            beyond: Beyond::PerPrimal,
        };
        assert(count@ =~= Seq::new(13, |len: int| len as u8));
        count
    }

    /// The numbers of kickers that `f` gives for the lengths from 1 to 12.
    /// The function is asked about these lengths only, the only ones that a
    /// main part can have; for every other length the table gives none.
    pub fn from_fn<F: Fn(u8) -> u8>(f: F) -> (count: KickerCount)
        requires
            forall|len: u8| 1 <= len <= 12 ==> call_requires(f, (len,)),
        ensures
            count@.len() == 13,
            forall|len: u8| 1 <= len <= 12 ==> call_ensures(f, (len,), #[trigger] count@[len as int]),
            forall|len: int| 0 <= len <= 12 ==> #[trigger] count.rule(len) == count@[len],
            forall|len: int| len == 0 || 12 < len <= 255 ==> #[trigger] count.rule(len) == 0,
    {
        let mut table: [u8; 13] = [0, 0, 0, 0, 0, 0, 0, 0, 0, 0, 0, 0, 0];
        let mut len: u8 = 1;
        while len <= 12
            invariant
                1 <= len <= 13,
                table@[0] == 0,
                forall|l: u8| 1 <= l <= 12 ==> call_requires(f, (l,)),
                forall|l: u8| 1 <= l < len ==> call_ensures(f, (l,), #[trigger] table@[l as int]),
            decreases 13 - len,
        {
            let kickers = f(len);
            table[len as usize] = kickers;
            len += 1;
        }
        KickerCount { table, beyond: Beyond::Fixed(0) }
    }

    /// The number of kickers beside a main part of `len` ranks.
    pub fn of(&self, len: u8) -> (kickers: u8)
        ensures
            kickers == self.rule(len as int),
            self@.len() == 13,
            len <= 12 ==> kickers == self@[len as int],
    {
        if len <= 12 {
            self.table[len as usize]
        } else {
            match self.beyond {
                Beyond::Fixed(kickers) => kickers,
                Beyond::PerPrimal => len,
            }
        }
    }
}

/// The shape of the plays to search for.
#[derive(Debug, Clone, Copy)]
pub struct PlaySpec {
    /// The number of cards of each rank of the main part: 1 for solos and
    /// chains, 2 for pairs, 3 for trios and airplanes, 4 for bombs and
    /// fours with kickers.
    pub primal_size: u8,
    /// The least and the greatest number of ranks of the main part, both
    /// included. A main part has at least 1 and at most 12 ranks.
    pub primal_count: (u8, u8),
    /// The number of cards of each kicker: 1 for solos, 2 for pairs, 0
    /// without kickers.
    pub kicker_size: u8,
    /// The number of kickers for each number of ranks of the main part.
    pub kicker_count: KickerCount,
}

impl PlaySpec {
    /// The plays of this shape in the hand that holds `hand`.
    pub open spec fn plays(self, hand: Seq<u8>) -> Seq<Seq<u8>> {
        plays_in(
            hand,
            self.primal_size,
            self.kicker_size,
            first_length(self.primal_count.0),
            last_length(self.primal_count.1) + 1,
            self.kicker_count@,
        )
    }

    /// Whether `spec` is the shape of the standard category `kind`, with
    /// the number of kickers that the category gives to every length.
    pub open spec fn standard_shape(kind: PlayKind, spec: PlaySpec) -> bool {
        &&& spec.primal_size == standard_primal_size(kind)
        &&& spec.primal_count == standard_primal_count(kind)
        &&& spec.kicker_size == standard_kicker_size(kind)
        &&& spec.kicker_count@ == Seq::new(13, |len: int| standard_kickers(kind, len))
        &&& forall|len: int|
            0 <= len <= 255 ==> #[trigger] spec.kicker_count.rule(len) == standard_kickers(
                kind,
                len,
            )
    }

    /// The least and the greatest length of a main part that a search for
    /// this shape considers: those of the shape, held between 1 and 12.
    pub fn lengths(&self) -> (lengths: (u8, u8))
        ensures
            lengths.0 == first_length(self.primal_count.0),
            lengths.1 == last_length(self.primal_count.1),
    {
        let first: u8 = if self.primal_count.0 < 1 {
            1
        } else {
            self.primal_count.0
        };
        let last: u8 = if self.primal_count.1 > 12 {
            12
        } else {
            self.primal_count.1
        };
        (first, last)
    }

    /// The shape of the plays of the category `kind`. The rocket has no
    /// shape of this form.
    pub fn standard(kind: PlayKind) -> (spec: PlaySpec)
        requires
            kind != PlayKind::Rocket,
        ensures
            PlaySpec::standard_shape(kind, spec),
    {
        let (primal_size, primal_count, kicker_size, kicker_count) = match kind {
            PlayKind::Solo => (1u8, (1u8, 1u8), 0u8, KickerCount::fixed(0)),
            PlayKind::Chain => (1, (5, 12), 0, KickerCount::fixed(0)),
            PlayKind::Pair => (2, (1, 1), 0, KickerCount::fixed(0)),
            PlayKind::PairsChain => (2, (3, 12), 0, KickerCount::fixed(0)),
            PlayKind::Trio => (3, (1, 1), 0, KickerCount::fixed(0)),
            PlayKind::Airplane => (3, (2, 12), 0, KickerCount::fixed(0)),
            PlayKind::TrioWithSolo => (3, (1, 1), 1, KickerCount::fixed(1)),
            PlayKind::AirplaneWithSolos => (3, (2, 7), 1, KickerCount::per_primal()),
            PlayKind::TrioWithPair => (3, (1, 1), 2, KickerCount::fixed(1)),
            PlayKind::AirplaneWithPairs => (3, (2, 7), 2, KickerCount::per_primal()),
            PlayKind::Bomb => (4, (1, 1), 0, KickerCount::fixed(0)),
            PlayKind::FourWithDualSolo => (4, (1, 1), 1, KickerCount::fixed(2)),
            _ => (4, (1, 1), 2, KickerCount::fixed(2)),
        };
        let spec = PlaySpec { primal_size, primal_count, kicker_size, kicker_count };
        assert(spec.kicker_count@ =~= Seq::new(13, |len: int| standard_kickers(kind, len)));
        spec
    }
}

/// The number of cards of each rank of the main part of a play of the
/// category `kind`.
pub open spec fn standard_primal_size(kind: PlayKind) -> u8 {
    match kind {
        PlayKind::Solo | PlayKind::Chain | PlayKind::Rocket => 1,
        PlayKind::Pair | PlayKind::PairsChain => 2,
        PlayKind::Trio
        | PlayKind::Airplane
        | PlayKind::TrioWithSolo
        | PlayKind::AirplaneWithSolos
        | PlayKind::TrioWithPair
        | PlayKind::AirplaneWithPairs => 3,
        PlayKind::Bomb | PlayKind::FourWithDualSolo | PlayKind::FourWithDualPair => 4,
    }
}

/// The least and the greatest number of ranks of the main part of a play
/// of the category `kind`.
pub open spec fn standard_primal_count(kind: PlayKind) -> (u8, u8) {
    match kind {
        PlayKind::Chain => (5, 12),
        PlayKind::PairsChain => (3, 12),
        PlayKind::Airplane => (2, 12),
        PlayKind::AirplaneWithSolos | PlayKind::AirplaneWithPairs => (2, 7),
        _ => (1, 1),
    }
}

/// The number of cards of each kicker of a play of the category `kind`.
pub open spec fn standard_kicker_size(kind: PlayKind) -> u8 {
    match kind {
        PlayKind::TrioWithSolo | PlayKind::AirplaneWithSolos | PlayKind::FourWithDualSolo => 1,
        PlayKind::TrioWithPair | PlayKind::AirplaneWithPairs | PlayKind::FourWithDualPair => 2,
        _ => 0,
    }
}

/// The number of kickers of a play of the category `kind` whose main part
/// has `len` ranks.
pub open spec fn standard_kickers(kind: PlayKind, len: int) -> u8 {
    match kind {
        PlayKind::TrioWithSolo | PlayKind::TrioWithPair => 1,
        PlayKind::AirplaneWithSolos | PlayKind::AirplaneWithPairs => len as u8,
        PlayKind::FourWithDualSolo | PlayKind::FourWithDualPair => 2,
        _ => 0,
    }
}

/// A way to search a value for plays.
pub trait SearchExt: Sealed + Sized {
    /// The counts of the cards that `plays` searches.
    spec fn cards(self) -> Seq<u8>;

    /// Every play of the shape `spec` that the hand contains, by ascending
    /// length and then by ascending start of the main part.
    fn plays(self, spec: PlaySpec) -> (plays: Vec<Hand>)
        ensures
            hand_views(plays@) == spec.plays(self.cards()),
    ;
}

impl SearchExt for Hand {
    open spec fn cards(self) -> Seq<u8> {
        self@
    }

    fn plays(self, spec: PlaySpec) -> (plays: Vec<Hand>) {
        let (first, last) = spec.lengths();
        let mut plays: Vec<Hand> = Vec::new();
        assert(hand_views(plays@) =~= Seq::empty());
        if first > last {
            return plays;
        }
        let mut len: u8 = first;
        while len <= last
            invariant
                first <= len <= last + 1,
                last <= 12,
                first == first_length(spec.primal_count.0),
                hand_views(plays@) == plays_in(
                    self@,
                    spec.primal_size,
                    spec.kicker_size,
                    first as int,
                    len as int,
                    spec.kicker_count@,
                ),
            decreases last + 1 - len,
        {
            let kickers = spec.kicker_count.of(len);
            let ghost before = hand_views(plays@);
            if kickers <= 15 - len {
                let mut found = plays_of_length(
                    self,
                    spec.primal_size,
                    spec.kicker_size,
                    len,
                    kickers,
                );
                let ghost added = hand_views(found@);
                let ghost prev = plays@;
                plays.append(&mut found);
                assert(hand_views(plays@) =~= before + added);
            } else {
                assert(before + Seq::<Seq<u8>>::empty() =~= before);
            }
            len += 1;
        }
        plays
    }
}

/// Every play in the hand with a main part of `len` consecutive ranks that
/// hold `primal_size` cards each, and with `kickers` kickers that hold
/// `kicker_size` cards each, by ascending start of the main part.
pub fn plays_of_length(
    hand: Hand,
    primal_size: u8,
    kicker_size: u8,
    len: u8,
    kickers: u8,
) -> (plays: Vec<Hand>)
    ensures
        hand_views(plays@) == length_plays(
            hand@,
            primal_size,
            kicker_size,
            len as int,
            kickers as nat,
            15,
        ),
{
    let counts = hand.to_array();
    let mut plays: Vec<Hand> = Vec::new();
    let mut start: u8 = 0;
    assert(hand_views(plays@) =~= Seq::empty());
    while start < 15
        invariant
            0 <= start <= 15,
            valid_counts(counts@),
            counts@ == hand@,
            hand_views(plays@) == length_plays(
                hand@,
                primal_size,
                kicker_size,
                len as int,
                kickers as nat,
                start as int,
            ),
        decreases 15 - start,
    {
        if len >= 1 && len <= 15 - start && is_window(&counts, primal_size, start, len) {
            push_window_plays(&mut plays, &counts, primal_size, kicker_size, start, len, kickers);
        } else {
            assert(!primal_window(hand@, primal_size, start as int, len as int));
            assert(hand_views(plays@) + Seq::<Seq<u8>>::empty() =~= hand_views(plays@));
        }
        start += 1;
    }
    plays
}

/// Appends the plays whose main part is the `len` ranks from `start` on.
fn push_window_plays(
    plays: &mut Vec<Hand>,
    counts: &[u8; 15],
    primal_size: u8,
    kicker_size: u8,
    start: u8,
    len: u8,
    k: u8,
)
    requires
        valid_counts(counts@),
        primal_window(counts@, primal_size, start as int, len as int),
    ensures
        hand_views(final(plays)@) == hand_views(old(plays)@) + window_plays(
            counts@,
            primal_size,
            kicker_size,
            start as int,
            len as int,
            k as nat,
        ),
{
    let ghost before = hand_views(plays@);
    let ghost hand = counts@;
    let ghost pool_spec = kicker_pool(hand, kicker_size, start as int, len as int);
    let ghost jokers_spec = kicker_jokers(hand, kicker_size, start as int, len as int);
    let ghost f = |kickers: Seq<Rank>|
        shape_counts(start as int, len as int, primal_size, kickers, kicker_size);
    let base = primal_counts(start, len, primal_size);
    if k == 0 {
        proof {
            assert(kicker_set(hand, kicker_size, start as int, len as int, 0, Seq::empty()));
            lemma_kicker_set_valid(
                hand,
                primal_size,
                kicker_size,
                start as int,
                len as int,
                0,
                Seq::empty(),
            );
            assert(base@ =~= f(Seq::empty()));
        }
        let ghost prev = plays@;
        plays.push(Hand::from_counts(base));
        proof {
            assert(hand_views(plays@) =~= hand_views(prev).push(base@));
            assert(seq![Seq::<Rank>::empty()].map_values(f) =~= seq![base@]);
            assert(hand_views(plays@) =~= before + kicker_sets(pool_spec, jokers_spec, 0).map_values(
                f,
            ));
        }
    } else {
        let pool = kickers_between(counts, kicker_size, start, len, 0, 13);
        let jokers = if kicker_size == 1 {
            kickers_between(counts, kicker_size, start, len, 13, 15)
        } else {
            Vec::new()
        };
        assert(jokers@ == jokers_spec);
        proof {
            lemma_kicker_ranks(hand, kicker_size, start as int, len as int, 0, 13);
        }
        let sets = combinations_of(&pool, k as usize);
        proof {
            assert forall|j: int| 0 <= j < sets@.len() implies valid_counts(
                marked(base@, with_joker((#[trigger] sets@[j])@, None), kicker_size),
            ) by {
                assert(rank_views(sets@)[j] == sets@[j]@);
                lemma_pool_set(hand, kicker_size, start as int, len as int, k as nat, j);
                lemma_kicker_set_valid(
                    hand,
                    primal_size,
                    kicker_size,
                    start as int,
                    len as int,
                    k as nat,
                    sets@[j]@,
                );
            }
        }
        push_plays(plays, base, &sets, None, kicker_size);
        proof {
            assert(rank_views(sets@).map_values(
                |kickers: Seq<Rank>| marked(base@, with_joker(kickers, None), kicker_size),
            ) =~= combinations(pool_spec, k as nat).map_values(f));
        }
        if jokers.len() > 0 {
            let fewer = combinations_of(&pool, (k - 1) as usize);
            let mut n: usize = 0;
            while n < jokers.len()
                invariant
                    0 <= n <= jokers.len(),
                    k >= 1,
                    valid_counts(hand),
                    hand == counts@,
                    primal_window(hand, primal_size, start as int, len as int),
                    base@ == primal_base(start as int, len as int, primal_size),
                    pool_spec == kicker_pool(hand, kicker_size, start as int, len as int),
                    jokers_spec == kicker_jokers(hand, kicker_size, start as int, len as int),
                    jokers@ == jokers_spec,
                    rank_views(fewer@) == combinations(pool_spec, (k - 1) as nat),
                    f == |kickers: Seq<Rank>|
                        shape_counts(start as int, len as int, primal_size, kickers, kicker_size),
                    hand_views(plays@) == before + combinations(pool_spec, k as nat).map_values(f)
                        + joker_sets(pool_spec, jokers_spec, k as nat, n as int).map_values(f),
                decreases jokers.len() - n,
            {
                let joker = jokers[n];
                proof {
                    assert forall|j: int| 0 <= j < fewer@.len() implies valid_counts(
                        marked(base@, with_joker((#[trigger] fewer@[j])@, Some(joker)), kicker_size),
                    ) by {
                        assert(rank_views(fewer@)[j] == fewer@[j]@);
                        lemma_joker_set(
                            hand,
                            kicker_size,
                            start as int,
                            len as int,
                            k as nat,
                            j,
                            n as int,
                        );
                        lemma_kicker_set_valid(
                            hand,
                            primal_size,
                            kicker_size,
                            start as int,
                            len as int,
                            k as nat,
                            fewer@[j]@.push(joker),
                        );
                    }
                }
                push_plays(plays, base, &fewer, Some(joker), kicker_size);
                proof {
                    let added = combinations(pool_spec, (k - 1) as nat).map_values(
                        |rest: Seq<Rank>| rest.push(jokers_spec[n as int]),
                    );
                    assert(rank_views(fewer@).map_values(
                        |kickers: Seq<Rank>|
                            marked(base@, with_joker(kickers, Some(joker)), kicker_size),
                    ) =~= added.map_values(f));
                    lemma_map_join(
                        joker_sets(pool_spec, jokers_spec, k as nat, n as int),
                        added,
                        f,
                    );
                    assert(hand_views(plays@) =~= before + combinations(
                        pool_spec,
                        k as nat,
                    ).map_values(f) + joker_sets(
                        pool_spec,
                        jokers_spec,
                        k as nat,
                        n as int + 1,
                    ).map_values(f));
                }
                n += 1;
            }
        }
        proof {
            let all = joker_sets(pool_spec, jokers_spec, k as nat, jokers_spec.len() as int);
            if jokers@.len() == 0 {
                assert(all =~= Seq::empty());
            }
            lemma_map_join(combinations(pool_spec, k as nat), all, f);
            assert(hand_views(plays@) =~= before + kicker_sets(
                pool_spec,
                jokers_spec,
                k as nat,
            ).map_values(f));
        }
    }
}

/// Appends one play for each set of kickers: the cards of `base` and the
/// kickers of the set, with `joker` as one more kicker if there is one.
fn push_plays(
    plays: &mut Vec<Hand>,
    base: [u8; 15],
    sets: &Vec<Vec<Rank>>,
    joker: Option<Rank>,
    size: u8,
)
    requires
        forall|j: int|
            0 <= j < sets@.len() ==> valid_counts(
                marked(base@, with_joker((#[trigger] sets@[j])@, joker), size),
            ),
    ensures
        hand_views(final(plays)@) == hand_views(old(plays)@) + rank_views(sets@).map_values(
            |kickers: Seq<Rank>| marked(base@, with_joker(kickers, joker), size),
        ),
{
    let ghost before = hand_views(plays@);
    let ghost f = |kickers: Seq<Rank>| marked(base@, with_joker(kickers, joker), size);
    let mut j: usize = 0;
    while j < sets.len()
        invariant
            0 <= j <= sets.len(),
            f == |kickers: Seq<Rank>| marked(base@, with_joker(kickers, joker), size),
            forall|j: int|
                0 <= j < sets@.len() ==> valid_counts(
                    marked(base@, with_joker((#[trigger] sets@[j])@, joker), size),
                ),
            hand_views(plays@) == before + rank_views(sets@).take(j as int).map_values(f),
        decreases sets.len() - j,
    {
        let mut kickers = copy_ranks(&sets[j]);
        match joker {
            Some(joker) => {
                kickers.push(joker);
            },
            None => {},
        }
        assert(kickers@ == with_joker(sets@[j as int]@, joker));
        let counts = mark(base, kickers.as_slice(), size);
        assert(counts@ =~= f(sets@[j as int]@));
        let ghost prev = plays@;
        plays.push(Hand::from_counts(counts));
        proof {
            let views = rank_views(sets@);
            assert(views.take(j + 1) =~= views.take(j as int).push(views[j as int]));
            assert(hand_views(plays@) =~= hand_views(prev).push(counts@));
            assert(views.take(j + 1).map_values(f) =~= views.take(j as int).map_values(f).push(
                f(views[j as int]),
            ));
            assert(hand_views(plays@) =~= before + views.take(j + 1).map_values(f));
        }
        j += 1;
    }
    assert(rank_views(sets@).take(j as int) =~= rank_views(sets@));
}

/// The counts with `size` cards of each of the `len` ranks from `start` on.
fn primal_counts(start: u8, len: u8, size: u8) -> (counts: [u8; 15])
    requires
        start + len <= 15,
    ensures
        counts@ == primal_base(start as int, len as int, size),
{
    let mut counts: [u8; 15] = [0, 0, 0, 0, 0, 0, 0, 0, 0, 0, 0, 0, 0, 0, 0];
    let mut i: u8 = start;
    while i < start + len
        invariant
            start <= i <= start + len,
            start + len <= 15,
            forall|j: int| 0 <= j < 15 ==> counts@[j] == (if start <= j < i {
                size
            } else {
                0
            }),
        decreases start + len - i,
    {
        counts[i as usize] = size;
        i += 1;
    }
    assert(counts@ =~= primal_base(start as int, len as int, size));
    counts
}

/// The ranks at the positions from `from` up to `n` that can be kickers.
fn kickers_between(counts: &[u8; 15], size: u8, start: u8, len: u8, from: u8, n: u8) -> (ranks:
    Vec<Rank>)
    requires
        from <= n <= 15,
        start + len <= 15,
    ensures
        ranks@ == kicker_ranks(counts@, size, start as int, len as int, from as int, n as int),
{
    let mut ranks: Vec<Rank> = Vec::new();
    let mut i: u8 = from;
    while i < n
        invariant
            from <= i <= n <= 15,
            start + len <= 15,
            ranks@ == kicker_ranks(counts@, size, start as int, len as int, from as int, i as int),
        decreases n - i,
    {
        if counts[i as usize] >= size && !(start <= i && i < start + len) {
            ranks.push(Rank::at(i));
        }
        i += 1;
    }
    ranks
}

/// Whether the `len` ranks from `start` on can be the main part.
fn is_window(counts: &[u8; 15], size: u8, start: u8, len: u8) -> (b: bool)
    requires
        1 <= len,
        start + len <= 15,
    ensures
        b == primal_window(counts@, size, start as int, len as int),
{
    let mut i: u8 = start;
    while i < start + len
        invariant
            start <= i <= start + len,
            start + len <= 15,
            1 <= len,
            forall|j: int| start <= j < i ==> primal_rank(counts@, size, len as int, j),
        decreases start + len - i,
    {
        if !(counts[i as usize] >= size && (i < 12 || len == 1)) {
            assert(!primal_rank(counts@, size, len as int, i as int));
            return false;
        }
        i += 1;
    }
    true
}

/// The ways to pick `k` of the ranks of `pool`, as `Itertools::combinations`
/// of the crate `itertools` lists them.
///
/// This contract is not proved but taken from that function: it yields
/// each way to pick `k` items of its input once, the items in the order of
/// the input, and the ways in lexicographic order of the positions picked.
/// For `k` of 0 it yields one empty combination, and for `k` above the
/// length of the input none. The pool is held to the 13 ordinary ranks and
/// `k` to a byte, so that the list stays short.
#[verifier::external_body]
fn combinations_of(pool: &Vec<Rank>, k: usize) -> (sets: Vec<Vec<Rank>>)
    requires
        pool@.len() <= 13,
        k <= 255,
    ensures
        rank_views(sets@) == combinations(pool@, k as nat),
{
    pool.iter().copied().combinations(k).collect()
}

/// Every combination has `k` ranks, all of them from the pool, and ascends
/// if the pool does.
pub proof fn lemma_combinations(pool: Seq<Rank>, k: nat, i: int)
    requires
        0 <= i < combinations(pool, k).len(),
    ensures
        combinations(pool, k)[i].len() == k,
        forall|j: int|
            0 <= j < k ==> pool.contains(#[trigger] combinations(pool, k)[i][j]),
        ascending(pool) ==> ascending(combinations(pool, k)[i]),
    decreases pool.len(),
{
    let all = combinations(pool, k);
    if k == 0 {
    } else if pool.len() == 0 {
    } else {
        let tail = pool.drop_first();
        let with = combinations(tail, (k - 1) as nat);
        let without = combinations(tail, k);
        assert forall|r: Rank| tail.contains(r) implies pool.contains(r) by {
            let j = choose|j: int| 0 <= j < tail.len() && tail[j] == r;
            assert(pool[j + 1] == r);
        }
        if ascending(pool) {
            assert forall|a: int, b: int| 0 <= a < b < tail.len() implies tail[a].ord()
                < tail[b].ord() by {
                assert(pool[a + 1].ord() < pool[b + 1].ord());
            }
        }
        if i < with.len() {
            lemma_combinations(tail, (k - 1) as nat, i);
            let rest = with[i];
            let c = seq![pool[0]] + rest;
            assert(all[i] == c);
            assert forall|j: int| 0 <= j < k implies pool.contains(#[trigger] c[j]) by {
                if j == 0 {
                    assert(pool[0] == c[0]);
                } else {
                    assert(c[j] == rest[j - 1]);
                    assert(tail.contains(rest[j - 1]));
                }
            }
            if ascending(pool) {
                assert forall|a: int, b: int| 0 <= a < b < c.len() implies c[a].ord()
                    < c[b].ord() by {
                    assert(c[b] == rest[b - 1]);
                    assert(tail.contains(rest[b - 1]));
                    let j = choose|j: int| 0 <= j < tail.len() && tail[j] == rest[b - 1];
                    assert(pool[0].ord() < pool[j + 1].ord());
                    if a > 0 {
                        assert(c[a] == rest[a - 1]);
                    }
                }
            }
        } else {
            lemma_combinations(tail, k, i - with.len());
            assert(all[i] == without[i - with.len()]);
        }
    }
}

/// The ranks that can be kickers ascend, stand at the positions from `from`
/// up to `n`, and are exactly the ranks there that qualify.
pub proof fn lemma_kicker_ranks(hand: Seq<u8>, size: u8, start: int, len: int, from: int, n: int)
    requires
        0 <= from <= n <= 15,
    ensures
        ascending(kicker_ranks(hand, size, start, len, from, n)),
        kicker_ranks(hand, size, start, len, from, n).len() <= n - from,
        forall|j: int|
            0 <= j < kicker_ranks(hand, size, start, len, from, n).len() ==> {
                let r = #[trigger] kicker_ranks(hand, size, start, len, from, n)[j];
                &&& from <= r.ord() < n
                &&& kicker_rank(hand, size, start, len, r.ord())
            },
    decreases n - from,
{
    if n > from {
        lemma_kicker_ranks(hand, size, start, len, from, n - 1);
    }
}

/// Each combination of `k` ranks of the pool is a set of kickers without a
/// joker.
pub proof fn lemma_pool_set(hand: Seq<u8>, size: u8, start: int, len: int, k: nat, i: int)
    requires
        0 <= i < combinations(kicker_pool(hand, size, start, len), k).len(),
    ensures
        kicker_set(hand, size, start, len, k, combinations(kicker_pool(hand, size, start, len), k)[i]),
        forall|t: int|
            0 <= t < k ==> !(#[trigger] combinations(
                kicker_pool(hand, size, start, len),
                k,
            )[i][t]).is_joker(),
{
    let pool = kicker_pool(hand, size, start, len);
    let set = combinations(pool, k)[i];
    lemma_kicker_ranks(hand, size, start, len, 0, 13);
    lemma_combinations(pool, k, i);
    assert forall|t: int| 0 <= t < set.len() implies kicker_rank(
        hand,
        size,
        start,
        len,
        (#[trigger] set[t]).ord(),
    ) && !set[t].is_joker() by {
        assert(pool.contains(set[t]));
        let u = choose|u: int| 0 <= u < pool.len() && pool[u] == set[t];
        assert(kicker_rank(hand, size, start, len, pool[u].ord()));
    }
}

/// Each combination of `k - 1` ranks of the pool with one of the jokers
/// that can be kickers is a set of kickers.
pub proof fn lemma_joker_set(
    hand: Seq<u8>,
    size: u8,
    start: int,
    len: int,
    k: nat,
    i: int,
    n: int,
)
    requires
        k >= 1,
        0 <= i < combinations(kicker_pool(hand, size, start, len), (k - 1) as nat).len(),
        0 <= n < kicker_jokers(hand, size, start, len).len(),
    ensures
        kicker_set(
            hand,
            size,
            start,
            len,
            k,
            combinations(kicker_pool(hand, size, start, len), (k - 1) as nat)[i].push(
                kicker_jokers(hand, size, start, len)[n],
            ),
        ),
{
    let pool = kicker_pool(hand, size, start, len);
    let jokers = kicker_jokers(hand, size, start, len);
    let rest = combinations(pool, (k - 1) as nat)[i];
    let set = rest.push(jokers[n]);
    lemma_pool_set(hand, size, start, len, (k - 1) as nat, i);
    lemma_kicker_ranks(hand, size, start, len, 13, 15);
    assert(jokers[n].ord() >= 13);
    assert forall|a: int, b: int| 0 <= a < b < set.len() implies set[a].ord() < set[b].ord() by {
        assert(set[a] == rest[a]);
        assert(!rest[a].is_joker());
        if b < rest.len() {
            assert(set[b] == rest[b]);
        }
    }
    assert forall|t: int| 0 <= t < set.len() implies kicker_rank(
        hand,
        size,
        start,
        len,
        (#[trigger] set[t]).ord(),
    ) by {
        if t < rest.len() {
            assert(set[t] == rest[t]);
        }
    }
    assert forall|t: int| 0 <= t < set.len() - 1 implies !(#[trigger] set[t]).is_joker() by {
        assert(set[t] == rest[t]);
    }
}

/// Each of the sets with a joker is a set of kickers.
pub proof fn lemma_joker_sets(
    hand: Seq<u8>,
    size: u8,
    start: int,
    len: int,
    k: nat,
    n: int,
    i: int,
)
    requires
        k >= 1,
        0 <= n <= kicker_jokers(hand, size, start, len).len(),
        0 <= i < joker_sets(
            kicker_pool(hand, size, start, len),
            kicker_jokers(hand, size, start, len),
            k,
            n,
        ).len(),
    ensures
        kicker_set(
            hand,
            size,
            start,
            len,
            k,
            joker_sets(
                kicker_pool(hand, size, start, len),
                kicker_jokers(hand, size, start, len),
                k,
                n,
            )[i],
        ),
    decreases n,
{
    let pool = kicker_pool(hand, size, start, len);
    let jokers = kicker_jokers(hand, size, start, len);
    if n > 0 {
        let before = joker_sets(pool, jokers, k, n - 1);
        if i < before.len() {
            lemma_joker_sets(hand, size, start, len, k, n - 1, i);
        } else {
            lemma_joker_set(hand, size, start, len, k, i - before.len(), n - 1);
        }
    }
}

/// Each of the sets of `k` kickers is a set of kickers.
pub proof fn lemma_kicker_sets(hand: Seq<u8>, size: u8, start: int, len: int, k: nat, i: int)
    requires
        0 <= i < kicker_sets(
            kicker_pool(hand, size, start, len),
            kicker_jokers(hand, size, start, len),
            k,
        ).len(),
    ensures
        kicker_set(
            hand,
            size,
            start,
            len,
            k,
            kicker_sets(
                kicker_pool(hand, size, start, len),
                kicker_jokers(hand, size, start, len),
                k,
            )[i],
        ),
{
    let pool = kicker_pool(hand, size, start, len);
    let jokers = kicker_jokers(hand, size, start, len);
    if k == 0 {
    } else if i < combinations(pool, k).len() {
        lemma_pool_set(hand, size, start, len, k, i);
    } else {
        lemma_joker_sets(
            hand,
            size,
            start,
            len,
            k,
            jokers.len() as int,
            i - combinations(pool, k).len(),
        );
    }
}

/// A play made of a window of the hand and of kickers that the hand holds
/// can be taken from one deck.
pub proof fn lemma_shape_valid(
    hand: Seq<u8>,
    start: int,
    len: int,
    primal_size: u8,
    kickers: Seq<Rank>,
    kicker_size: u8,
)
    requires
        valid_counts(hand),
        primal_window(hand, primal_size, start, len),
        forall|j: int| 0 <= j < kickers.len() ==> hand[(#[trigger] kickers[j]).ord()] >= kicker_size,
    ensures
        valid_counts(shape_counts(start, len, primal_size, kickers, kicker_size)),
{
    let s = shape_counts(start, len, primal_size, kickers, kicker_size);
    assert forall|i: int| 0 <= i < 15 implies #[trigger] s[i] <= limit(i) by {
        let r = Rank::of_ord(i);
        assert(hand[i] <= limit(i));
        if kickers.contains(r) {
            let j = choose|j: int| 0 <= j < kickers.len() && kickers[j] == r;
            assert(hand[kickers[j].ord()] >= kicker_size);
        } else if start <= i < start + len {
            assert(primal_rank(hand, primal_size, len, i));
        }
    }
}

/// A play made of a window of the hand and of a set of kickers can be taken
/// from one deck, and the hand holds its cards.
pub proof fn lemma_kicker_set_valid(
    hand: Seq<u8>,
    primal_size: u8,
    size: u8,
    start: int,
    len: int,
    k: nat,
    set: Seq<Rank>,
)
    requires
        valid_counts(hand),
        primal_window(hand, primal_size, start, len),
        kicker_set(hand, size, start, len, k, set),
    ensures
        valid_counts(shape_counts(start, len, primal_size, set, size)),
{
    assert forall|j: int| 0 <= j < set.len() implies hand[(#[trigger] set[j]).ord()] >= size by {
        assert(kicker_rank(hand, size, start, len, set[j].ord()));
    }
    lemma_shape_valid(hand, start, len, primal_size, set, size);
}

/// Mapping a function over two lists one after the other is mapping it over
/// both and joining the results.
pub proof fn lemma_map_join<A, B>(a: Seq<A>, b: Seq<A>, f: spec_fn(A) -> B)
    ensures
        (a + b).map_values(f) == a.map_values(f) + b.map_values(f),
{
    assert((a + b).map_values(f) =~= a.map_values(f) + b.map_values(f));
}

/// Each play with a main part of `len` ranks that starts below `n` is made
/// of a window of the hand that starts below `n` and of a set of kickers.
pub proof fn lemma_length_plays(
    hand: Seq<u8>,
    primal_size: u8,
    kicker_size: u8,
    len: int,
    k: nat,
    n: int,
    i: int,
)
    requires
        0 <= i < length_plays(hand, primal_size, kicker_size, len, k, n).len(),
    ensures
        exists|start: int, set: Seq<Rank>|
            start < n && shaped(
                hand,
                primal_size,
                kicker_size,
                len,
                k,
                start,
                set,
                length_plays(hand, primal_size, kicker_size, len, k, n)[i],
            ),
    decreases n,
{
    if n > 0 {
        let before = length_plays(hand, primal_size, kicker_size, len, k, n - 1);
        let play = length_plays(hand, primal_size, kicker_size, len, k, n)[i];
        if i < before.len() {
            lemma_length_plays(hand, primal_size, kicker_size, len, k, n - 1, i);
            assert(play == before[i]);
            let (start, set) = choose|start: int, set: Seq<Rank>|
                start < n - 1 && shaped(hand, primal_size, kicker_size, len, k, start, set, play);
            assert(start < n && shaped(hand, primal_size, kicker_size, len, k, start, set, play));
        } else {
            let j = i - before.len();
            let start = n - 1;
            let sets = kicker_sets(
                kicker_pool(hand, kicker_size, start, len),
                kicker_jokers(hand, kicker_size, start, len),
                k,
            );
            lemma_kicker_sets(hand, kicker_size, start, len, k, j);
            assert(play == shape_counts(start, len, primal_size, sets[j], kicker_size));
            assert(shaped(hand, primal_size, kicker_size, len, k, start, sets[j], play));
        }
    }
}

/// Each play that a search finds is made of a window of the hand, of a
/// length that the search considers, and of as many kickers as that length
/// asks for.
pub proof fn lemma_plays_in(
    hand: Seq<u8>,
    primal_size: u8,
    kicker_size: u8,
    first: int,
    n: int,
    kickers: Seq<u8>,
    i: int,
)
    requires
        0 <= i < plays_in(hand, primal_size, kicker_size, first, n, kickers).len(),
    ensures
        exists|len: int, start: int, set: Seq<Rank>|
            {
                &&& first <= len < n
                &&& kickers[len] + len <= 15
                &&& shaped(
                    hand,
                    primal_size,
                    kicker_size,
                    len,
                    kickers[len] as nat,
                    start,
                    set,
                    plays_in(hand, primal_size, kicker_size, first, n, kickers)[i],
                )
            },
    decreases n - first,
{
    if n > first {
        let before = plays_in(hand, primal_size, kicker_size, first, n - 1, kickers);
        let play = plays_in(hand, primal_size, kicker_size, first, n, kickers)[i];
        if i < before.len() {
            lemma_plays_in(hand, primal_size, kicker_size, first, n - 1, kickers, i);
            assert(play == before[i]);
        } else {
            let j = i - before.len();
            let len = n - 1;
            let k = kickers[len] as nat;
            lemma_length_plays(hand, primal_size, kicker_size, len, k, 15, j);
            assert(play == length_plays(hand, primal_size, kicker_size, len, k, 15)[j]);
            let (start, set) = choose|start: int, set: Seq<Rank>|
                start < 15 && shaped(hand, primal_size, kicker_size, len, k, start, set, play);
            assert(shaped(hand, primal_size, kicker_size, len, k, start, set, play));
        }
    }
}

/// Every ascending list of ranks of an ascending pool is one of the ways to
/// pick as many ranks of the pool.
pub proof fn lemma_combinations_complete(pool: Seq<Rank>, set: Seq<Rank>)
    requires
        ascending(pool),
        ascending(set),
        forall|j: int| 0 <= j < set.len() ==> pool.contains(#[trigger] set[j]),
    ensures
        combinations(pool, set.len()).contains(set),
    decreases pool.len(),
{
    let k = set.len();
    let all = combinations(pool, k);
    if k == 0 {
        assert(set =~= Seq::empty());
        assert(all[0] == set);
    } else {
        assert(pool.contains(set[0]));
        let tail = pool.drop_first();
        let first = choose|p: int| 0 <= p < pool.len() && pool[p] == set[0];
        assert forall|a: int, b: int| 0 <= a < b < tail.len() implies tail[a].ord()
            < tail[b].ord() by {
            assert(pool[a + 1].ord() < pool[b + 1].ord());
        }
        let with = combinations(tail, (k - 1) as nat).map_values(
            |rest: Seq<Rank>| seq![pool[0]] + rest,
        );
        let without = combinations(tail, k);
        if first == 0 {
            let rest = set.drop_first();
            assert forall|j: int| 0 <= j < rest.len() implies tail.contains(
                #[trigger] rest[j],
            ) by {
                assert(rest[j] == set[j + 1]);
                assert(pool.contains(set[j + 1]));
                let p = choose|p: int| 0 <= p < pool.len() && pool[p] == set[j + 1];
                assert(set[0].ord() < set[j + 1].ord());
                assert(p > 0);
                assert(tail[p - 1] == rest[j]);
            }
            assert forall|a: int, b: int| 0 <= a < b < rest.len() implies rest[a].ord()
                < rest[b].ord() by {
                assert(set[a + 1].ord() < set[b + 1].ord());
            }
            lemma_combinations_complete(tail, rest);
            let i = choose|i: int|
                0 <= i < combinations(tail, rest.len()).len() && combinations(tail, rest.len())[i]
                    == rest;
            assert(set =~= seq![pool[0]] + rest);
            assert(with[i] == set);
            assert(all[i] == set);
        } else {
            assert forall|j: int| 0 <= j < set.len() implies tail.contains(#[trigger] set[j]) by {
                assert(pool.contains(set[j]));
                let p = choose|p: int| 0 <= p < pool.len() && pool[p] == set[j];
                assert(pool[0].ord() < pool[first].ord());
                if j > 0 {
                    assert(set[0].ord() < set[j].ord());
                }
                assert(p > 0);
                assert(tail[p - 1] == set[j]);
            }
            lemma_combinations_complete(tail, set);
            let i = choose|i: int| 0 <= i < without.len() && without[i] == set;
            assert(all[with.len() + i] == set);
        }
    }
}

/// Every set of kickers is among the sets of kickers that a search tries.
pub proof fn lemma_kicker_sets_complete(
    hand: Seq<u8>,
    size: u8,
    start: int,
    len: int,
    k: nat,
    set: Seq<Rank>,
)
    requires
        hand.len() == 15,
        kicker_set(hand, size, start, len, k, set),
    ensures
        kicker_sets(
            kicker_pool(hand, size, start, len),
            kicker_jokers(hand, size, start, len),
            k,
        ).contains(set),
{
    let pool = kicker_pool(hand, size, start, len);
    let jokers = kicker_jokers(hand, size, start, len);
    let all = kicker_sets(pool, jokers, k);
    lemma_kicker_ranks(hand, size, start, len, 0, 13);
    lemma_kicker_ranks_complete(hand, size, start, len, 0, 13);
    if k == 0 {
        assert(set =~= Seq::empty());
        assert(all[0] == set);
    } else if !set[k - 1].is_joker() {
        assert forall|j: int| 0 <= j < set.len() implies pool.contains(#[trigger] set[j]) by {
            assert(kicker_rank(hand, size, start, len, set[j].ord()));
            if j < k - 1 {
                assert(!set[j].is_joker());
            }
        }
        lemma_combinations_complete(pool, set);
        let i = choose|i: int|
            0 <= i < combinations(pool, k).len() && combinations(pool, k)[i] == set;
        assert(all[i] == set);
    } else {
        let joker = set[k - 1];
        let rest = set.drop_last();
        assert(size == 1);
        lemma_kicker_ranks_complete(hand, size, start, len, 13, 15);
        assert(kicker_rank(hand, size, start, len, joker.ord()));
        assert(jokers.contains(joker));
        let n = choose|n: int| 0 <= n < jokers.len() && jokers[n] == joker;
        assert forall|j: int| 0 <= j < rest.len() implies pool.contains(#[trigger] rest[j]) by {
            assert(rest[j] == set[j]);
            assert(kicker_rank(hand, size, start, len, set[j].ord()));
            assert(!set[j].is_joker());
        }
        assert forall|a: int, b: int| 0 <= a < b < rest.len() implies rest[a].ord()
            < rest[b].ord() by {
            assert(set[a].ord() < set[b].ord());
        }
        lemma_combinations_complete(pool, rest);
        let fewer = combinations(pool, (k - 1) as nat);
        let i = choose|i: int| 0 <= i < fewer.len() && fewer[i] == rest;
        assert(set =~= rest.push(joker));
        lemma_joker_sets_complete(pool, jokers, k, jokers.len() as int, n, i);
        let with = joker_sets(pool, jokers, k, jokers.len() as int);
        let t = choose|t: int| 0 <= t < with.len() && with[t] == set;
        assert(all[combinations(pool, k).len() + t] == set);
    }
}

/// Every rank at the positions from `from` up to `n` that can be a kicker
/// is among the ranks that can be kickers.
pub proof fn lemma_kicker_ranks_complete(
    hand: Seq<u8>,
    size: u8,
    start: int,
    len: int,
    from: int,
    n: int,
)
    requires
        0 <= from <= n <= 15,
    ensures
        forall|r: Rank|
            from <= r.ord() < n && kicker_rank(hand, size, start, len, r.ord()) ==> kicker_ranks(
                hand,
                size,
                start,
                len,
                from,
                n,
            ).contains(r),
    decreases n - from,
{
    if n > from {
        lemma_kicker_ranks_complete(hand, size, start, len, from, n - 1);
        let before = kicker_ranks(hand, size, start, len, from, n - 1);
        let now = kicker_ranks(hand, size, start, len, from, n);
        assert forall|r: Rank|
            from <= r.ord() < n && kicker_rank(hand, size, start, len, r.ord()) implies now.contains(
            r,
        ) by {
            if r.ord() == n - 1 {
                assert(Rank::of_ord(n - 1) == r);
                assert(now[now.len() - 1] == r);
            } else {
                assert(before.contains(r));
                let j = choose|j: int| 0 <= j < before.len() && before[j] == r;
                assert(now[j] == r);
            }
        }
    }
}

/// Each way to pick `k - 1` ranks of the pool, with one of the first `n`
/// jokers added, is among the sets with a joker.
pub proof fn lemma_joker_sets_complete(
    pool: Seq<Rank>,
    jokers: Seq<Rank>,
    k: nat,
    n: int,
    joker: int,
    i: int,
)
    requires
        k >= 1,
        0 <= joker < n <= jokers.len(),
        0 <= i < combinations(pool, (k - 1) as nat).len(),
    ensures
        joker_sets(pool, jokers, k, n).contains(
            combinations(pool, (k - 1) as nat)[i].push(jokers[joker]),
        ),
    decreases n,
{
    let all = joker_sets(pool, jokers, k, n);
    let before = joker_sets(pool, jokers, k, n - 1);
    let set = combinations(pool, (k - 1) as nat)[i].push(jokers[joker]);
    if joker == n - 1 {
        assert(all[before.len() + i] == set);
    } else {
        lemma_joker_sets_complete(pool, jokers, k, n - 1, joker, i);
        let t = choose|t: int| 0 <= t < before.len() && before[t] == set;
        assert(all[t] == set);
    }
}

/// Every play of `len` ranks with a main part that starts below `n` is
/// among the plays of that length.
pub proof fn lemma_length_plays_complete(
    hand: Seq<u8>,
    primal_size: u8,
    kicker_size: u8,
    len: int,
    k: nat,
    n: int,
    start: int,
    set: Seq<Rank>,
    play: Seq<u8>,
)
    requires
        hand.len() == 15,
        start < n,
        shaped(hand, primal_size, kicker_size, len, k, start, set, play),
    ensures
        length_plays(hand, primal_size, kicker_size, len, k, n).contains(play),
    decreases n,
{
    let all = length_plays(hand, primal_size, kicker_size, len, k, n);
    let before = length_plays(hand, primal_size, kicker_size, len, k, n - 1);
    if start == n - 1 {
        let sets = kicker_sets(
            kicker_pool(hand, kicker_size, start, len),
            kicker_jokers(hand, kicker_size, start, len),
            k,
        );
        lemma_kicker_sets_complete(hand, kicker_size, start, len, k, set);
        let i = choose|i: int| 0 <= i < sets.len() && sets[i] == set;
        let found = window_plays(hand, primal_size, kicker_size, start, len, k);
        assert(found[i] == play);
        assert(all[before.len() + i] == play);
    } else {
        lemma_length_plays_complete(
            hand,
            primal_size,
            kicker_size,
            len,
            k,
            n - 1,
            start,
            set,
            play,
        );
        let t = choose|t: int| 0 <= t < before.len() && before[t] == play;
        assert(all[t] == play);
    }
}

/// A search finds every play of its shape: each hand made of a window of
/// the searched hand, of a length that the search considers, and of a set
/// of as many kickers as that length asks for.
pub proof fn lemma_plays_in_complete(
    hand: Seq<u8>,
    primal_size: u8,
    kicker_size: u8,
    first: int,
    n: int,
    kickers: Seq<u8>,
    len: int,
    start: int,
    set: Seq<Rank>,
    play: Seq<u8>,
)
    requires
        hand.len() == 15,
        first <= len < n,
        kickers[len] + len <= 15,
        shaped(hand, primal_size, kicker_size, len, kickers[len] as nat, start, set, play),
    ensures
        plays_in(hand, primal_size, kicker_size, first, n, kickers).contains(play),
    decreases n - first,
{
    let all = plays_in(hand, primal_size, kicker_size, first, n, kickers);
    let before = plays_in(hand, primal_size, kicker_size, first, n - 1, kickers);
    if len == n - 1 {
        let k = kickers[len] as nat;
        let found = length_plays(hand, primal_size, kicker_size, len, k, 15);
        lemma_length_plays_complete(hand, primal_size, kicker_size, len, k, 15, start, set, play);
        let t = choose|t: int| 0 <= t < found.len() && found[t] == play;
        assert(all[before.len() + t] == play);
    } else {
        lemma_plays_in_complete(
            hand,
            primal_size,
            kicker_size,
            first,
            n - 1,
            kickers,
            len,
            start,
            set,
            play,
        );
        let t = choose|t: int| 0 <= t < before.len() && before[t] == play;
        assert(all[t] == play);
    }
}

} // verus!
