use crate::engine::guard::{Guard, Validated};
use crate::hand::{limit, valid_counts, Hand};
use crate::rank::Rank;
use crate::ranks::{ascending, conceals_rocket, consecutive, disjoint, no_joker};
use vstd::prelude::*;
use vstd::std_specs::cmp::PartialEqSpecImpl;

verus! {

/// The category of a play.
#[derive(Debug, Clone, Copy, PartialEq, Eq, Structural)]
pub enum PlayKind {
    /// Any single card.
    Solo,
    /// Five or more consecutive single cards.
    Chain,
    /// Two cards of one rank.
    Pair,
    /// Three or more consecutive pairs.
    PairsChain,
    /// Three cards of one rank.
    Trio,
    /// Two or more consecutive trios.
    Airplane,
    /// A trio with a single card as kicker.
    TrioWithSolo,
    /// Consecutive trios, each with a single card of its own as kicker.
    AirplaneWithSolos,
    /// A trio with a pair as kicker.
    TrioWithPair,
    /// Consecutive trios, each with a pair of its own as kicker.
    AirplaneWithPairs,
    /// Four cards of one rank. Beats every play but a stronger bomb and the
    /// rocket.
    Bomb,
    /// Four cards of one rank with two single cards as kickers.
    FourWithDualSolo,
    /// Four cards of one rank with two pairs as kickers.
    FourWithDualPair,
    /// The two jokers. Beats every other play.
    Rocket,
}

/// A play of one of the standard categories.
///
/// The ranks of a run and the kickers are listed in ascending order.
#[derive(Debug, Eq)]
pub enum Play {
    Solo(Rank),
    Chain(Vec<Rank>),
    Pair(Rank),
    PairsChain(Vec<Rank>),
    Trio(Rank),
    Airplane(Vec<Rank>),
    TrioWithSolo { trio: Rank, solo: Rank },
    AirplaneWithSolos { airplane: Vec<Rank>, solos: Vec<Rank> },
    TrioWithPair { trio: Rank, pair: Rank },
    AirplaneWithPairs { airplane: Vec<Rank>, pairs: Vec<Rank> },
    Bomb(Rank),
    FourWithDualSolo { four: Rank, dual_solo: [Rank; 2] },
    FourWithDualPair { four: Rank, dual_pair: [Rank; 2] },
    Rocket,
}

/// What a `Play` says, with its lists of ranks as sequences.
pub enum PlayView {
    Solo(Rank),
    Chain(Seq<Rank>),
    Pair(Rank),
    PairsChain(Seq<Rank>),
    Trio(Rank),
    Airplane(Seq<Rank>),
    TrioWithSolo { trio: Rank, solo: Rank },
    AirplaneWithSolos { airplane: Seq<Rank>, solos: Seq<Rank> },
    TrioWithPair { trio: Rank, pair: Rank },
    AirplaneWithPairs { airplane: Seq<Rank>, pairs: Seq<Rank> },
    Bomb(Rank),
    FourWithDualSolo { four: Rank, dual_solo: Seq<Rank> },
    FourWithDualPair { four: Rank, dual_pair: Seq<Rank> },
    Rocket,
}

impl View for Play {
    type V = PlayView;

    open spec fn view(&self) -> PlayView {
        match *self {
            Play::Solo(rank) => PlayView::Solo(rank),
            Play::Chain(ranks) => PlayView::Chain(ranks@),
            Play::Pair(rank) => PlayView::Pair(rank),
            Play::PairsChain(ranks) => PlayView::PairsChain(ranks@),
            Play::Trio(rank) => PlayView::Trio(rank),
            Play::Airplane(ranks) => PlayView::Airplane(ranks@),
            Play::TrioWithSolo { trio, solo } => PlayView::TrioWithSolo { trio, solo },
            Play::AirplaneWithSolos { airplane, solos } => PlayView::AirplaneWithSolos {
                airplane: airplane@,
                solos: solos@,
            },
            Play::TrioWithPair { trio, pair } => PlayView::TrioWithPair { trio, pair },
            Play::AirplaneWithPairs { airplane, pairs } => PlayView::AirplaneWithPairs {
                airplane: airplane@,
                pairs: pairs@,
            },
            Play::Bomb(rank) => PlayView::Bomb(rank),
            Play::FourWithDualSolo { four, dual_solo } => PlayView::FourWithDualSolo {
                four,
                dual_solo: dual_solo@,
            },
            Play::FourWithDualPair { four, dual_pair } => PlayView::FourWithDualPair {
                four,
                dual_pair: dual_pair@,
            },
            Play::Rocket => PlayView::Rocket,
        }
    }
}

/// The number of cards that a rank contributes to a play: `n` if it is
/// among `ranks`, else what it contributes `otherwise`.
pub open spec fn held(ranks: Seq<Rank>, rank: Rank, n: u8, otherwise: u8) -> u8 {
    if ranks.contains(rank) {
        n
    } else {
        otherwise
    }
}

impl PlayView {
    /// The category of the play.
    pub open spec fn kind(self) -> PlayKind {
        match self {
            PlayView::Solo(_) => PlayKind::Solo,
            PlayView::Chain(_) => PlayKind::Chain,
            PlayView::Pair(_) => PlayKind::Pair,
            PlayView::PairsChain(_) => PlayKind::PairsChain,
            PlayView::Trio(_) => PlayKind::Trio,
            PlayView::Airplane(_) => PlayKind::Airplane,
            PlayView::TrioWithSolo { .. } => PlayKind::TrioWithSolo,
            PlayView::AirplaneWithSolos { .. } => PlayKind::AirplaneWithSolos,
            PlayView::TrioWithPair { .. } => PlayKind::TrioWithPair,
            PlayView::AirplaneWithPairs { .. } => PlayKind::AirplaneWithPairs,
            PlayView::Bomb(_) => PlayKind::Bomb,
            PlayView::FourWithDualSolo { .. } => PlayKind::FourWithDualSolo,
            PlayView::FourWithDualPair { .. } => PlayKind::FourWithDualPair,
            PlayView::Rocket => PlayKind::Rocket,
        }
    }

    /// Whether the play is one that the rules allow: its runs are long
    /// enough and consecutive, its kickers are distinct ranks outside the
    /// main part and in ascending order, no rank asks for more cards than a
    /// deck holds, and the kickers are not the two jokers together.
    pub open spec fn valid(self) -> bool {
        match self {
            PlayView::Solo(_) => true,
            PlayView::Chain(ranks) => ranks.len() >= 5 && consecutive(ranks),
            PlayView::Pair(rank) => !rank.is_joker(),
            PlayView::PairsChain(ranks) => ranks.len() >= 3 && consecutive(ranks),
            PlayView::Trio(rank) => !rank.is_joker(),
            PlayView::Airplane(ranks) => ranks.len() >= 2 && consecutive(ranks),
            PlayView::TrioWithSolo { trio, solo } => !trio.is_joker() && solo != trio,
            PlayView::AirplaneWithSolos { airplane, solos } => {
                &&& airplane.len() >= 2
                &&& consecutive(airplane)
                &&& solos.len() == airplane.len()
                &&& ascending(solos)
                &&& disjoint(airplane, solos)
                &&& !conceals_rocket(solos)
            },
            PlayView::TrioWithPair { trio, pair } => {
                &&& !trio.is_joker()
                &&& !pair.is_joker()
                &&& pair != trio
            },
            PlayView::AirplaneWithPairs { airplane, pairs } => {
                &&& airplane.len() >= 2
                &&& consecutive(airplane)
                &&& pairs.len() == airplane.len()
                &&& ascending(pairs)
                &&& no_joker(pairs)
                &&& disjoint(airplane, pairs)
            },
            PlayView::Bomb(rank) => !rank.is_joker(),
            PlayView::FourWithDualSolo { four, dual_solo } => {
                &&& !four.is_joker()
                &&& dual_solo.len() == 2
                &&& ascending(dual_solo)
                &&& !dual_solo.contains(four)
                &&& dual_solo[0] != Rank::BlackJoker
            },
            PlayView::FourWithDualPair { four, dual_pair } => {
                &&& !four.is_joker()
                &&& dual_pair.len() == 2
                &&& ascending(dual_pair)
                &&& no_joker(dual_pair)
                &&& !dual_pair.contains(four)
            },
            PlayView::Rocket => true,
        }
    }

    /// The number of cards of `rank` in the play: one for a solo, two for a
    /// pair, three for a trio, four for a four of a kind.
    pub open spec fn count(self, rank: Rank) -> u8 {
        match self {
            PlayView::Solo(solo) => held(seq![solo], rank, 1, 0),
            PlayView::Chain(ranks) => held(ranks, rank, 1, 0),
            PlayView::Pair(pair) => held(seq![pair], rank, 2, 0),
            PlayView::PairsChain(ranks) => held(ranks, rank, 2, 0),
            PlayView::Trio(trio) => held(seq![trio], rank, 3, 0),
            PlayView::Airplane(ranks) => held(ranks, rank, 3, 0),
            PlayView::TrioWithSolo { trio, solo } => held(
                seq![solo],
                rank,
                1,
                held(seq![trio], rank, 3, 0),
            ),
            PlayView::AirplaneWithSolos { airplane, solos } => held(
                solos,
                rank,
                1,
                held(airplane, rank, 3, 0),
            ),
            PlayView::TrioWithPair { trio, pair } => held(
                seq![pair],
                rank,
                2,
                held(seq![trio], rank, 3, 0),
            ),
            PlayView::AirplaneWithPairs { airplane, pairs } => held(
                pairs,
                rank,
                2,
                held(airplane, rank, 3, 0),
            ),
            PlayView::Bomb(four) => held(seq![four], rank, 4, 0),
            PlayView::FourWithDualSolo { four, dual_solo } => held(
                dual_solo,
                rank,
                1,
                held(seq![four], rank, 4, 0),
            ),
            PlayView::FourWithDualPair { four, dual_pair } => held(
                dual_pair,
                rank,
                2,
                held(seq![four], rank, 4, 0),
            ),
            PlayView::Rocket => held(seq![Rank::BlackJoker, Rank::RedJoker], rank, 1, 0),
        }
    }

    /// The cards of the play as the counts of a hand.
    pub open spec fn counts(self) -> Seq<u8> {
        Seq::new(15, |i: int| self.count(Rank::of_ord(i)))
    }
}

impl Validated for Play {
    open spec fn valid(&self) -> bool {
        self@.valid()
    }
}

impl Play {
    /// The category of the play.
    pub fn kind(&self) -> (kind: PlayKind)
        ensures
            kind == self@.kind(),
    {
        match self {
            Play::Solo(_) => PlayKind::Solo,
            Play::Chain(_) => PlayKind::Chain,
            Play::Pair(_) => PlayKind::Pair,
            Play::PairsChain(_) => PlayKind::PairsChain,
            Play::Trio(_) => PlayKind::Trio,
            Play::Airplane(_) => PlayKind::Airplane,
            Play::TrioWithSolo { .. } => PlayKind::TrioWithSolo,
            Play::AirplaneWithSolos { .. } => PlayKind::AirplaneWithSolos,
            Play::TrioWithPair { .. } => PlayKind::TrioWithPair,
            Play::AirplaneWithPairs { .. } => PlayKind::AirplaneWithPairs,
            Play::Bomb(_) => PlayKind::Bomb,
            Play::FourWithDualSolo { .. } => PlayKind::FourWithDualSolo,
            Play::FourWithDualPair { .. } => PlayKind::FourWithDualPair,
            Play::Rocket => PlayKind::Rocket,
        }
    }
}

/// Sets the count of each of `ranks` to `n` and leaves the others as they
/// are.
pub(crate) fn mark(counts: [u8; 15], ranks: &[Rank], n: u8) -> (marked: [u8; 15])
    ensures
        forall|i: int|
            0 <= i < 15 ==> #[trigger] marked@[i] == held(ranks@, Rank::of_ord(i), n, counts@[i]),
{
    let mut marked = counts;
    let mut k: usize = 0;
    while k < ranks.len()
        invariant
            0 <= k <= ranks.len(),
            forall|i: int|
                0 <= i < 15 ==> #[trigger] marked@[i] == held(
                    ranks@.take(k as int),
                    Rank::of_ord(i),
                    n,
                    counts@[i],
                ),
        decreases ranks.len() - k,
    {
        let rank = ranks[k];
        let ghost before = marked@;
        marked[rank.ordinal() as usize] = n;
        proof {
            let seen = ranks@.take(k as int);
            let next = ranks@.take(k + 1);
            assert(next =~= seen.push(rank));
            assert forall|i: int| 0 <= i < 15 implies #[trigger] marked@[i] == held(
                next,
                Rank::of_ord(i),
                n,
                counts@[i],
            ) by {
                let r = Rank::of_ord(i);
                if r == rank {
                    assert(next[k as int] == r);
                } else if seen.contains(r) {
                    let j = choose|j: int| 0 <= j < seen.len() && seen[j] == r;
                    assert(next[j] == r);
                } else if next.contains(r) {
                    let j = choose|j: int| 0 <= j < next.len() && next[j] == r;
                    assert(seen[j] == r);
                }
                assert(before[i] == held(seen, r, n, counts@[i]));
            }
        }
        k += 1;
    }
    assert(ranks@.take(k as int) =~= ranks@);
    marked
}

/// Sets the count of `rank` to `n` and leaves the others as they are.
fn mark_one(counts: [u8; 15], rank: Rank, n: u8) -> (marked: [u8; 15])
    ensures
        forall|i: int|
            0 <= i < 15 ==> #[trigger] marked@[i] == held(
                seq![rank],
                Rank::of_ord(i),
                n,
                counts@[i],
            ),
{
    let mut marked = counts;
    marked[rank.ordinal() as usize] = n;
    proof {
        assert forall|i: int| 0 <= i < 15 implies #[trigger] marked@[i] == held(
            seq![rank],
            Rank::of_ord(i),
            n,
            counts@[i],
        ) by {
            let r = Rank::of_ord(i);
            if r == rank {
                assert(seq![rank][0] == r);
            } else if seq![rank].contains(r) {
                let j = choose|j: int| 0 <= j < seq![rank].len() && seq![rank][j] == r;
            }
        }
    }
    marked
}

impl Guard<Play> {
    /// The cards of the play as a hand.
    pub fn to_hand(&self) -> (hand: Hand)
        ensures
            hand@ == self@@.counts(),
    {
        let zero: [u8; 15] = [0, 0, 0, 0, 0, 0, 0, 0, 0, 0, 0, 0, 0, 0, 0];
        let play: &Play = &*self;
        let counts = match play {
            Play::Solo(rank) => mark_one(zero, *rank, 1),
            Play::Chain(ranks) => mark(zero, ranks.as_slice(), 1),
            Play::Pair(rank) => mark_one(zero, *rank, 2),
            Play::PairsChain(ranks) => mark(zero, ranks.as_slice(), 2),
            Play::Trio(rank) => mark_one(zero, *rank, 3),
            Play::Airplane(ranks) => mark(zero, ranks.as_slice(), 3),
            Play::TrioWithSolo { trio, solo } => mark_one(mark_one(zero, *trio, 3), *solo, 1),
            Play::AirplaneWithSolos { airplane, solos } => mark(
                mark(zero, airplane.as_slice(), 3),
                solos.as_slice(),
                1,
            ),
            Play::TrioWithPair { trio, pair } => mark_one(mark_one(zero, *trio, 3), *pair, 2),
            Play::AirplaneWithPairs { airplane, pairs } => mark(
                mark(zero, airplane.as_slice(), 3),
                pairs.as_slice(),
                2,
            ),
            Play::Bomb(rank) => mark_one(zero, *rank, 4),
            Play::FourWithDualSolo { four, dual_solo } => mark(
                mark_one(zero, *four, 4),
                dual_solo.as_slice(),
                1,
            ),
            Play::FourWithDualPair { four, dual_pair } => mark(
                mark_one(zero, *four, 4),
                dual_pair.as_slice(),
                2,
            ),
            Play::Rocket => {
                let jokers = [Rank::BlackJoker, Rank::RedJoker];
                assert(jokers@ =~= seq![Rank::BlackJoker, Rank::RedJoker]);
                mark(zero, jokers.as_slice(), 1)
            },
        };
        proof {
            assert forall|i: int| 0 <= i < 15 implies counts@[i] == #[trigger] play@.counts()[i] by {
                assert(zero@[i] == 0);
            }
            assert(counts@ =~= play@.counts());
            lemma_valid_play_counts(play@);
        }
        Hand::from_counts(counts)
    }
}

/// A copy of a list of ranks.
pub(crate) fn copy_ranks(ranks: &Vec<Rank>) -> (copy: Vec<Rank>)
    ensures
        copy@ == ranks@,
{
    let mut copy: Vec<Rank> = Vec::new();
    let mut i: usize = 0;
    while i < ranks.len()
        invariant
            0 <= i <= ranks.len(),
            copy@ == ranks@.take(i as int),
        decreases ranks.len() - i,
    {
        copy.push(ranks[i]);
        assert(ranks@.take(i + 1) =~= ranks@.take(i as int).push(ranks@[i as int]));
        i += 1;
    }
    assert(ranks@.take(i as int) =~= ranks@);
    copy
}

impl Clone for Play {
    /// A copy of the play.
    fn clone(&self) -> (copy: Play)
        ensures
            copy@ == self@,
    {
        match self {
            Play::Solo(rank) => Play::Solo(*rank),
            Play::Chain(ranks) => Play::Chain(copy_ranks(ranks)),
            Play::Pair(rank) => Play::Pair(*rank),
            Play::PairsChain(ranks) => Play::PairsChain(copy_ranks(ranks)),
            Play::Trio(rank) => Play::Trio(*rank),
            Play::Airplane(ranks) => Play::Airplane(copy_ranks(ranks)),
            Play::TrioWithSolo { trio, solo } => Play::TrioWithSolo { trio: *trio, solo: *solo },
            Play::AirplaneWithSolos { airplane, solos } => Play::AirplaneWithSolos {
                airplane: copy_ranks(airplane),
                solos: copy_ranks(solos),
            },
            Play::TrioWithPair { trio, pair } => Play::TrioWithPair { trio: *trio, pair: *pair },
            Play::AirplaneWithPairs { airplane, pairs } => Play::AirplaneWithPairs {
                airplane: copy_ranks(airplane),
                pairs: copy_ranks(pairs),
            },
            Play::Bomb(rank) => Play::Bomb(*rank),
            Play::FourWithDualSolo { four, dual_solo } => Play::FourWithDualSolo {
                four: *four,
                dual_solo: *dual_solo,
            },
            Play::FourWithDualPair { four, dual_pair } => Play::FourWithDualPair {
                four: *four,
                dual_pair: *dual_pair,
            },
            Play::Rocket => Play::Rocket,
        }
    }
}

/// Whether two lists hold the same ranks in the same order.
fn same_ranks(a: &[Rank], b: &[Rank]) -> (same: bool)
    ensures
        same == (a@ == b@),
{
    if a.len() != b.len() {
        return false;
    }
    let mut i: usize = 0;
    while i < a.len()
        invariant
            0 <= i <= a.len(),
            a.len() == b.len(),
            forall|j: int| 0 <= j < i ==> a@[j] == b@[j],
        decreases a.len() - i,
    {
        if a[i] != b[i] {
            return false;
        }
        i += 1;
    }
    assert(a@ =~= b@);
    true
}

impl PartialEq for Play {
    /// Whether two plays are of the same category and hold the same ranks
    /// in the same places.
    fn eq(&self, other: &Self) -> (b: bool) {
        match (self, other) {
            (Play::Solo(a), Play::Solo(b)) => *a == *b,
            (Play::Chain(a), Play::Chain(b)) => same_ranks(a.as_slice(), b.as_slice()),
            (Play::Pair(a), Play::Pair(b)) => *a == *b,
            (Play::PairsChain(a), Play::PairsChain(b)) => same_ranks(a.as_slice(), b.as_slice()),
            (Play::Trio(a), Play::Trio(b)) => *a == *b,
            (Play::Airplane(a), Play::Airplane(b)) => same_ranks(a.as_slice(), b.as_slice()),
            (
                Play::TrioWithSolo { trio: a, solo: c },
                Play::TrioWithSolo { trio: b, solo: d },
            ) => *a == *b && *c == *d,
            (
                Play::AirplaneWithSolos { airplane: a, solos: c },
                Play::AirplaneWithSolos { airplane: b, solos: d },
            ) => same_ranks(a.as_slice(), b.as_slice()) && same_ranks(c.as_slice(), d.as_slice()),
            (
                Play::TrioWithPair { trio: a, pair: c },
                Play::TrioWithPair { trio: b, pair: d },
            ) => *a == *b && *c == *d,
            (
                Play::AirplaneWithPairs { airplane: a, pairs: c },
                Play::AirplaneWithPairs { airplane: b, pairs: d },
            ) => same_ranks(a.as_slice(), b.as_slice()) && same_ranks(c.as_slice(), d.as_slice()),
            (Play::Bomb(a), Play::Bomb(b)) => *a == *b,
            (
                Play::FourWithDualSolo { four: a, dual_solo: c },
                Play::FourWithDualSolo { four: b, dual_solo: d },
            ) => *a == *b && same_ranks(c.as_slice(), d.as_slice()),
            (
                Play::FourWithDualPair { four: a, dual_pair: c },
                Play::FourWithDualPair { four: b, dual_pair: d },
            ) => *a == *b && same_ranks(c.as_slice(), d.as_slice()),
            (Play::Rocket, Play::Rocket) => true,
            _ => false,
        }
    }
}

impl PartialEqSpecImpl for Play {
    open spec fn obeys_eq_spec() -> bool {
        true
    }

    open spec fn eq_spec(&self, other: &Self) -> bool {
        self@ == other@
    }
}

impl Clone for Guard<Play> {
    /// A copy of the play, which is as valid as the play.
    fn clone(&self) -> (copy: Guard<Play>)
        ensures
            copy@@ == self@@,
    {
        let play: &Play = &*self;
        Guard::new_unchecked(play.clone())
    }
}

/// The cards of a valid play can be taken from one deck.
pub proof fn lemma_valid_play_counts(play: PlayView)
    requires
        play.valid(),
    ensures
        valid_counts(play.counts()),
{
    assert forall|i: int| 0 <= i < 15 implies #[trigger] play.counts()[i] <= limit(i) by {
        let r = Rank::of_ord(i);
        if i >= 13 {
            assert(r.is_joker());
            match play {
                PlayView::PairsChain(ranks) => {
                    if ranks.contains(r) {
                        let j = choose|j: int| 0 <= j < ranks.len() && ranks[j] == r;
                        assert(ranks[j].chains());
                    }
                },
                PlayView::Airplane(ranks) => {
                    if ranks.contains(r) {
                        let j = choose|j: int| 0 <= j < ranks.len() && ranks[j] == r;
                        assert(ranks[j].chains());
                    }
                },
                PlayView::AirplaneWithSolos { airplane, solos } => {
                    if airplane.contains(r) {
                        let j = choose|j: int| 0 <= j < airplane.len() && airplane[j] == r;
                        assert(airplane[j].chains());
                    }
                },
                PlayView::AirplaneWithPairs { airplane, pairs } => {
                    if airplane.contains(r) {
                        let j = choose|j: int| 0 <= j < airplane.len() && airplane[j] == r;
                        assert(airplane[j].chains());
                    }
                    if pairs.contains(r) {
                        let j = choose|j: int| 0 <= j < pairs.len() && pairs[j] == r;
                        assert(!pairs[j].is_joker());
                    }
                },
                PlayView::FourWithDualPair { four, dual_pair } => {
                    if dual_pair.contains(r) {
                        let j = choose|j: int| 0 <= j < dual_pair.len() && dual_pair[j] == r;
                        assert(!dual_pair[j].is_joker());
                    }
                },
                _ => {},
            }
        }
    }
}

} // verus!
