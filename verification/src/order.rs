//! The relative strength of plays: which play beats which.
//!
//! The order is partial. Two plays of one category compare by the weakest
//! rank that each of them names, kickers included, and runs only with runs
//! of the same length. Across categories only a bomb and the rocket compare
//! with anything.

use crate::engine::guard::Guard;
use crate::play::{Play, PlayKind, PlayView};
use crate::rank::Rank;
use std::cmp::Ordering;
use vstd::prelude::*;
use vstd::std_specs::cmp::{PartialEqSpecImpl, PartialOrdSpecImpl};

verus! {

/// How two numbers compare.
pub open spec fn compare(a: int, b: int) -> Ordering {
    if a < b {
        Ordering::Less
    } else if a == b {
        Ordering::Equal
    } else {
        Ordering::Greater
    }
}

/// The tier of a category: 2 for the rocket, 1 for a bomb, 0 for all
/// others. A play of a higher tier beats every play of a lower one.
pub open spec fn level(kind: PlayKind) -> int {
    match kind {
        PlayKind::Rocket => 2,
        PlayKind::Bomb => 1,
        _ => 0,
    }
}

impl PlayKind {
    /// How two categories compare: a category equals itself, categories of
    /// different tiers compare by tier, and two different categories of one
    /// tier do not compare.
    pub open spec fn order(self, other: PlayKind) -> Option<Ordering> {
        if self == other {
            Some(Ordering::Equal)
        } else if level(self) == level(other) {
            None
        } else {
            Some(compare(level(self), level(other)))
        }
    }
}

/// The weaker of two ranks.
pub open spec fn weaker(a: Rank, b: Rank) -> Rank {
    if a.ord() <= b.ord() {
        a
    } else {
        b
    }
}

impl PlayView {
    /// The rank by which the play compares with others of its category:
    /// the weakest of all the ranks that the play names, in its main part
    /// or among its kickers. Runs and kickers are listed in ascending
    /// order, so the weakest of a list is its first.
    pub open spec fn lead(self) -> Rank {
        match self {
            PlayView::Solo(rank) => rank,
            PlayView::Chain(ranks) => ranks[0],
            PlayView::Pair(rank) => rank,
            PlayView::PairsChain(ranks) => ranks[0],
            PlayView::Trio(rank) => rank,
            PlayView::Airplane(ranks) => ranks[0],
            PlayView::TrioWithSolo { trio, solo } => weaker(trio, solo),
            PlayView::AirplaneWithSolos { airplane, solos } => weaker(airplane[0], solos[0]),
            PlayView::TrioWithPair { trio, pair } => weaker(trio, pair),
            PlayView::AirplaneWithPairs { airplane, pairs } => weaker(airplane[0], pairs[0]),
            PlayView::Bomb(rank) => rank,
            PlayView::FourWithDualSolo { four, dual_solo } => weaker(four, dual_solo[0]),
            PlayView::FourWithDualPair { four, dual_pair } => weaker(four, dual_pair[0]),
            PlayView::Rocket => Rank::BlackJoker,
        }
    }

    /// The number of ranks in the main part of the play: the length of a
    /// run, and 1 for a play without a run.
    pub open spec fn width(self) -> nat {
        match self {
            PlayView::Chain(ranks) => ranks.len(),
            PlayView::PairsChain(ranks) => ranks.len(),
            PlayView::Airplane(ranks) => ranks.len(),
            PlayView::AirplaneWithSolos { airplane, .. } => airplane.len(),
            PlayView::AirplaneWithPairs { airplane, .. } => airplane.len(),
            _ => 1,
        }
    }

    /// How the play compares with `other`, if it does.
    ///
    /// Plays of different categories compare by tier, and not at all within
    /// one tier. Plays of one category compare by the weakest rank that
    /// each names if their main parts have the same number of ranks, else
    /// not at all.
    pub open spec fn order(self, other: PlayView) -> Option<Ordering> {
        if self.kind() != other.kind() {
            if level(self.kind()) == level(other.kind()) {
                None
            } else {
                Some(compare(level(self.kind()), level(other.kind())))
            }
        } else if self.width() != other.width() {
            None
        } else {
            Some(compare(self.lead().ord(), other.lead().ord()))
        }
    }
}

/// How two small numbers compare.
fn compare_u8(a: u8, b: u8) -> (o: Ordering)
    ensures
        a < b ==> o == Ordering::Less,
        a == b ==> o == Ordering::Equal,
        a > b ==> o == Ordering::Greater,
{
    if a < b {
        Ordering::Less
    } else if a == b {
        Ordering::Equal
    } else {
        Ordering::Greater
    }
}

/// The tier of a category.
fn level_of(kind: PlayKind) -> (l: u8)
    ensures
        l == level(kind),
{
    match kind {
        PlayKind::Rocket => 2,
        PlayKind::Bomb => 1,
        _ => 0,
    }
}

/// The weaker of two ranks.
fn weaker_of(a: Rank, b: Rank) -> (rank: Rank)
    ensures
        rank == weaker(a, b),
{
    if a.ordinal() <= b.ordinal() {
        a
    } else {
        b
    }
}

/// The rank by which a play compares with others of its category.
fn lead_of(play: &Play) -> (rank: Rank)
    requires
        play@.valid(),
    ensures
        rank == play@.lead(),
{
    match play {
        Play::Solo(rank) => *rank,
        Play::Chain(ranks) => ranks[0],
        Play::Pair(rank) => *rank,
        Play::PairsChain(ranks) => ranks[0],
        Play::Trio(rank) => *rank,
        Play::Airplane(ranks) => ranks[0],
        Play::TrioWithSolo { trio, solo } => weaker_of(*trio, *solo),
        Play::AirplaneWithSolos { airplane, solos } => weaker_of(airplane[0], solos[0]),
        Play::TrioWithPair { trio, pair } => weaker_of(*trio, *pair),
        Play::AirplaneWithPairs { airplane, pairs } => weaker_of(airplane[0], pairs[0]),
        Play::Bomb(rank) => *rank,
        Play::FourWithDualSolo { four, dual_solo } => weaker_of(*four, dual_solo[0]),
        Play::FourWithDualPair { four, dual_pair } => weaker_of(*four, dual_pair[0]),
        Play::Rocket => Rank::BlackJoker,
    }
}

/// The number of ranks in the main part of a play.
fn width_of(play: &Play) -> (n: usize)
    ensures
        n == play@.width(),
{
    match play {
        Play::Chain(ranks) => ranks.len(),
        Play::PairsChain(ranks) => ranks.len(),
        Play::Airplane(ranks) => ranks.len(),
        Play::AirplaneWithSolos { airplane, .. } => airplane.len(),
        Play::AirplaneWithPairs { airplane, .. } => airplane.len(),
        _ => 1,
    }
}

impl PartialOrd for Rank {
    /// How the rank compares with `other`: by strength.
    fn partial_cmp(&self, other: &Self) -> (o: Option<Ordering>) {
        Some(compare_u8(self.ordinal(), other.ordinal()))
    }
}

impl PartialOrdSpecImpl for Rank {
    open spec fn obeys_partial_cmp_spec() -> bool {
        true
    }

    open spec fn partial_cmp_spec(&self, other: &Self) -> Option<Ordering> {
        Some(compare(self.ord(), other.ord()))
    }
}

impl PartialOrd for PlayKind {
    /// How two categories compare, if they do.
    fn partial_cmp(&self, other: &Self) -> (o: Option<Ordering>) {
        if *self == *other {
            return Some(Ordering::Equal);
        }
        let a = level_of(*self);
        let b = level_of(*other);
        if a == b {
            None
        } else {
            Some(compare_u8(a, b))
        }
    }
}

impl PartialOrdSpecImpl for PlayKind {
    open spec fn obeys_partial_cmp_spec() -> bool {
        true
    }

    open spec fn partial_cmp_spec(&self, other: &Self) -> Option<Ordering> {
        self.order(*other)
    }
}

impl PartialEq for Guard<Play> {
    /// Whether two plays are of equal strength.
    fn eq(&self, other: &Self) -> (b: bool) {
        match self.partial_cmp(other) {
            Some(Ordering::Equal) => true,
            _ => false,
        }
    }
}

impl PartialEqSpecImpl for Guard<Play> {
    open spec fn obeys_eq_spec() -> bool {
        true
    }

    open spec fn eq_spec(&self, other: &Self) -> bool {
        self@@.order(other@@) == Some(Ordering::Equal)
    }
}

impl PartialOrd for Guard<Play> {
    /// How the play compares with `other`, if it does.
    fn partial_cmp(&self, other: &Self) -> (o: Option<Ordering>) {
        let a: &Play = &*self;
        let b: &Play = &*other;
        let kind = a.kind();
        let other_kind = b.kind();
        if kind != other_kind {
            let level = level_of(kind);
            let other_level = level_of(other_kind);
            if level == other_level {
                return None;
            }
            return Some(compare_u8(level, other_level));
        }
        if width_of(a) != width_of(b) {
            return None;
        }
        Some(compare_u8(lead_of(a).ordinal(), lead_of(b).ordinal()))
    }
}

impl PartialOrdSpecImpl for Guard<Play> {
    open spec fn obeys_partial_cmp_spec() -> bool {
        true
    }

    open spec fn partial_cmp_spec(&self, other: &Self) -> Option<Ordering> {
        self@@.order(other@@)
    }
}

/// Two plays of different categories, neither of them a bomb or the rocket,
/// do not compare.
pub proof fn lemma_ordinary_kinds_incomparable(a: PlayView, b: PlayView)
    requires
        a.kind() != b.kind(),
        a.kind() != PlayKind::Bomb,
        a.kind() != PlayKind::Rocket,
        b.kind() != PlayKind::Bomb,
        b.kind() != PlayKind::Rocket,
    ensures
        a.order(b) is None,
        b.order(a) is None,
        a.kind().order(b.kind()) is None,
{
}

/// The rocket beats every other play.
pub proof fn lemma_rocket_beats_all(play: PlayView)
    requires
        play.kind() != PlayKind::Rocket,
    ensures
        PlayView::Rocket.order(play) == Some(Ordering::Greater),
        play.order(PlayView::Rocket) == Some(Ordering::Less),
{
}

/// A bomb beats every play that is neither a bomb nor the rocket.
pub proof fn lemma_bomb_beats_ordinary(bomb: PlayView, play: PlayView)
    requires
        bomb.kind() == PlayKind::Bomb,
        play.kind() != PlayKind::Bomb,
        play.kind() != PlayKind::Rocket,
    ensures
        bomb.order(play) == Some(Ordering::Greater),
        play.order(bomb) == Some(Ordering::Less),
{
}

/// Two bombs compare as their ranks do.
pub proof fn lemma_bombs_by_rank(a: Rank, b: Rank)
    ensures
        PlayView::Bomb(a).order(PlayView::Bomb(b)) == Some(compare(a.ord(), b.ord())),
        PlayView::Bomb(Rank::Three).order(PlayView::Bomb(Rank::Four)) == Some(Ordering::Less),
{
}

/// The order of plays is antisymmetric: if one play is below another, the
/// other is above it, and equal strength goes both ways.
pub proof fn lemma_order_antisymmetric(a: PlayView, b: PlayView)
    ensures
        a.order(b) is None <==> b.order(a) is None,
        a.order(b) == Some(Ordering::Less) <==> b.order(a) == Some(Ordering::Greater),
        a.order(b) == Some(Ordering::Equal) <==> b.order(a) == Some(Ordering::Equal),
{
}

} // verus!
