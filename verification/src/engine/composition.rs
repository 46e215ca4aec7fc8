//! The structure of a hand: its ranks grouped by the number of cards held
//! of each, and the play that such a grouping amounts to.

use crate::engine::guard::{Guard, Validated};
use crate::engine::private::Sealed;
use crate::hand::{limit, valid_counts, Hand};
use crate::play::{copy_ranks, Play, PlayKind, PlayView};
use crate::rank::Rank;
use crate::ranks::{ascending, conceals_rocket, consecutive, disjoint, no_joker};
use vstd::prelude::*;

verus! {

/// The ranks of which a hand holds one and the same number of cards, in
/// ascending order, and whether they form a run.
#[derive(Debug)]
pub struct Group {
    pub ranks: Vec<Rank>,
    pub consecutive: bool,
}

/// The ranks of a hand grouped by the number of cards held of each.
#[derive(Debug)]
pub struct Composition {
    pub solos: Group,
    pub pairs: Group,
    pub trios: Group,
    pub fours: Group,
}

/// What a `Group` says, with its ranks as a sequence.
pub struct GroupView {
    pub ranks: Seq<Rank>,
    pub consecutive: bool,
}

/// What a `Composition` says.
pub struct CompositionView {
    pub solos: GroupView,
    pub pairs: GroupView,
    pub trios: GroupView,
    pub fours: GroupView,
}

impl View for Group {
    type V = GroupView;

    open spec fn view(&self) -> GroupView {
        GroupView { ranks: self.ranks@, consecutive: self.consecutive }
    }
}

impl View for Composition {
    type V = CompositionView;

    open spec fn view(&self) -> CompositionView {
        CompositionView {
            solos: self.solos@,
            pairs: self.pairs@,
            trios: self.trios@,
            fours: self.fours@,
        }
    }
}

/// The ranks among the first `n` of which `counts` holds exactly `m` cards,
/// in ascending order.
pub open spec fn ranks_holding(counts: Seq<u8>, m: u8, n: int) -> Seq<Rank>
    decreases n,
{
    if n <= 0 {
        Seq::empty()
    } else if counts[n - 1] == m {
        ranks_holding(counts, m, n - 1).push(Rank::of_ord(n - 1))
    } else {
        ranks_holding(counts, m, n - 1)
    }
}

/// The group of the ranks among the first `n` of which `counts` holds
/// exactly `m` cards.
pub open spec fn group_of(counts: Seq<u8>, m: u8, n: int) -> GroupView {
    let ranks = ranks_holding(counts, m, n);
    GroupView { ranks, consecutive: consecutive(ranks) }
}

/// The composition of the hand that holds `counts`.
pub open spec fn composition_of(counts: Seq<u8>) -> CompositionView {
    CompositionView {
        solos: group_of(counts, 1, 15),
        pairs: group_of(counts, 2, 15),
        trios: group_of(counts, 3, 15),
        fours: group_of(counts, 4, 15),
    }
}

impl GroupView {
    /// Whether the ranks ascend and the flag says whether they form a run.
    pub open spec fn valid(self) -> bool {
        &&& ascending(self.ranks)
        &&& self.consecutive == consecutive(self.ranks)
    }

    /// The number of ranks in the group.
    pub open spec fn len(self) -> nat {
        self.ranks.len()
    }
}

impl CompositionView {
    /// Whether this is the composition of some hand: each group is valid,
    /// no rank stands in two groups, and no joker is held more than once.
    pub open spec fn valid(self) -> bool {
        &&& self.solos.valid()
        &&& self.pairs.valid()
        &&& self.trios.valid()
        &&& self.fours.valid()
        &&& disjoint(self.solos.ranks, self.pairs.ranks)
        &&& disjoint(self.solos.ranks, self.trios.ranks)
        &&& disjoint(self.solos.ranks, self.fours.ranks)
        &&& disjoint(self.pairs.ranks, self.trios.ranks)
        &&& disjoint(self.pairs.ranks, self.fours.ranks)
        &&& disjoint(self.trios.ranks, self.fours.ranks)
        &&& no_joker(self.pairs.ranks)
        &&& no_joker(self.trios.ranks)
        &&& no_joker(self.fours.ranks)
    }

    /// Whether the groups hold `solos`, `pairs`, `trios` and `fours` ranks.
    pub open spec fn sizes(self, solos: nat, pairs: nat, trios: nat, fours: nat) -> bool {
        &&& self.solos.len() == solos
        &&& self.pairs.len() == pairs
        &&& self.trios.len() == trios
        &&& self.fours.len() == fours
    }

    /// A solo, if the hand is one single card.
    pub open spec fn to_solo(self) -> Option<PlayView> {
        if self.sizes(1, 0, 0, 0) {
            Some(PlayView::Solo(self.solos.ranks[0]))
        } else {
            None
        }
    }

    /// A chain, if the hand is five or more consecutive single cards.
    pub open spec fn to_chain(self) -> Option<PlayView> {
        if self.solos.len() >= 5 && self.solos.consecutive && self.sizes(self.solos.len(), 0, 0, 0) {
            Some(PlayView::Chain(self.solos.ranks))
        } else {
            None
        }
    }

    /// A pair, if the hand is two cards of one rank.
    pub open spec fn to_pair(self) -> Option<PlayView> {
        if self.sizes(0, 1, 0, 0) {
            Some(PlayView::Pair(self.pairs.ranks[0]))
        } else {
            None
        }
    }

    /// A chain of pairs, if the hand is three or more consecutive pairs.
    pub open spec fn to_pairs_chain(self) -> Option<PlayView> {
        if self.pairs.len() >= 3 && self.pairs.consecutive && self.sizes(0, self.pairs.len(), 0, 0) {
            Some(PlayView::PairsChain(self.pairs.ranks))
        } else {
            None
        }
    }

    /// A trio, if the hand is three cards of one rank.
    pub open spec fn to_trio(self) -> Option<PlayView> {
        if self.sizes(0, 0, 1, 0) {
            Some(PlayView::Trio(self.trios.ranks[0]))
        } else {
            None
        }
    }

    /// An airplane, if the hand is two or more consecutive trios.
    pub open spec fn to_airplane(self) -> Option<PlayView> {
        if self.trios.len() >= 2 && self.trios.consecutive && self.sizes(0, 0, self.trios.len(), 0) {
            Some(PlayView::Airplane(self.trios.ranks))
        } else {
            None
        }
    }

    /// A trio with a solo, if the hand is one trio and one single card.
    pub open spec fn to_trio_with_solo(self) -> Option<PlayView> {
        if self.sizes(1, 0, 1, 0) {
            Some(PlayView::TrioWithSolo { trio: self.trios.ranks[0], solo: self.solos.ranks[0] })
        } else {
            None
        }
    }

    /// An airplane with solos, if the hand is two or more consecutive trios
    /// and as many single cards, which are not the two jokers together.
    pub open spec fn to_airplane_with_solos(self) -> Option<PlayView> {
        if self.trios.len() >= 2 && self.trios.consecutive && self.sizes(
            self.trios.len(),
            0,
            self.trios.len(),
            0,
        ) && !conceals_rocket(self.solos.ranks) {
            Some(
                PlayView::AirplaneWithSolos {
                    airplane: self.trios.ranks,
                    solos: self.solos.ranks,
                },
            )
        } else {
            None
        }
    }

    /// A trio with a pair, if the hand is one trio and one pair.
    pub open spec fn to_trio_with_pair(self) -> Option<PlayView> {
        if self.sizes(0, 1, 1, 0) {
            Some(PlayView::TrioWithPair { trio: self.trios.ranks[0], pair: self.pairs.ranks[0] })
        } else {
            None
        }
    }

    /// An airplane with pairs, if the hand is two or more consecutive trios
    /// and as many pairs.
    pub open spec fn to_airplane_with_pairs(self) -> Option<PlayView> {
        if self.trios.len() >= 2 && self.trios.consecutive && self.sizes(
            0,
            self.trios.len(),
            self.trios.len(),
            0,
        ) {
            Some(
                PlayView::AirplaneWithPairs {
                    airplane: self.trios.ranks,
                    pairs: self.pairs.ranks,
                },
            )
        } else {
            None
        }
    }

    /// A bomb, if the hand is four cards of one rank.
    pub open spec fn to_bomb(self) -> Option<PlayView> {
        if self.sizes(0, 0, 0, 1) {
            Some(PlayView::Bomb(self.fours.ranks[0]))
        } else {
            None
        }
    }

    /// A four with two solos, if the hand is four cards of one rank and two
    /// single cards, which are not the two jokers.
    pub open spec fn to_four_with_dual_solo(self) -> Option<PlayView> {
        if self.sizes(2, 0, 0, 1) && self.solos.ranks[0] != Rank::BlackJoker {
            Some(
                PlayView::FourWithDualSolo {
                    four: self.fours.ranks[0],
                    dual_solo: self.solos.ranks,
                },
            )
        } else {
            None
        }
    }

    /// A four with two pairs, if the hand is four cards of one rank and two
    /// pairs.
    pub open spec fn to_four_with_dual_pair(self) -> Option<PlayView> {
        if self.sizes(0, 2, 0, 1) {
            Some(
                PlayView::FourWithDualPair {
                    four: self.fours.ranks[0],
                    dual_pair: self.pairs.ranks,
                },
            )
        } else {
            None
        }
    }

    /// The rocket, if the hand is the two jokers.
    pub open spec fn to_rocket(self) -> Option<PlayView> {
        if self.sizes(2, 0, 0, 0) && self.solos.ranks[0] == Rank::BlackJoker
            && self.solos.ranks[1] == Rank::RedJoker {
            Some(PlayView::Rocket)
        } else {
            None
        }
    }

    /// The play of category `kind` that the hand is, if it is one.
    pub open spec fn to_play(self, kind: PlayKind) -> Option<PlayView> {
        match kind {
            PlayKind::Solo => self.to_solo(),
            PlayKind::Chain => self.to_chain(),
            PlayKind::Pair => self.to_pair(),
            PlayKind::PairsChain => self.to_pairs_chain(),
            PlayKind::Trio => self.to_trio(),
            PlayKind::Airplane => self.to_airplane(),
            PlayKind::TrioWithSolo => self.to_trio_with_solo(),
            PlayKind::AirplaneWithSolos => self.to_airplane_with_solos(),
            PlayKind::TrioWithPair => self.to_trio_with_pair(),
            PlayKind::AirplaneWithPairs => self.to_airplane_with_pairs(),
            PlayKind::Bomb => self.to_bomb(),
            PlayKind::FourWithDualSolo => self.to_four_with_dual_solo(),
            PlayKind::FourWithDualPair => self.to_four_with_dual_pair(),
            PlayKind::Rocket => self.to_rocket(),
        }
    }

    /// The play that the hand is, if it is one of any category.
    pub open spec fn guess_play(self) -> Option<PlayView> {
        if self.to_solo() is Some {
            self.to_solo()
        } else if self.to_chain() is Some {
            self.to_chain()
        } else if self.to_pair() is Some {
            self.to_pair()
        } else if self.to_pairs_chain() is Some {
            self.to_pairs_chain()
        } else if self.to_trio() is Some {
            self.to_trio()
        } else if self.to_airplane() is Some {
            self.to_airplane()
        } else if self.to_trio_with_solo() is Some {
            self.to_trio_with_solo()
        } else if self.to_airplane_with_solos() is Some {
            self.to_airplane_with_solos()
        } else if self.to_trio_with_pair() is Some {
            self.to_trio_with_pair()
        } else if self.to_airplane_with_pairs() is Some {
            self.to_airplane_with_pairs()
        } else if self.to_bomb() is Some {
            self.to_bomb()
        } else if self.to_four_with_dual_solo() is Some {
            self.to_four_with_dual_solo()
        } else if self.to_four_with_dual_pair() is Some {
            self.to_four_with_dual_pair()
        } else {
            self.to_rocket()
        }
    }
}

impl Validated for Composition {
    open spec fn valid(&self) -> bool {
        self@.valid()
    }
}

/// What an optional play says.
pub open spec fn play_view(play: Option<Guard<Play>>) -> Option<PlayView> {
    match play {
        Some(guard) => Some(guard@@),
        None => None,
    }
}

/// The ranks among the first `n` that hold `m` cards ascend, and they are
/// exactly the ranks below `n` of which `counts` holds `m`.
pub proof fn lemma_ranks_holding(counts: Seq<u8>, m: u8, n: int)
    requires
        0 <= n <= 15,
    ensures
        ascending(ranks_holding(counts, m, n)),
        ranks_holding(counts, m, n).len() <= n,
        forall|i: int|
            0 <= i < ranks_holding(counts, m, n).len() ==> (#[trigger] ranks_holding(
                counts,
                m,
                n,
            )[i]).ord() < n,
        forall|r: Rank|
            ranks_holding(counts, m, n).contains(r) <==> (r.ord() < n && counts[r.ord()] == m),
    decreases n,
{
    if n > 0 {
        lemma_ranks_holding(counts, m, n - 1);
        let before = ranks_holding(counts, m, n - 1);
        let now = ranks_holding(counts, m, n);
        let top = Rank::of_ord(n - 1);
        assert forall|r: Rank| now.contains(r) <==> (r.ord() < n && counts[r.ord()] == m) by {
            if now.contains(r) {
                let j = choose|j: int| 0 <= j < now.len() && now[j] == r;
                if j < before.len() {
                    assert(before[j] == r);
                    assert(before.contains(r));
                }
            }
            if r.ord() < n && counts[r.ord()] == m {
                if r.ord() == n - 1 {
                    assert(r == top);
                    assert(now[now.len() - 1] == r);
                } else {
                    assert(before.contains(r));
                    let j = choose|j: int| 0 <= j < before.len() && before[j] == r;
                    assert(now[j] == r);
                }
            }
        }
    }
}

/// The composition of valid counts is valid.
pub proof fn lemma_composition_valid(counts: Seq<u8>)
    requires
        valid_counts(counts),
    ensures
        composition_of(counts).valid(),
{
    let c = composition_of(counts);
    lemma_ranks_holding(counts, 1, 15);
    lemma_ranks_holding(counts, 2, 15);
    lemma_ranks_holding(counts, 3, 15);
    lemma_ranks_holding(counts, 4, 15);
    lemma_groups_disjoint(counts, 1, 2);
    lemma_groups_disjoint(counts, 1, 3);
    lemma_groups_disjoint(counts, 1, 4);
    lemma_groups_disjoint(counts, 2, 3);
    lemma_groups_disjoint(counts, 2, 4);
    lemma_groups_disjoint(counts, 3, 4);
    lemma_group_no_joker(counts, 2);
    lemma_group_no_joker(counts, 3);
    lemma_group_no_joker(counts, 4);
}

/// No rank stands in the groups of two different numbers of cards.
pub proof fn lemma_groups_disjoint(counts: Seq<u8>, m: u8, k: u8)
    requires
        m != k,
    ensures
        disjoint(ranks_holding(counts, m, 15), ranks_holding(counts, k, 15)),
{
    lemma_ranks_holding(counts, m, 15);
    lemma_ranks_holding(counts, k, 15);
    let a = ranks_holding(counts, m, 15);
    let b = ranks_holding(counts, k, 15);
    assert forall|i: int, j: int| 0 <= i < a.len() && 0 <= j < b.len() implies a[i] != b[j] by {
        assert(a.contains(a[i]));
        assert(b.contains(b[j]));
    }
}

/// In valid counts no joker is held twice or more.
pub proof fn lemma_group_no_joker(counts: Seq<u8>, m: u8)
    requires
        valid_counts(counts),
        m >= 2,
    ensures
        no_joker(ranks_holding(counts, m, 15)),
{
    lemma_ranks_holding(counts, m, 15);
    let a = ranks_holding(counts, m, 15);
    assert forall|i: int| 0 <= i < a.len() implies !(#[trigger] a[i]).is_joker() by {
        assert(a.contains(a[i]));
        assert(counts[a[i].ord()] <= limit(a[i].ord()));
    }
}

/// Appends the rank at position `i` to a group whose ranks all stand below
/// it, and keeps the flag in step.
fn push_rank(group: &mut Group, i: u8)
    requires
        i < 15,
        old(group)@.valid(),
        forall|j: int| 0 <= j < old(group).ranks@.len() ==> (#[trigger] old(group).ranks@[j]).ord() < i,
    ensures
        final(group).ranks@ == old(group).ranks@.push(Rank::of_ord(i as int)),
        final(group)@.valid(),
{
    let ghost before = group.ranks@;
    if group.consecutive {
        if i >= 12 {
            group.consecutive = false;
        } else {
            let n = group.ranks.len();
            if n > 0 {
                let last = group.ranks[n - 1];
                if i - last.ordinal() != 1 {
                    group.consecutive = false;
                }
            }
        }
    }
    group.ranks.push(Rank::at(i));
    proof {
        let after = group.ranks@;
        let n = before.len() as int;
        assert(after[n].ord() == i);
        assert(forall|j: int| 0 <= j < n ==> after[j] == before[j]);
        if consecutive(after) {
            assert(after[n].chains());
            assert forall|j: int| 0 <= j < before.len() implies {
                &&& (#[trigger] before[j]).ord() == before[0].ord() + j
                &&& before[j].chains()
            } by {
                assert(after[j].ord() == after[0].ord() + j);
            }
        }
        if consecutive(before) && i < 12 && (n == 0 || i == before[n - 1].ord() + 1) {
            assert forall|j: int| 0 <= j < after.len() implies {
                &&& (#[trigger] after[j]).ord() == after[0].ord() + j
                &&& after[j].chains()
            } by {
                if j < n {
                    assert(before[j].ord() == before[0].ord() + j);
                } else if n > 0 {
                    assert(before[n - 1].ord() == before[0].ord() + (n - 1));
                }
            }
        }
        if n > 0 && consecutive(after) {
            assert(after[n - 1].ord() == after[0].ord() + (n - 1));
            assert(after[n].ord() == after[0].ord() + n);
        }
    }
}

impl Guard<Composition> {
    /// The play that the hand is, whatever its category, or `None` if the
    /// hand is no standard play.
    pub fn guess_play(&self) -> (play: Option<Guard<Play>>)
        ensures
            play_view(play) == self@@.guess_play(),
    {
        let play = self.to_solo();
        if play.is_some() {
            return play;
        }
        let play = self.to_chain();
        if play.is_some() {
            return play;
        }
        let play = self.to_pair();
        if play.is_some() {
            return play;
        }
        let play = self.to_pairs_chain();
        if play.is_some() {
            return play;
        }
        let play = self.to_trio();
        if play.is_some() {
            return play;
        }
        let play = self.to_airplane();
        if play.is_some() {
            return play;
        }
        let play = self.to_trio_with_solo();
        if play.is_some() {
            return play;
        }
        let play = self.to_airplane_with_solos();
        if play.is_some() {
            return play;
        }
        let play = self.to_trio_with_pair();
        if play.is_some() {
            return play;
        }
        let play = self.to_airplane_with_pairs();
        if play.is_some() {
            return play;
        }
        let play = self.to_bomb();
        if play.is_some() {
            return play;
        }
        let play = self.to_four_with_dual_solo();
        if play.is_some() {
            return play;
        }
        let play = self.to_four_with_dual_pair();
        if play.is_some() {
            return play;
        }
        self.to_rocket()
    }

    /// The play of category `kind` that the hand is, or `None` if the hand
    /// is no play of that category.
    pub fn to_play(&self, kind: PlayKind) -> (play: Option<Guard<Play>>)
        ensures
            play_view(play) == self@@.to_play(kind),
    {
        match kind {
            PlayKind::Solo => self.to_solo(),
            PlayKind::Chain => self.to_chain(),
            PlayKind::Pair => self.to_pair(),
            PlayKind::PairsChain => self.to_pairs_chain(),
            PlayKind::Trio => self.to_trio(),
            PlayKind::Airplane => self.to_airplane(),
            PlayKind::TrioWithSolo => self.to_trio_with_solo(),
            PlayKind::AirplaneWithSolos => self.to_airplane_with_solos(),
            PlayKind::TrioWithPair => self.to_trio_with_pair(),
            PlayKind::AirplaneWithPairs => self.to_airplane_with_pairs(),
            PlayKind::Bomb => self.to_bomb(),
            PlayKind::FourWithDualSolo => self.to_four_with_dual_solo(),
            PlayKind::FourWithDualPair => self.to_four_with_dual_pair(),
            PlayKind::Rocket => self.to_rocket(),
        }
    }

    /// A solo, if and only if the hand is one single card.
    pub fn to_solo(&self) -> (play: Option<Guard<Play>>)
        ensures
            play_view(play) == self@@.to_solo(),
    {
        let comp: &Composition = &*self;
        if comp.solos.ranks.len() == 1 && comp.pairs.ranks.len() == 0 && comp.trios.ranks.len()
            == 0 && comp.fours.ranks.len() == 0 {
            Some(Guard::new_unchecked(Play::Solo(comp.solos.ranks[0])))
        } else {
            None
        }
    }

    /// A chain, if and only if the hand is five or more consecutive single
    /// cards.
    pub fn to_chain(&self) -> (play: Option<Guard<Play>>)
        ensures
            play_view(play) == self@@.to_chain(),
    {
        let comp: &Composition = &*self;
        if comp.solos.ranks.len() >= 5 && comp.solos.consecutive && comp.pairs.ranks.len() == 0
            && comp.trios.ranks.len() == 0 && comp.fours.ranks.len() == 0 {
            Some(Guard::new_unchecked(Play::Chain(copy_ranks(&comp.solos.ranks))))
        } else {
            None
        }
    }

    /// A pair, if and only if the hand is two cards of one rank.
    pub fn to_pair(&self) -> (play: Option<Guard<Play>>)
        ensures
            play_view(play) == self@@.to_pair(),
    {
        let comp: &Composition = &*self;
        if comp.solos.ranks.len() == 0 && comp.pairs.ranks.len() == 1 && comp.trios.ranks.len()
            == 0 && comp.fours.ranks.len() == 0 {
            Some(Guard::new_unchecked(Play::Pair(comp.pairs.ranks[0])))
        } else {
            None
        }
    }

    /// A chain of pairs, if and only if the hand is three or more
    /// consecutive pairs.
    pub fn to_pairs_chain(&self) -> (play: Option<Guard<Play>>)
        ensures
            play_view(play) == self@@.to_pairs_chain(),
    {
        let comp: &Composition = &*self;
        if comp.solos.ranks.len() == 0 && comp.pairs.ranks.len() >= 3 && comp.pairs.consecutive
            && comp.trios.ranks.len() == 0 && comp.fours.ranks.len() == 0 {
            Some(Guard::new_unchecked(Play::PairsChain(copy_ranks(&comp.pairs.ranks))))
        } else {
            None
        }
    }

    /// A trio, if and only if the hand is three cards of one rank.
    pub fn to_trio(&self) -> (play: Option<Guard<Play>>)
        ensures
            play_view(play) == self@@.to_trio(),
    {
        let comp: &Composition = &*self;
        if comp.solos.ranks.len() == 0 && comp.pairs.ranks.len() == 0 && comp.trios.ranks.len()
            == 1 && comp.fours.ranks.len() == 0 {
            Some(Guard::new_unchecked(Play::Trio(comp.trios.ranks[0])))
        } else {
            None
        }
    }

    /// An airplane, if and only if the hand is two or more consecutive
    /// trios.
    pub fn to_airplane(&self) -> (play: Option<Guard<Play>>)
        ensures
            play_view(play) == self@@.to_airplane(),
    {
        let comp: &Composition = &*self;
        if comp.solos.ranks.len() == 0 && comp.pairs.ranks.len() == 0 && comp.trios.ranks.len()
            >= 2 && comp.trios.consecutive && comp.fours.ranks.len() == 0 {
            Some(Guard::new_unchecked(Play::Airplane(copy_ranks(&comp.trios.ranks))))
        } else {
            None
        }
    }

    /// A trio with a solo, if and only if the hand is one trio and one
    /// single card.
    pub fn to_trio_with_solo(&self) -> (play: Option<Guard<Play>>)
        ensures
            play_view(play) == self@@.to_trio_with_solo(),
    {
        let comp: &Composition = &*self;
        if comp.solos.ranks.len() == 1 && comp.pairs.ranks.len() == 0 && comp.trios.ranks.len()
            == 1 && comp.fours.ranks.len() == 0 {
            let trio = comp.trios.ranks[0];
            let solo = comp.solos.ranks[0];
            Some(Guard::new_unchecked(Play::TrioWithSolo { trio, solo }))
        } else {
            None
        }
    }

    /// An airplane with solos, if and only if the hand is two or more
    /// consecutive trios and as many single cards, and these are not the
    /// two jokers together.
    pub fn to_airplane_with_solos(&self) -> (play: Option<Guard<Play>>)
        ensures
            play_view(play) == self@@.to_airplane_with_solos(),
    {
        let comp: &Composition = &*self;
        let n = comp.solos.ranks.len();
        if n == comp.trios.ranks.len() && n >= 2 && !(comp.solos.ranks[n - 1].ordinal() == 14
            && comp.solos.ranks[n - 2].ordinal() == 13) && comp.pairs.ranks.len() == 0
            && comp.trios.consecutive && comp.fours.ranks.len() == 0 {
            let airplane = copy_ranks(&comp.trios.ranks);
            let solos = copy_ranks(&comp.solos.ranks);
            Some(Guard::new_unchecked(Play::AirplaneWithSolos { airplane, solos }))
        } else {
            None
        }
    }

    /// A trio with a pair, if and only if the hand is one trio and one
    /// pair.
    pub fn to_trio_with_pair(&self) -> (play: Option<Guard<Play>>)
        ensures
            play_view(play) == self@@.to_trio_with_pair(),
    {
        let comp: &Composition = &*self;
        if comp.solos.ranks.len() == 0 && comp.pairs.ranks.len() == 1 && comp.trios.ranks.len()
            == 1 && comp.fours.ranks.len() == 0 {
            let trio = comp.trios.ranks[0];
            let pair = comp.pairs.ranks[0];
            Some(Guard::new_unchecked(Play::TrioWithPair { trio, pair }))
        } else {
            None
        }
    }

    /// An airplane with pairs, if and only if the hand is two or more
    /// consecutive trios and as many pairs.
    pub fn to_airplane_with_pairs(&self) -> (play: Option<Guard<Play>>)
        ensures
            play_view(play) == self@@.to_airplane_with_pairs(),
    {
        let comp: &Composition = &*self;
        if comp.solos.ranks.len() == 0 && comp.pairs.ranks.len() == comp.trios.ranks.len()
            && comp.trios.ranks.len() >= 2 && comp.trios.consecutive && comp.fours.ranks.len()
            == 0 {
            let airplane = copy_ranks(&comp.trios.ranks);
            let pairs = copy_ranks(&comp.pairs.ranks);
            Some(Guard::new_unchecked(Play::AirplaneWithPairs { airplane, pairs }))
        } else {
            None
        }
    }

    /// A bomb, if and only if the hand is four cards of one rank.
    pub fn to_bomb(&self) -> (play: Option<Guard<Play>>)
        ensures
            play_view(play) == self@@.to_bomb(),
    {
        let comp: &Composition = &*self;
        if comp.solos.ranks.len() == 0 && comp.pairs.ranks.len() == 0 && comp.trios.ranks.len()
            == 0 && comp.fours.ranks.len() == 1 {
            Some(Guard::new_unchecked(Play::Bomb(comp.fours.ranks[0])))
        } else {
            None
        }
    }

    /// A four with two solos, if and only if the hand is four cards of one
    /// rank and two single cards, and these are not the two jokers.
    pub fn to_four_with_dual_solo(&self) -> (play: Option<Guard<Play>>)
        ensures
            play_view(play) == self@@.to_four_with_dual_solo(),
    {
        let comp: &Composition = &*self;
        if comp.solos.ranks.len() == 2 && comp.solos.ranks[0].ordinal() != 13
            && comp.pairs.ranks.len() == 0 && comp.trios.ranks.len() == 0
            && comp.fours.ranks.len() == 1 {
            let four = comp.fours.ranks[0];
            let dual_solo = [comp.solos.ranks[0], comp.solos.ranks[1]];
            assert(dual_solo@ =~= comp.solos.ranks@);
            proof {
                lemma_pair_of_ranks(comp.solos.ranks@, four);
            }
            Some(Guard::new_unchecked(Play::FourWithDualSolo { four, dual_solo }))
        } else {
            None
        }
    }

    /// A four with two pairs, if and only if the hand is four cards of one
    /// rank and two pairs.
    pub fn to_four_with_dual_pair(&self) -> (play: Option<Guard<Play>>)
        ensures
            play_view(play) == self@@.to_four_with_dual_pair(),
    {
        let comp: &Composition = &*self;
        if comp.solos.ranks.len() == 0 && comp.pairs.ranks.len() == 2 && comp.trios.ranks.len()
            == 0 && comp.fours.ranks.len() == 1 {
            let four = comp.fours.ranks[0];
            let dual_pair = [comp.pairs.ranks[0], comp.pairs.ranks[1]];
            assert(dual_pair@ =~= comp.pairs.ranks@);
            proof {
                lemma_pair_of_ranks(comp.pairs.ranks@, four);
            }
            Some(Guard::new_unchecked(Play::FourWithDualPair { four, dual_pair }))
        } else {
            None
        }
    }

    /// The rocket, if and only if the hand is the two jokers.
    pub fn to_rocket(&self) -> (play: Option<Guard<Play>>)
        ensures
            play_view(play) == self@@.to_rocket(),
    {
        let comp: &Composition = &*self;
        if comp.solos.ranks.len() == 2 && comp.solos.ranks[0].ordinal() == 13
            && comp.solos.ranks[1].ordinal() == 14 && comp.pairs.ranks.len() == 0
            && comp.trios.ranks.len() == 0 && comp.fours.ranks.len() == 0 {
            Some(Guard::new_unchecked(Play::Rocket))
        } else {
            None
        }
    }
}

/// A rank that differs from both ranks of a list of two is not in the list.
proof fn lemma_pair_of_ranks(ranks: Seq<Rank>, other: Rank)
    requires
        ranks.len() == 2,
        ranks[0] != other,
        ranks[1] != other,
    ensures
        !ranks.contains(other),
{
}

/// A way to take the structure of a value.
pub trait CompositionExt: Sealed + Sized {
    /// The composition that `composition` returns.
    spec fn composed(self) -> CompositionView;

    /// Groups the ranks by the number of cards held of each.
    fn composition(self) -> (comp: Guard<Composition>)
        ensures
            comp@@ == self.composed(),
    ;
}

impl CompositionExt for Hand {
    open spec fn composed(self) -> CompositionView {
        composition_of(self@)
    }

    fn composition(self) -> (comp: Guard<Composition>) {
        let counts = self.to_array();
        let mut solos = Group { ranks: Vec::new(), consecutive: true };
        let mut pairs = Group { ranks: Vec::new(), consecutive: true };
        let mut trios = Group { ranks: Vec::new(), consecutive: true };
        let mut fours = Group { ranks: Vec::new(), consecutive: true };
        let mut i: u8 = 0;
        while i < 15
            invariant
                0 <= i <= 15,
                valid_counts(counts@),
                solos@ == group_of(counts@, 1, i as int),
                pairs@ == group_of(counts@, 2, i as int),
                trios@ == group_of(counts@, 3, i as int),
                fours@ == group_of(counts@, 4, i as int),
            decreases 15 - i,
        {
            proof {
                lemma_ranks_holding(counts@, 1, i as int);
                lemma_ranks_holding(counts@, 2, i as int);
                lemma_ranks_holding(counts@, 3, i as int);
                lemma_ranks_holding(counts@, 4, i as int);
            }
            let n = counts[i as usize];
            if n == 1 {
                push_rank(&mut solos, i);
            } else if n == 2 {
                push_rank(&mut pairs, i);
            } else if n == 3 {
                push_rank(&mut trios, i);
            } else if n == 4 {
                push_rank(&mut fours, i);
            }
            i += 1;
        }
        let comp = Composition { solos, pairs, trios, fours };
        proof {
            lemma_composition_valid(counts@);
            assert(comp@ == composition_of(counts@));
        }
        Guard::new_unchecked(comp)
    }
}

} // verus!
