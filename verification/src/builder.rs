//! Building a hand from a list of ranks and counts, as the literal forms of
//! a hand do: each rank at most once, each count within what a deck holds.

use crate::hand::{limit, Hand};
use crate::rank::{lemma_of_ord_round_trip, lemma_ord_round_trip, Rank};
use vstd::prelude::*;

verus! {

/// The messages for what can be wrong with one entry of a list.
pub struct SpecTexts {
    pub more_than_four_error: &'static str,
    pub duplicate_error: &'static str,
}

/// One entry of a list of ranks and counts.
pub struct Spec {
    pub rank: Rank,
    pub count: u8,
    pub texts: SpecTexts,
}

/// The message for what can be wrong with one entry of a list of ranks.
pub struct PartialSpecTexts {
    pub duplicate_error: &'static str,
}

/// One entry of a list of ranks.
pub struct PartialSpec {
    pub rank: Rank,
    pub texts: PartialSpecTexts,
}

/// Whether one of the first `i` entries is the rank `rank`.
pub open spec fn named(ranks: Seq<Rank>, i: int, rank: Rank) -> bool {
    exists|j: int| 0 <= j < i && #[trigger] ranks[j] == rank
}

/// Whether the rank of entry `i` stands in an earlier entry too.
pub open spec fn repeated(ranks: Seq<Rank>, i: int) -> bool {
    named(ranks, i, ranks[i])
}

/// The ranks of the entries of a list.
pub open spec fn spec_ranks(specs: Seq<Spec>) -> Seq<Rank> {
    specs.map_values(|spec: Spec| spec.rank)
}

/// The ranks of the entries of a list of ranks.
pub open spec fn partial_ranks(specs: Seq<PartialSpec>) -> Seq<Rank> {
    specs.map_values(|spec: PartialSpec| spec.rank)
}

/// The message for what is wrong with entry `i`, if anything is: first a
/// rank given before, then more than one joker, then more than four cards.
pub open spec fn fault(specs: Seq<Spec>, i: int) -> Option<Seq<char>> {
    let spec = specs[i];
    if repeated(spec_ranks(specs), i) {
        Some(spec.texts.duplicate_error@)
    } else if spec.count > 1 && spec.rank == Rank::BlackJoker {
        Some("more than one `BlackJoker` is specified"@)
    } else if spec.count > 1 && spec.rank == Rank::RedJoker {
        Some("more than one `RedJoker` is specified"@)
    } else if spec.count > 4 {
        Some(spec.texts.more_than_four_error@)
    } else {
        None
    }
}

/// Whether nothing is wrong with any entry of the list.
pub open spec fn faultless(specs: Seq<Spec>) -> bool {
    forall|i: int| 0 <= i < specs.len() ==> fault(specs, i) is None
}

/// Whether entry `i` is the first with which something is wrong.
pub open spec fn first_fault(specs: Seq<Spec>, i: int) -> bool {
    &&& 0 <= i < specs.len()
    &&& fault(specs, i) is Some
    &&& forall|j: int| 0 <= j < i ==> fault(specs, j) is None
}

/// Whether entry `i` of a list of ranks is the first to repeat a rank.
pub open spec fn first_repeat(ranks: Seq<Rank>, i: int) -> bool {
    &&& 0 <= i < ranks.len()
    &&& repeated(ranks, i)
    &&& forall|j: int| 0 <= j < i ==> !repeated(ranks, j)
}

/// Whether `counts` holds for each entry of the list the count that the
/// entry gives to its rank, and no card of a rank without an entry.
pub open spec fn holds_specs(counts: Seq<u8>, specs: Seq<Spec>) -> bool {
    &&& counts.len() == 15
    &&& forall|j: int|
        0 <= j < specs.len() ==> counts[(#[trigger] specs[j]).rank.ord()] == specs[j].count
    &&& forall|i: int|
        0 <= i < 15 && !spec_ranks(specs).contains(Rank::of_ord(i)) ==> #[trigger] counts[i] == 0
}

/// Whether `seen` marks exactly the ranks that the first `i` entries name.
pub open spec fn tracks(seen: Seq<bool>, ranks: Seq<Rank>, i: int) -> bool {
    &&& seen.len() == 15
    &&& forall|p: int| 0 <= p < 15 ==> (#[trigger] seen[p] <==> named(ranks, i, Rank::of_ord(p)))
}

/// One entry more names the ranks named before and its own.
pub proof fn lemma_named_next(ranks: Seq<Rank>, i: int, rank: Rank)
    requires
        0 <= i < ranks.len(),
    ensures
        named(ranks, i + 1, rank) <==> (named(ranks, i, rank) || ranks[i] == rank),
{
    if named(ranks, i, rank) {
        let j = choose|j: int| 0 <= j < i && #[trigger] ranks[j] == rank;
        assert(0 <= j < i + 1 && ranks[j] == rank);
    }
    if ranks[i] == rank {
        assert(0 <= i < i + 1 && ranks[i] == rank);
    }
    if named(ranks, i + 1, rank) {
        let j = choose|j: int| 0 <= j < i + 1 && #[trigger] ranks[j] == rank;
        if j < i {
            assert(named(ranks, i, rank));
        }
    }
}

/// The ranks that a whole list names are the ranks that it holds.
pub proof fn lemma_named_all(ranks: Seq<Rank>, rank: Rank)
    ensures
        named(ranks, ranks.len() as int, rank) <==> ranks.contains(rank),
{
    if named(ranks, ranks.len() as int, rank) {
        let j = choose|j: int| 0 <= j < ranks.len() && #[trigger] ranks[j] == rank;
        assert(ranks[j] == rank);
    }
    if ranks.contains(rank) {
        let j = choose|j: int| 0 <= j < ranks.len() && ranks[j] == rank;
        assert(0 <= j < ranks.len() && ranks[j] == rank);
    }
}

/// Marks the rank of entry `i` as seen, and says whether an earlier entry
/// named it already.
fn note(
    seen: &mut [bool; 15],
    rank: Rank,
    Ghost(ranks): Ghost<Seq<Rank>>,
    Ghost(i): Ghost<int>,
) -> (again: bool)
    requires
        0 <= i < ranks.len(),
        ranks[i] == rank,
        tracks(old(seen)@, ranks, i),
    ensures
        again == repeated(ranks, i),
        tracks(final(seen)@, ranks, i + 1),
{
    let p = rank.ordinal() as usize;
    let again = seen[p];
    let ghost before = seen@;
    seen[p] = true;
    proof {
        lemma_ord_round_trip(rank);
        assert(before[p as int] <==> named(ranks, i, Rank::of_ord(p as int)));
        assert forall|q: int| 0 <= q < 15 implies (#[trigger] seen@[q] <==> named(
            ranks,
            i + 1,
            Rank::of_ord(q),
        )) by {
            lemma_of_ord_round_trip(q);
            lemma_named_next(ranks, i, Rank::of_ord(q));
            assert(before[q] <==> named(ranks, i, Rank::of_ord(q)));
        }
    }
    again
}

/// A list in which no rank is seen yet.
fn none_seen() -> (seen: [bool; 15])
    ensures
        forall|ranks: Seq<Rank>| tracks(seen@, ranks, 0),
{
    [
        false,
        false,
        false,
        false,
        false,
        false,
        false,
        false,
        false,
        false,
        false,
        false,
        false,
        false,
        false,
    ]
}

/// Nothing if the list names each rank once and gives each a count that a
/// deck holds, else the message for the first entry with which something is
/// wrong.
pub fn check_specs<const N: usize>(specs: &[Spec; N]) -> (r: Result<(), &'static str>)
    ensures
        r is Ok ==> faultless(specs@),
        r matches Err(message) ==> exists|i: int|
            first_fault(specs@, i) && fault(specs@, i) == Some(message@),
{
    let mut seen = none_seen();
    let ghost ranks = spec_ranks(specs@);
    let mut i: usize = 0;
    while i < N
        invariant
            0 <= i <= N,
            specs@.len() == N,
            ranks == spec_ranks(specs@),
            tracks(seen@, ranks, i as int),
            forall|j: int| 0 <= j < i ==> fault(specs@, j) is None,
        decreases N - i,
    {
        let rank = specs[i].rank;
        let count = specs[i].count;
        assert(ranks[i as int] == rank);
        if note(&mut seen, rank, Ghost(ranks), Ghost(i as int)) {
            assert(first_fault(specs@, i as int));
            return Err(specs[i].texts.duplicate_error);
        }
        if count > 1 {
            match rank {
                Rank::BlackJoker => {
                    assert(first_fault(specs@, i as int));
                    return Err("more than one `BlackJoker` is specified");
                },
                Rank::RedJoker => {
                    assert(first_fault(specs@, i as int));
                    return Err("more than one `RedJoker` is specified");
                },
                _ => {},
            }
        }
        if count > 4 {
            assert(first_fault(specs@, i as int));
            return Err(specs[i].texts.more_than_four_error);
        }
        i += 1;
    }
    Ok(())
}

/// The hand with the cards that the list gives: for each entry the count
/// that it gives to its rank, and no card of any other rank. The list must
/// be without fault, as `check_specs` tells.
pub fn from_specs<const N: usize>(specs: [Spec; N]) -> (hand: Hand)
    requires
        faultless(specs@),
    ensures
        holds_specs(hand@, specs@),
{
    let mut counts: [u8; 15] = [0, 0, 0, 0, 0, 0, 0, 0, 0, 0, 0, 0, 0, 0, 0];
    let ghost ranks = spec_ranks(specs@);
    let mut i: usize = 0;
    while i < N
        invariant
            0 <= i <= N,
            specs@.len() == N,
            ranks == spec_ranks(specs@),
            faultless(specs@),
            forall|j: int| 0 <= j < i ==> counts@[(#[trigger] specs@[j]).rank.ord()] == specs@[j].count,
            forall|p: int|
                0 <= p < 15 && !named(ranks, i as int, Rank::of_ord(p)) ==> #[trigger] counts@[p]
                    == 0,
            forall|p: int| 0 <= p < 15 ==> #[trigger] counts@[p] <= limit(p),
        decreases N - i,
    {
        let rank = specs[i].rank;
        let count = specs[i].count;
        let ghost before = counts@;
        counts[rank.ordinal() as usize] = count;
        proof {
            let p = rank.ord();
            lemma_ord_round_trip(rank);
            assert(ranks[i as int] == rank);
            assert(fault(specs@, i as int) is None);
            assert forall|j: int| 0 <= j < i + 1 implies counts@[(#[trigger] specs@[j]).rank.ord()]
                == specs@[j].count by {
                if j < i {
                    lemma_ord_round_trip(specs@[j].rank);
                    if specs@[j].rank.ord() == p {
                        assert(ranks[j] == ranks[i as int]);
                        assert(repeated(ranks, i as int));
                    }
                    assert(before[specs@[j].rank.ord()] == specs@[j].count);
                }
            }
            assert forall|q: int|
                0 <= q < 15 && !named(ranks, i + 1, Rank::of_ord(q)) implies #[trigger] counts@[q]
                == 0 by {
                lemma_of_ord_round_trip(q);
                lemma_named_next(ranks, i as int, Rank::of_ord(q));
            }
        }
        i += 1;
    }
    proof {
        assert forall|q: int|
            0 <= q < 15 && !ranks.contains(Rank::of_ord(q)) implies #[trigger] counts@[q] == 0 by {
            lemma_named_all(ranks, Rank::of_ord(q));
        }
    }
    Hand::from_counts(counts)
}

/// Nothing if each rank of the list stands in it once, else the message of
/// the first entry that repeats a rank.
pub fn check_partial_specs<const N: usize>(specs: [PartialSpec; N]) -> (r: Result<
    (),
    &'static str,
>)
    ensures
        r is Ok ==> forall|i: int| 0 <= i < N ==> !repeated(partial_ranks(specs@), i),
        r matches Err(message) ==> exists|i: int|
            first_repeat(partial_ranks(specs@), i) && (#[trigger] specs@[i]).texts.duplicate_error@
                == message@,
{
    let mut seen = none_seen();
    let ghost ranks = partial_ranks(specs@);
    let mut i: usize = 0;
    while i < N
        invariant
            0 <= i <= N,
            specs@.len() == N,
            ranks == partial_ranks(specs@),
            tracks(seen@, ranks, i as int),
            forall|j: int| 0 <= j < i ==> !repeated(ranks, j),
        decreases N - i,
    {
        let rank = specs[i].rank;
        assert(ranks[i as int] == rank);
        if note(&mut seen, rank, Ghost(ranks), Ghost(i as int)) {
            assert(first_repeat(ranks, i as int));
            return Err(specs[i].texts.duplicate_error);
        }
        i += 1;
    }
    Ok(())
}

} // verus!
