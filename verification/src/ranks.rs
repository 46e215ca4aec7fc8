//! Properties of sequences of ranks.

use crate::rank::Rank;
use vstd::prelude::*;

verus! {

/// Whether the ranks stand in strictly ascending order of strength.
pub open spec fn ascending(ranks: Seq<Rank>) -> bool {
    forall|i: int, j: int| 0 <= i < j < ranks.len() ==> ranks[i].ord() < ranks[j].ord()
}

/// Whether the ranks form a run: each one step above the one before it,
/// and none of them `Two` or a joker.
pub open spec fn consecutive(ranks: Seq<Rank>) -> bool {
    forall|i: int|
        0 <= i < ranks.len() ==> {
            &&& (#[trigger] ranks[i]).ord() == ranks[0].ord() + i
            &&& ranks[i].chains()
        }
}

/// Whether no rank occurs in both sequences.
pub open spec fn disjoint(a: Seq<Rank>, b: Seq<Rank>) -> bool {
    forall|i: int, j: int| 0 <= i < a.len() && 0 <= j < b.len() ==> a[i] != b[j]
}

/// Whether the two strongest of the ascending `ranks` are the two jokers,
/// which together are a rocket.
pub open spec fn conceals_rocket(ranks: Seq<Rank>) -> bool {
    &&& ranks.len() >= 2
    &&& ranks[ranks.len() - 1] == Rank::RedJoker
    &&& ranks[ranks.len() - 2] == Rank::BlackJoker
}

/// Whether none of the ranks is a joker.
pub open spec fn no_joker(ranks: Seq<Rank>) -> bool {
    forall|i: int| 0 <= i < ranks.len() ==> !(#[trigger] ranks[i]).is_joker()
}

/// The `len` ranks that start at position `start` of the strength order.
pub open spec fn window(start: int, len: int) -> Seq<Rank> {
    Seq::new(len as nat, |i: int| Rank::of_ord(start + i))
}

/// A run is in ascending order and holds no joker.
pub proof fn lemma_consecutive_ascending(ranks: Seq<Rank>)
    requires
        consecutive(ranks),
    ensures
        ascending(ranks),
        no_joker(ranks),
{
}

/// Two ascending sequences that hold the same ranks are equal.
pub proof fn lemma_ascending_unique(a: Seq<Rank>, b: Seq<Rank>)
    requires
        ascending(a),
        ascending(b),
        forall|r: Rank| a.contains(r) <==> b.contains(r),
    ensures
        a == b,
    decreases a.len(),
{
    if a.len() == 0 {
        if b.len() > 0 {
            assert(b.contains(b[0]));
        }
        assert(a =~= b);
    } else {
        let last = a.last();
        assert(a.contains(last));
        assert(b.contains(last));
        if b.len() == 0 {
            assert(false);
        }
        // The strongest rank of either sequence stands last in both.
        let k = choose|k: int| 0 <= k < b.len() && b[k] == last;
        if k < b.len() - 1 {
            assert(b.contains(b.last()));
            let j = choose|j: int| 0 <= j < a.len() && a[j] == b.last();
            assert(a[j].ord() <= last.ord());
            assert(b[k].ord() < b.last().ord());
            assert(false);
        }
        let a0 = a.drop_last();
        let b0 = b.drop_last();
        assert forall|r: Rank| a0.contains(r) <==> b0.contains(r) by {
            if a0.contains(r) {
                let i = choose|i: int| 0 <= i < a0.len() && a0[i] == r;
                assert(a[i] == r);
                assert(a.contains(r));
                assert(r.ord() < last.ord());
                let j = choose|j: int| 0 <= j < b.len() && b[j] == r;
                assert(j < b.len() - 1);
                assert(b0[j] == r);
            }
            if b0.contains(r) {
                let i = choose|i: int| 0 <= i < b0.len() && b0[i] == r;
                assert(b[i] == r);
                assert(b.contains(r));
                assert(r.ord() < last.ord());
                let j = choose|j: int| 0 <= j < a.len() && a[j] == r;
                assert(j < a.len() - 1);
                assert(a0[j] == r);
            }
        }
        lemma_ascending_unique(a0, b0);
        assert(a =~= a0.push(last));
        assert(b =~= b0.push(last));
    }
}

/// A window holds the ranks from `start` on in ascending order, and is a
/// run if it ends below `Two`.
pub proof fn lemma_window(start: int, len: int)
    requires
        0 <= start,
        0 <= len,
        start + len <= 15,
    ensures
        window(start, len).len() == len,
        ascending(window(start, len)),
        forall|i: int| 0 <= i < len ==> (#[trigger] window(start, len)[i]).ord() == start + i,
        forall|r: Rank|
            window(start, len).contains(r) <==> start <= r.ord() < start + len,
        start + len <= 12 ==> consecutive(window(start, len)),
{
    let w = window(start, len);
    assert forall|r: Rank| w.contains(r) <==> start <= r.ord() < start + len by {
        if start <= r.ord() < start + len {
            assert(w[r.ord() - start] == r);
        }
    }
}

} // verus!
