//! How many plays a search finds: no play comes twice, and a hand holds at
//! least the plays that a part of it holds.

use crate::engine::ops::holds_all;
use crate::engine::search::{
    combinations, first_length, joker_sets, kicker_jokers, kicker_pool, kicker_rank, kicker_sets,
    last_length, lemma_combinations, lemma_kicker_ranks, lemma_kicker_sets, lemma_length_plays,
    lemma_plays_in, lemma_plays_in_complete, lemma_pool_set, length_plays, plays_in, primal_rank,
    primal_window, shaped, standard_kicker_size, standard_primal_count, standard_primal_size,
    window_plays,
};
use crate::engine::standard::{
    kind_plays, lemma_shaped_groups, lemma_standard_play_classifies, standard_kicker_counts,
    standard_plays,
};
use crate::hand::{limit, valid_counts};
use crate::laws::{lemma_play_holds_the_hand, lemma_searched_valid};
use crate::play::PlayKind;
use crate::rank::{lemma_ord_round_trip, Rank};
use crate::ranks::{ascending, lemma_window, window};
use vstd::prelude::*;
use vstd::set_lib::lemma_len_subset;

verus! {

/// Whether the main part and the kickers of a shape can be told apart in
/// a play: the main part holds at least one card of each rank, and kickers,
/// where there are any, hold another number of cards, at least one each.
pub open spec fn told_apart(primal_size: u8, kicker_size: u8, k: nat) -> bool {
    &&& primal_size >= 1
    &&& k > 0 ==> kicker_size >= 1 && kicker_size != primal_size
}

/// The tail of an ascending list ascends.
proof fn lemma_tail_ascending(pool: Seq<Rank>)
    requires
        ascending(pool),
        pool.len() > 0,
    ensures
        ascending(pool.drop_first()),
{
    let tail = pool.drop_first();
    assert forall|a: int, b: int| 0 <= a < b < tail.len() implies tail[a].ord() < tail[b].ord() by {
        assert(pool[a + 1].ord() < pool[b + 1].ord());
    }
}

/// No two of the ways to pick `k` ranks of an ascending pool are the same.
pub proof fn lemma_combinations_distinct(pool: Seq<Rank>, k: nat, i: int, j: int)
    requires
        ascending(pool),
        0 <= i < j < combinations(pool, k).len(),
    ensures
        combinations(pool, k)[i] != combinations(pool, k)[j],
    decreases pool.len(),
{
    if k > 0 && pool.len() > 0 {
        let tail = pool.drop_first();
        let fewer = combinations(tail, (k - 1) as nat);
        let with = fewer.map_values(|rest: Seq<Rank>| seq![pool[0]] + rest);
        let without = combinations(tail, k);
        let all = combinations(pool, k);
        lemma_tail_ascending(pool);
        if j < with.len() {
            lemma_combinations_distinct(tail, (k - 1) as nat, i, j);
            assert(all[i] == seq![pool[0]] + fewer[i]);
            assert(all[j] == seq![pool[0]] + fewer[j]);
            assert((seq![pool[0]] + fewer[i]).drop_first() =~= fewer[i]);
            assert((seq![pool[0]] + fewer[j]).drop_first() =~= fewer[j]);
        } else if i >= with.len() {
            lemma_combinations_distinct(tail, k, i - with.len(), j - with.len());
            assert(all[i] == without[i - with.len()]);
            assert(all[j] == without[j - with.len()]);
        } else {
            let c = without[j - with.len()];
            lemma_combinations(tail, k, j - with.len());
            assert(all[i] == seq![pool[0]] + fewer[i]);
            assert(all[j] == c);
            assert(tail.contains(c[0]));
            let t = choose|t: int| 0 <= t < tail.len() && tail[t] == c[0];
            assert(pool[0].ord() < pool[t + 1].ord());
            assert(all[i][0] == pool[0]);
        }
    }
}

/// Each set with one of the first `n` jokers is a way to pick `k - 1` ranks
/// of the pool with one of these jokers added.
proof fn lemma_joker_sets_made(pool: Seq<Rank>, jokers: Seq<Rank>, k: nat, n: int, i: int) -> (at:
    (int, int))
    requires
        k >= 1,
        0 <= n <= jokers.len(),
        0 <= i < joker_sets(pool, jokers, k, n).len(),
    ensures
        0 <= at.0 < n,
        0 <= at.1 < combinations(pool, (k - 1) as nat).len(),
        joker_sets(pool, jokers, k, n)[i] == combinations(pool, (k - 1) as nat)[at.1].push(
            jokers[at.0],
        ),
    decreases n,
{
    let before = joker_sets(pool, jokers, k, n - 1);
    if i < before.len() {
        lemma_joker_sets_made(pool, jokers, k, n - 1, i)
    } else {
        (n - 1, i - before.len())
    }
}

/// No two of the sets with a joker are the same.
proof fn lemma_joker_sets_distinct(
    pool: Seq<Rank>,
    jokers: Seq<Rank>,
    k: nat,
    n: int,
    i: int,
    j: int,
)
    requires
        k >= 1,
        ascending(pool),
        ascending(jokers),
        0 <= n <= jokers.len(),
        0 <= i < j < joker_sets(pool, jokers, k, n).len(),
    ensures
        joker_sets(pool, jokers, k, n)[i] != joker_sets(pool, jokers, k, n)[j],
    decreases n,
{
    let all = joker_sets(pool, jokers, k, n);
    let before = joker_sets(pool, jokers, k, n - 1);
    let fewer = combinations(pool, (k - 1) as nat);
    if j < before.len() {
        lemma_joker_sets_distinct(pool, jokers, k, n - 1, i, j);
    } else if i >= before.len() {
        let a = i - before.len();
        let b = j - before.len();
        lemma_combinations_distinct(pool, (k - 1) as nat, a, b);
        assert(all[i] == fewer[a].push(jokers[n - 1]));
        assert(all[j] == fewer[b].push(jokers[n - 1]));
        assert(fewer[a].push(jokers[n - 1]).drop_last() =~= fewer[a]);
        assert(fewer[b].push(jokers[n - 1]).drop_last() =~= fewer[b]);
    } else {
        let at = lemma_joker_sets_made(pool, jokers, k, n - 1, i);
        let b = j - before.len();
        lemma_combinations(pool, (k - 1) as nat, at.1);
        lemma_combinations(pool, (k - 1) as nat, b);
        assert(all[i] == fewer[at.1].push(jokers[at.0]));
        assert(all[j] == fewer[b].push(jokers[n - 1]));
        assert(all[i][k - 1] == jokers[at.0]);
        assert(all[j][k - 1] == jokers[n - 1]);
        assert(jokers[at.0].ord() < jokers[n - 1].ord());
    }
}

/// No two of the sets of kickers that a search tries are the same.
pub proof fn lemma_kicker_sets_distinct(
    hand: Seq<u8>,
    size: u8,
    start: int,
    len: int,
    k: nat,
    i: int,
    j: int,
)
    requires
        0 <= i < j < kicker_sets(
            kicker_pool(hand, size, start, len),
            kicker_jokers(hand, size, start, len),
            k,
        ).len(),
    ensures
        kicker_sets(
            kicker_pool(hand, size, start, len),
            kicker_jokers(hand, size, start, len),
            k,
        )[i] != kicker_sets(
            kicker_pool(hand, size, start, len),
            kicker_jokers(hand, size, start, len),
            k,
        )[j],
{
    let pool = kicker_pool(hand, size, start, len);
    let jokers = kicker_jokers(hand, size, start, len);
    let all = kicker_sets(pool, jokers, k);
    let plain = combinations(pool, k);
    lemma_kicker_ranks(hand, size, start, len, 0, 13);
    lemma_kicker_ranks(hand, size, start, len, 13, 15);
    if k > 0 {
        if j < plain.len() {
            lemma_combinations_distinct(pool, k, i, j);
        } else if i >= plain.len() {
            lemma_joker_sets_distinct(
                pool,
                jokers,
                k,
                jokers.len() as int,
                i - plain.len(),
                j - plain.len(),
            );
        } else {
            lemma_pool_set(hand, size, start, len, k, i);
            let at = lemma_joker_sets_made(pool, jokers, k, jokers.len() as int, j - plain.len());
            lemma_combinations(pool, (k - 1) as nat, at.1);
            let rest = combinations(pool, (k - 1) as nat)[at.1];
            assert(all[j] == rest.push(jokers[at.0]));
            assert(all[j][k - 1] == jokers[at.0]);
            assert(jokers[at.0].ord() >= 13);
            assert(!all[i][k - 1].is_joker());
        }
    }
}

/// A play tells its main part and its kickers: two ways to make one play of
/// a window and a set of kickers have the same window, and the same kickers
/// where there are any.
pub proof fn lemma_shaped_once(
    hand: Seq<u8>,
    primal_size: u8,
    kicker_size: u8,
    len: int,
    k: nat,
    start: int,
    set: Seq<Rank>,
    other_len: int,
    other_k: nat,
    other_start: int,
    other_set: Seq<Rank>,
    play: Seq<u8>,
)
    requires
        shaped(hand, primal_size, kicker_size, len, k, start, set, play),
        shaped(hand, primal_size, kicker_size, other_len, other_k, other_start, other_set, play),
        told_apart(primal_size, kicker_size, k),
        told_apart(primal_size, kicker_size, other_k),
    ensures
        len == other_len,
        start == other_start,
        k > 0 && other_k > 0 ==> set == other_set,
{
    lemma_shaped_groups(hand, primal_size, kicker_size, len, k, start, set, play, primal_size);
    lemma_shaped_groups(
        hand,
        primal_size,
        kicker_size,
        other_len,
        other_k,
        other_start,
        other_set,
        play,
        primal_size,
    );
    lemma_window(start, len);
    lemma_window(other_start, other_len);
    assert(window(start, len) == window(other_start, other_len));
    assert(window(start, len)[0].ord() == start);
    assert(window(other_start, other_len)[0].ord() == other_start);
    if k > 0 && other_k > 0 {
        lemma_shaped_groups(hand, primal_size, kicker_size, len, k, start, set, play, kicker_size);
        lemma_shaped_groups(
            hand,
            primal_size,
            kicker_size,
            other_len,
            other_k,
            other_start,
            other_set,
            play,
            kicker_size,
        );
    }
}

/// No two of the plays with one main part are the same.
pub proof fn lemma_window_plays_distinct(
    hand: Seq<u8>,
    primal_size: u8,
    kicker_size: u8,
    start: int,
    len: int,
    k: nat,
    i: int,
    j: int,
)
    requires
        told_apart(primal_size, kicker_size, k),
        primal_window(hand, primal_size, start, len),
        0 <= i < j < window_plays(hand, primal_size, kicker_size, start, len, k).len(),
    ensures
        window_plays(hand, primal_size, kicker_size, start, len, k)[i] != window_plays(
            hand,
            primal_size,
            kicker_size,
            start,
            len,
            k,
        )[j],
{
    let sets = kicker_sets(
        kicker_pool(hand, kicker_size, start, len),
        kicker_jokers(hand, kicker_size, start, len),
        k,
    );
    let plays = window_plays(hand, primal_size, kicker_size, start, len, k);
    lemma_kicker_sets(hand, kicker_size, start, len, k, i);
    lemma_kicker_sets(hand, kicker_size, start, len, k, j);
    lemma_kicker_sets_distinct(hand, kicker_size, start, len, k, i, j);
    if plays[i] == plays[j] {
        assert(shaped(hand, primal_size, kicker_size, len, k, start, sets[i], plays[i]));
        assert(shaped(hand, primal_size, kicker_size, len, k, start, sets[j], plays[i]));
        lemma_shaped_once(
            hand,
            primal_size,
            kicker_size,
            len,
            k,
            start,
            sets[i],
            len,
            k,
            start,
            sets[j],
            plays[i],
        );
    }
}

/// No two of the plays with a main part of `len` ranks are the same.
pub proof fn lemma_length_plays_distinct(
    hand: Seq<u8>,
    primal_size: u8,
    kicker_size: u8,
    len: int,
    k: nat,
    n: int,
    i: int,
    j: int,
)
    requires
        told_apart(primal_size, kicker_size, k),
        0 <= i < j < length_plays(hand, primal_size, kicker_size, len, k, n).len(),
    ensures
        length_plays(hand, primal_size, kicker_size, len, k, n)[i] != length_plays(
            hand,
            primal_size,
            kicker_size,
            len,
            k,
            n,
        )[j],
    decreases n,
{
    let all = length_plays(hand, primal_size, kicker_size, len, k, n);
    let before = length_plays(hand, primal_size, kicker_size, len, k, n - 1);
    if j < before.len() {
        lemma_length_plays_distinct(hand, primal_size, kicker_size, len, k, n - 1, i, j);
    } else if i >= before.len() {
        lemma_window_plays_distinct(
            hand,
            primal_size,
            kicker_size,
            n - 1,
            len,
            k,
            i - before.len(),
            j - before.len(),
        );
    } else {
        let last = n - 1;
        lemma_length_plays(hand, primal_size, kicker_size, len, k, last, i);
        let (start, set) = choose|start: int, set: Seq<Rank>|
            start < last && shaped(hand, primal_size, kicker_size, len, k, start, set, before[i]);
        let sets = kicker_sets(
            kicker_pool(hand, kicker_size, last, len),
            kicker_jokers(hand, kicker_size, last, len),
            k,
        );
        let b = j - before.len();
        lemma_kicker_sets(hand, kicker_size, last, len, k, b);
        assert(shaped(hand, primal_size, kicker_size, len, k, last, sets[b], all[j]));
        if all[i] == all[j] {
            lemma_shaped_once(
                hand,
                primal_size,
                kicker_size,
                len,
                k,
                start,
                set,
                len,
                k,
                last,
                sets[b],
                all[i],
            );
        }
    }
}

/// A search finds no play twice, where the main part and the kickers of
/// its shape can be told apart.
pub proof fn lemma_plays_in_distinct(
    hand: Seq<u8>,
    primal_size: u8,
    kicker_size: u8,
    first: int,
    n: int,
    kickers: Seq<u8>,
    i: int,
    j: int,
)
    requires
        forall|len: int|
            first <= len < n ==> told_apart(primal_size, kicker_size, #[trigger] kickers[len] as nat),
        0 <= i < j < plays_in(hand, primal_size, kicker_size, first, n, kickers).len(),
    ensures
        plays_in(hand, primal_size, kicker_size, first, n, kickers)[i] != plays_in(
            hand,
            primal_size,
            kicker_size,
            first,
            n,
            kickers,
        )[j],
    decreases n - first,
{
    let all = plays_in(hand, primal_size, kicker_size, first, n, kickers);
    let before = plays_in(hand, primal_size, kicker_size, first, n - 1, kickers);
    let last = n - 1;
    let k = kickers[last] as nat;
    if j < before.len() {
        lemma_plays_in_distinct(hand, primal_size, kicker_size, first, n - 1, kickers, i, j);
    } else if i >= before.len() {
        lemma_length_plays_distinct(
            hand,
            primal_size,
            kicker_size,
            last,
            k,
            15,
            i - before.len(),
            j - before.len(),
        );
    } else {
        lemma_plays_in(hand, primal_size, kicker_size, first, last, kickers, i);
        let (len, start, set) = choose|len: int, start: int, set: Seq<Rank>|
            {
                &&& first <= len < last
                &&& kickers[len] + len <= 15
                &&& shaped(
                    hand,
                    primal_size,
                    kicker_size,
                    len,
                    kickers[len] as nat,
                    start,
                    set,
                    before[i],
                )
            };
        lemma_length_plays(hand, primal_size, kicker_size, last, k, 15, j - before.len());
        let (other_start, other_set) = choose|other_start: int, other_set: Seq<Rank>|
            other_start < 15 && shaped(
                hand,
                primal_size,
                kicker_size,
                last,
                k,
                other_start,
                other_set,
                all[j],
            );
        if all[i] == all[j] {
            lemma_shaped_once(
                hand,
                primal_size,
                kicker_size,
                len,
                kickers[len] as nat,
                start,
                set,
                last,
                k,
                other_start,
                other_set,
                all[i],
            );
        }
    }
}

/// A play that is made of a window and a set of kickers of a hand is made
/// of them in every hand that holds the cards of that hand.
pub proof fn lemma_shaped_in_larger(
    small: Seq<u8>,
    large: Seq<u8>,
    primal_size: u8,
    kicker_size: u8,
    len: int,
    k: nat,
    start: int,
    set: Seq<Rank>,
    play: Seq<u8>,
)
    requires
        holds_all(large, small),
        shaped(small, primal_size, kicker_size, len, k, start, set, play),
    ensures
        shaped(large, primal_size, kicker_size, len, k, start, set, play),
{
    assert forall|i: int| start <= i < start + len implies primal_rank(
        large,
        primal_size,
        len,
        i,
    ) by {
        assert(primal_rank(small, primal_size, len, i));
        assert(small[i] <= large[i]);
    }
    assert forall|t: int| 0 <= t < set.len() implies kicker_rank(
        large,
        kicker_size,
        start,
        len,
        (#[trigger] set[t]).ord(),
    ) by {
        lemma_ord_round_trip(set[t]);
        assert(kicker_rank(small, kicker_size, start, len, set[t].ord()));
        assert(small[set[t].ord()] <= large[set[t].ord()]);
    }
}

/// A hand holds at least the plays that a part of it holds: a search finds
/// in the larger hand each play that it finds in the smaller one, and no
/// fewer plays.
pub proof fn lemma_larger_hand_holds_more(
    small: Seq<u8>,
    large: Seq<u8>,
    primal_size: u8,
    kicker_size: u8,
    first: int,
    n: int,
    kickers: Seq<u8>,
)
    requires
        large.len() == 15,
        holds_all(large, small),
        forall|len: int|
            first <= len < n ==> told_apart(primal_size, kicker_size, #[trigger] kickers[len] as nat),
    ensures
        forall|i: int|
            0 <= i < plays_in(small, primal_size, kicker_size, first, n, kickers).len()
                ==> plays_in(large, primal_size, kicker_size, first, n, kickers).contains(
                #[trigger] plays_in(small, primal_size, kicker_size, first, n, kickers)[i],
            ),
        plays_in(small, primal_size, kicker_size, first, n, kickers).len() <= plays_in(
            large,
            primal_size,
            kicker_size,
            first,
            n,
            kickers,
        ).len(),
{
    let fewer = plays_in(small, primal_size, kicker_size, first, n, kickers);
    let more = plays_in(large, primal_size, kicker_size, first, n, kickers);
    assert forall|i: int| 0 <= i < fewer.len() implies more.contains(#[trigger] fewer[i]) by {
        lemma_plays_in(small, primal_size, kicker_size, first, n, kickers, i);
        let (len, start, set) = choose|len: int, start: int, set: Seq<Rank>|
            {
                &&& first <= len < n
                &&& kickers[len] + len <= 15
                &&& shaped(
                    small,
                    primal_size,
                    kicker_size,
                    len,
                    kickers[len] as nat,
                    start,
                    set,
                    fewer[i],
                )
            };
        lemma_shaped_in_larger(
            small,
            large,
            primal_size,
            kicker_size,
            len,
            kickers[len] as nat,
            start,
            set,
            fewer[i],
        );
        lemma_plays_in_complete(
            large,
            primal_size,
            kicker_size,
            first,
            n,
            kickers,
            len,
            start,
            set,
            fewer[i],
        );
    }
    assert forall|i: int, j: int| 0 <= i < fewer.len() && 0 <= j < fewer.len() && i != j implies
        fewer[i] != fewer[j] by {
        if i < j {
            lemma_plays_in_distinct(small, primal_size, kicker_size, first, n, kickers, i, j);
        } else {
            lemma_plays_in_distinct(small, primal_size, kicker_size, first, n, kickers, j, i);
        }
    }
    fewer.unique_seq_to_set();
    more.lemma_cardinality_of_set();
    assert forall|play: Seq<u8>| fewer.to_set().contains(play) implies more.to_set().contains(
        play,
    ) by {
        let i = choose|i: int| 0 <= i < fewer.len() && fewer[i] == play;
        assert(more.contains(fewer[i]));
    }
    vstd::seq_lib::seq_to_set_is_finite(more);
    lemma_len_subset(fewer.to_set(), more.to_set());
}

/// A hand holds no play of a category twice.
pub proof fn lemma_kind_plays_distinct(hand: Seq<u8>, kind: PlayKind, i: int, j: int)
    requires
        valid_counts(hand),
        0 <= i < j < kind_plays(hand, kind).len(),
    ensures
        kind_plays(hand, kind)[i] != kind_plays(hand, kind)[j],
{
    if kind != PlayKind::Rocket {
        let found = standard_plays(hand, kind);
        lemma_standard_plays_distinct(hand, kind, i, j);
        lemma_standard_play_classifies(hand, kind, i);
        lemma_standard_play_classifies(hand, kind, j);
        lemma_searched_valid(hand, kind, i);
        lemma_searched_valid(hand, kind, j);
        lemma_play_holds_the_hand(found[i], kind);
        lemma_play_holds_the_hand(found[j], kind);
    }
}

/// A search for the shape of a category finds no play twice.
pub proof fn lemma_standard_plays_distinct(hand: Seq<u8>, kind: PlayKind, i: int, j: int)
    requires
        0 <= i < j < standard_plays(hand, kind).len(),
    ensures
        standard_plays(hand, kind)[i] != standard_plays(hand, kind)[j],
{
    lemma_plays_in_distinct(
        hand,
        standard_primal_size(kind),
        standard_kicker_size(kind),
        first_length(standard_primal_count(kind).0),
        last_length(standard_primal_count(kind).1) + 1,
        standard_kicker_counts(kind),
        i,
        j,
    );
}

/// A hand holds at least as many plays of a category as a part of it.
pub proof fn lemma_larger_hand_holds_more_of_a_kind(
    small: Seq<u8>,
    large: Seq<u8>,
    kind: PlayKind,
)
    requires
        valid_counts(large),
        holds_all(large, small),
    ensures
        kind_plays(small, kind).len() <= kind_plays(large, kind).len(),
{
    if kind == PlayKind::Rocket {
        assert(small[13] <= large[13]);
        assert(small[14] <= large[14]);
        assert(large[13] <= limit(13));
        assert(large[14] <= limit(14));
    } else {
        lemma_larger_hand_holds_more(
            small,
            large,
            standard_primal_size(kind),
            standard_kicker_size(kind),
            first_length(standard_primal_count(kind).0),
            last_length(standard_primal_count(kind).1) + 1,
            standard_kicker_counts(kind),
        );
    }
}

} // verus!
