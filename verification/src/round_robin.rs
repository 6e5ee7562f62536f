//! The choice among next hops of equal cost: the hop used least goes next.

use vstd::prelude::*;
use crate::bytes::{lemma_lex_asymmetric, lemma_lex_total, lemma_lex_transitive, lex_lt};
use crate::lru::{lru_distinct, lru_has, lru_place, lru_put, lru_touched, lru_value};

verus! {

/// How far the counter of the hop used least may lie below the highest
/// counter.
pub const ROUND_ROBIN_MAX_NONCE_DIFFERENCE_ALLOWED: usize = 10;

/// How often `peer` has been used: its counter, or 0 where it has none.
pub open spec fn count_of(entries: Seq<(Seq<u8>, usize)>, peer: Seq<u8>) -> usize {
    match lru_value(entries, peer) {
        Some(n) => n,
        None => 0,
    }
}

/// Whether a hop with the counter `a.0` goes before one with the counter
/// `b.0`: the lower counter first, and of equal counters the smaller peer.
pub open spec fn goes_before(a: (usize, Seq<u8>), b: (usize, Seq<u8>)) -> bool {
    a.0 < b.0 || (a.0 == b.0 && lex_lt(a.1, b.1))
}

/// `peer` is the hop among `routes` that goes before all others.
pub open spec fn is_least(routes: Seq<Seq<u8>>, entries: Seq<(Seq<u8>, usize)>, peer: Seq<u8>) -> bool {
    &&& routes.contains(peer)
    &&& forall|i: int|
        0 <= i < routes.len() ==> !goes_before(
            (count_of(entries, #[trigger] routes[i]), routes[i]),
            (count_of(entries, peer), peer),
        )
}

/// `top` is the highest counter among `routes`.
pub open spec fn is_top(routes: Seq<Seq<u8>>, entries: Seq<(Seq<u8>, usize)>, top: usize) -> bool {
    &&& exists|i: int| 0 <= i < routes.len() && count_of(entries, #[trigger] routes[i]) == top
    &&& forall|i: int| 0 <= i < routes.len() ==> count_of(entries, #[trigger] routes[i]) <= top
}

/// The hop among `routes` that goes before all others.
pub open spec fn least_route(routes: Seq<Seq<u8>>, entries: Seq<(Seq<u8>, usize)>) -> Seq<u8> {
    choose|peer: Seq<u8>| is_least(routes, entries, peer)
}

/// The highest counter among `routes`.
pub open spec fn top_count(routes: Seq<Seq<u8>>, entries: Seq<(Seq<u8>, usize)>) -> usize {
    choose|top: usize| is_top(routes, entries, top)
}

/// There is one hop that goes before all others, and one highest counter.
pub proof fn lemma_least_and_top(
    routes: Seq<Seq<u8>>,
    entries: Seq<(Seq<u8>, usize)>,
    peer: Seq<u8>,
    top: usize,
)
    requires
        is_least(routes, entries, peer),
        is_top(routes, entries, top),
    ensures
        least_route(routes, entries) == peer,
        top_count(routes, entries) == top,
{
    let other = least_route(routes, entries);
    let i = routes.index_of(other);
    let j = routes.index_of(peer);
    assert(routes[i] == other && routes[j] == peer);
    lemma_lex_total(other, peer);
    let best = top_count(routes, entries);
    let m = choose|m: int| 0 <= m < routes.len() && count_of(entries, #[trigger] routes[m]) == top;
    let n = choose|n: int| 0 <= n < routes.len() && count_of(entries, #[trigger] routes[n]) == best;
    assert(count_of(entries, routes[m]) <= best);
    assert(count_of(entries, routes[n]) <= top);
}

/// A highest counter among hops, of which there is at least one.
proof fn lemma_top_of(routes: Seq<Seq<u8>>, entries: Seq<(Seq<u8>, usize)>) -> (top: usize)
    requires
        routes.len() > 0,
    ensures
        is_top(routes, entries, top),
    decreases routes.len(),
{
    let end = routes.len() - 1;
    let last = count_of(entries, routes[end]);
    if routes.len() == 1 {
        last
    } else {
        let front = routes.drop_last();
        let before = lemma_top_of(front, entries);
        let at = choose|i: int| 0 <= i < front.len() && count_of(entries, #[trigger] front[i]) == before;
        assert(routes[at] == front[at]);
        assert forall|i: int| 0 <= i < routes.len() implies count_of(entries, #[trigger] routes[i])
            <= before || i == end by {
            if i < end {
                assert(routes[i] == front[i]);
            }
        }
        if last > before {
            last
        } else {
            before
        }
    }
}

/// A hop that goes before all others, of which there is at least one.
proof fn lemma_least_of(routes: Seq<Seq<u8>>, entries: Seq<(Seq<u8>, usize)>) -> (peer: Seq<u8>)
    requires
        routes.len() > 0,
    ensures
        is_least(routes, entries, peer),
    decreases routes.len(),
{
    let end = routes.len() - 1;
    let last = routes[end];
    lemma_lex_asymmetric(last, last);
    if routes.len() == 1 {
        last
    } else {
        let front = routes.drop_last();
        let before = lemma_least_of(front, entries);
        let at = front.index_of(before);
        assert(routes[at] == before);
        let best = if goes_before((count_of(entries, last), last), (count_of(entries, before), before)) {
            last
        } else {
            before
        };
        assert forall|i: int| 0 <= i < routes.len() implies !goes_before(
            (count_of(entries, #[trigger] routes[i]), routes[i]),
            (count_of(entries, best), best),
        ) by {
            let hop = routes[i];
            if i < end {
                assert(hop == front[i]);
            }
            if best == last && lex_lt(hop, last) && lex_lt(last, before) {
                lemma_lex_transitive(hop, last, before);
            }
        }
        best
    }
}

/// Among hops, of which there is at least one, there is a hop that goes
/// before all others and a highest counter: the two choices are what their
/// names say.
pub proof fn lemma_choice_exists(routes: Seq<Seq<u8>>, entries: Seq<(Seq<u8>, usize)>)
    requires
        routes.len() > 0,
    ensures
        is_top(routes, entries, top_count(routes, entries)),
        is_least(routes, entries, least_route(routes, entries)),
{
    let top = lemma_top_of(routes, entries);
    let peer = lemma_least_of(routes, entries);
}

/// The cache after the counters of all `routes` have been looked up, one
/// after the other.
pub open spec fn looked_up_all(entries: Seq<(Seq<u8>, usize)>, routes: Seq<Seq<u8>>) -> Seq<
    (Seq<u8>, usize),
>
    decreases routes.len(),
{
    if routes.len() == 0 {
        entries
    } else {
        lru_touched(looked_up_all(entries, routes.drop_last()), routes.last())
    }
}

/// The counter that follows `n`.
pub open spec fn bumped(counter: Option<usize>) -> usize {
    match counter {
        Some(n) => if n < usize::MAX {
            (n + 1) as usize
        } else {
            n
        },
        None => 1,
    }
}

/// The cache after `hop` has been served. Where its counter `low` lies more
/// than 10 below the highest counter `top`, it is first set to `top - 10`.
/// Then the counter is looked up and set to the next number, or to 1 where
/// the hop has none.
pub open spec fn served(
    entries: Seq<(Seq<u8>, usize)>,
    limit: usize,
    hop: Seq<u8>,
    low: usize,
    top: usize,
) -> Seq<(Seq<u8>, usize)> {
    let lifted = if low + ROUND_ROBIN_MAX_NONCE_DIFFERENCE_ALLOWED < top {
        lru_put(entries, limit, hop, (top - ROUND_ROBIN_MAX_NONCE_DIFFERENCE_ALLOWED) as usize)
    } else {
        entries
    };
    lru_put(lru_touched(lifted, hop), limit, hop, bumped(lru_value(lifted, hop)))
}

/// A lookup changes no value and keeps the keys distinct.
pub proof fn lemma_touch_keeps<K, V>(entries: Seq<(K, V)>, key: K)
    requires
        lru_distinct(entries),
    ensures
        lru_distinct(lru_touched(entries, key)),
        lru_touched(entries, key).len() == entries.len(),
        forall|other: K| lru_value(lru_touched(entries, key), other) == lru_value(entries, other),
{
    let after = lru_touched(entries, key);
    if lru_has(entries, key) {
        let at = lru_place(entries, key);
        assert forall|i: int| 0 <= i < after.len() implies #[trigger] after[i] == entries[if i == 0 {
            at
        } else if i <= at {
            i - 1
        } else {
            i
        }] by {}
        assert forall|i: int, j: int| 0 <= i < j < after.len() implies (#[trigger] after[i]).0 != (
        #[trigger] after[j]).0 by {
            let i0 = if i == 0 { at } else if i <= at { i - 1 } else { i };
            let j0 = if j == 0 { at } else if j <= at { j - 1 } else { j };
            assert(after[i] == entries[i0] && after[j] == entries[j0]);
            if i0 < j0 {
                assert(entries[i0].0 != entries[j0].0);
            } else {
                assert(entries[j0].0 != entries[i0].0);
            }
        }
        assert forall|other: K| lru_value(after, other) == lru_value(entries, other) by {
            if lru_has(entries, other) {
                let p = lru_place(entries, other);
                let moved = if p == at { 0 } else if p < at { p + 1 } else { p };
                assert(after[moved] == entries[p]);
                assert(lru_has(after, other));
                let q = lru_place(after, other);
                let q0 = if q == 0 { at } else if q <= at { q - 1 } else { q };
                assert(after[q] == entries[q0]);
                if q0 < p {
                    assert(entries[q0].0 != entries[p].0);
                }
                if p < q0 {
                    assert(entries[p].0 != entries[q0].0);
                }
            } else if lru_has(after, other) {
                let q = lru_place(after, other);
                let q0 = if q == 0 { at } else if q <= at { q - 1 } else { q };
                assert(after[q] == entries[q0]);
            }
        }
    }
}

/// Looking up all routes changes no counter and keeps the keys distinct.
pub proof fn lemma_looked_up_all(entries: Seq<(Seq<u8>, usize)>, routes: Seq<Seq<u8>>)
    requires
        lru_distinct(entries),
    ensures
        lru_distinct(looked_up_all(entries, routes)),
        forall|peer: Seq<u8>| count_of(looked_up_all(entries, routes), peer) == count_of(entries, peer),
    decreases routes.len(),
{
    if routes.len() > 0 {
        lemma_looked_up_all(entries, routes.drop_last());
        lemma_touch_keeps(looked_up_all(entries, routes.drop_last()), routes.last());
    }
}


/// Setting a key in a cache that is not full puts the value under the key,
/// changes no other value and keeps the keys distinct.
pub proof fn lemma_put_keeps<K, V>(entries: Seq<(K, V)>, limit: usize, key: K, value: V)
    requires
        lru_distinct(entries),
        entries.len() < limit,
    ensures
        lru_distinct(lru_put(entries, limit, key, value)),
        entries.len() <= lru_put(entries, limit, key, value).len() <= entries.len() + 1,
        lru_put(entries, limit, key, value).len() == (if lru_has(entries, key) {
            entries.len()
        } else {
            entries.len() + 1
        }),
        lru_value(lru_put(entries, limit, key, value), key) == Some(value),
        forall|other: K|
            other != key ==> lru_value(lru_put(entries, limit, key, value), other) == lru_value(
                entries,
                other,
            ),
{
    let after = lru_put(entries, limit, key, value);
    let shift: int = if lru_has(entries, key) {
        0
    } else {
        1
    };
    let at: int = if lru_has(entries, key) {
        lru_place(entries, key)
    } else {
        0
    };
    assert(after[at] == (key, value));
    assert forall|i: int| 0 <= i < after.len() && i != at implies #[trigger] after[i] == entries[i
        - shift] by {}
    assert forall|i: int| 0 <= i < after.len() && i != at implies (#[trigger] after[i]).0 != key by {
        let e = entries[i - shift];
        if lru_has(entries, key) {
            if i < at {
                assert(entries[i].0 != entries[at].0);
            } else {
                assert(entries[at].0 != entries[i].0);
            }
        }
    }
    assert forall|i: int, j: int| 0 <= i < j < after.len() implies (#[trigger] after[i]).0 != (
    #[trigger] after[j]).0 by {
        if i != at && j != at {
            assert(entries[i - shift].0 != entries[j - shift].0);
        }
    }
    assert(lru_has(after, key));
    let found = lru_place(after, key);
    assert(found == at);
    assert forall|other: K| other != key implies lru_value(after, other) == lru_value(
        entries,
        other,
    ) by {
        if lru_has(entries, other) {
            let p = lru_place(entries, other);
            assert(after[p + shift] == entries[p]);
            assert(lru_has(after, other));
            let q = lru_place(after, other);
            assert(after[q] == entries[q - shift]);
            if q - shift < p {
                assert(entries[q - shift].0 != entries[p].0);
            }
            if p < q - shift {
                assert(entries[p].0 != entries[q - shift].0);
            }
        } else if lru_has(after, other) {
            let q = lru_place(after, other);
            assert(after[q] == entries[q - shift]);
        }
    }
}

/// What serving a hop does to the counters of a cache with room for two
/// more entries: the hop has the counter that follows its own, or that
/// follows 10 below the top where it was lifted; every other counter is as
/// it was; the keys stay distinct, and at most one entry has come.
pub proof fn lemma_served(
    entries: Seq<(Seq<u8>, usize)>,
    limit: usize,
    hop: Seq<u8>,
    low: usize,
    top: usize,
)
    requires
        lru_distinct(entries),
        entries.len() + 1 < limit,
    ensures
        lru_distinct(served(entries, limit, hop, low, top)),
        entries.len() <= served(entries, limit, hop, low, top).len() <= entries.len() + 1,
        count_of(served(entries, limit, hop, low, top), hop) == bumped(
            if low + ROUND_ROBIN_MAX_NONCE_DIFFERENCE_ALLOWED < top {
                Some((top - ROUND_ROBIN_MAX_NONCE_DIFFERENCE_ALLOWED) as usize)
            } else {
                lru_value(entries, hop)
            },
        ),
        forall|other: Seq<u8>|
            other != hop ==> count_of(served(entries, limit, hop, low, top), other) == count_of(
                entries,
                other,
            ),
{
    let lifted = if low + ROUND_ROBIN_MAX_NONCE_DIFFERENCE_ALLOWED < top {
        lru_put(entries, limit, hop, (top - ROUND_ROBIN_MAX_NONCE_DIFFERENCE_ALLOWED) as usize)
    } else {
        entries
    };
    if low + ROUND_ROBIN_MAX_NONCE_DIFFERENCE_ALLOWED < top {
        lemma_put_keeps(
            entries,
            limit,
            hop,
            (top - ROUND_ROBIN_MAX_NONCE_DIFFERENCE_ALLOWED) as usize,
        );
    }
    lemma_touch_keeps(lifted, hop);
    let touched = lru_touched(lifted, hop);
    lemma_put_keeps(touched, limit, hop, bumped(lru_value(lifted, hop)));
    let after = served(entries, limit, hop, low, top);
    assert(after == lru_put(touched, limit, hop, bumped(lru_value(lifted, hop))));
    assert(lru_has(lifted, hop) == lru_has(touched, hop)) by {
        assert(lru_value(touched, hop) == lru_value(lifted, hop));
    }
    assert forall|other: Seq<u8>| other != hop implies count_of(after, other) == count_of(
        entries,
        other,
    ) by {
        assert(lru_value(after, other) == lru_value(touched, other));
        assert(lru_value(touched, other) == lru_value(lifted, other));
        assert(lru_value(lifted, other) == lru_value(entries, other));
    }
}

/// Looking up all routes leaves as many entries as there were.
pub proof fn lemma_looked_up_all_len(entries: Seq<(Seq<u8>, usize)>, routes: Seq<Seq<u8>>)
    requires
        lru_distinct(entries),
    ensures
        looked_up_all(entries, routes).len() == entries.len(),
    decreases routes.len(),
{
    if routes.len() > 0 {
        lemma_looked_up_all_len(entries, routes.drop_last());
        lemma_looked_up_all(entries, routes.drop_last());
        lemma_touch_keeps(looked_up_all(entries, routes.drop_last()), routes.last());
    }
}

} // verus!
