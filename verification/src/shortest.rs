//! Shortest routes from node 0 of a graph of adjacency lists: for every node
//! its distance, and through which of the first neighbours of node 0 a
//! shortest walk to it begins.

use vstd::prelude::*;
use vstd::set_lib::{lemma_int_range, lemma_len_subset, set_int_range};

verus! {

/// The most neighbours of node 0 that a set of first hops can name.
pub const MAX_ANCHORS: usize = 128;

/// Whether bit `i` of `mask` is set.
pub open spec fn has_bit(mask: u128, i: int) -> bool {
    0 <= i < 128 && mask & (1u128 << (i as u128)) != 0
}

/// A bit of `a | b` is set exactly when it is set in `a` or in `b`.
pub proof fn lemma_bit_or(a: u128, b: u128, i: int)
    ensures
        has_bit(a | b, i) == (has_bit(a, i) || has_bit(b, i)),
{
    if 0 <= i < 128 {
        let s = i as u128;
        assert(s < 128 ==> (((a | b) & (1u128 << s) != 0) == ((a & (1u128 << s) != 0) || (b & (1u128
            << s) != 0)))) by (bit_vector);
    }
}

/// The mask `1 << i` has bit `i` set and no other.
pub proof fn lemma_bit_single(i: int, j: int)
    requires
        0 <= i < 128,
    ensures
        has_bit(1u128 << (i as u128), j) == (i == j),
{
    if 0 <= j < 128 {
        let s = i as u128;
        let t = j as u128;
        assert(s < 128 && t < 128 ==> (((1u128 << s) & (1u128 << t) != 0) == (s == t)))
            by (bit_vector);
    }
}

/// No bit of 0 is set.
pub proof fn lemma_bit_zero(i: int)
    ensures
        !has_bit(0, i),
{
    if 0 <= i < 128 {
        let s = i as u128;
        assert(0u128 & (1u128 << s) == 0) by (bit_vector);
    }
}

/// A mask with a bit set is not 0.
pub proof fn lemma_bit_nonzero(mask: u128, i: int)
    requires
        has_bit(mask, i),
    ensures
        mask != 0,
{
    lemma_bit_zero(i);
}

/// A list of distinct numbers below `n` has at most `n` entries.
pub proof fn lemma_distinct_below(list: Seq<u32>, n: int)
    requires
        0 <= n,
        list.no_duplicates(),
        forall|k: int| 0 <= k < list.len() ==> (#[trigger] list[k]) < n,
    ensures
        list.len() <= n,
{
    if list.len() > 0 {
        let ints = Seq::new(list.len(), |k: int| list[k] as int);
        assert(ints.no_duplicates());
        ints.unique_seq_to_set();
        lemma_int_range(0, n);
        assert(ints.to_set().subset_of(set_int_range(0, n))) by {
            assert forall|x: int| ints.to_set().contains(x) implies set_int_range(0, n).contains(
                x,
            ) by {
                let k = ints.index_of(x);
                assert(ints[k] == x);
            }
        }
        lemma_len_subset(ints.to_set(), set_int_range(0, n));
    }
}

/// A list of distinct numbers above 0 and below `n` has fewer than `n` entries.
pub proof fn lemma_distinct_between(list: Seq<u32>, n: int)
    requires
        1 <= n,
        list.no_duplicates(),
        forall|k: int| 0 <= k < list.len() ==> 0 < (#[trigger] list[k]) < n,
    ensures
        list.len() < n,
{
    let longer = list.push(0);
    assert forall|a: int, b: int| 0 <= a < longer.len() && 0 <= b < longer.len() && a != b implies longer[a]
        != longer[b] by {
        if a < list.len() {
            assert(longer[a] == list[a]);
        }
        if b < list.len() {
            assert(longer[b] == list[b]);
        }
    }
    lemma_distinct_below(longer, n);
}

/// The adjacency lists name nodes of the graph, node 0 is in none of its own
/// list, and no list names a node twice.
pub open spec fn links_ok(adj: Seq<Seq<u32>>) -> bool {
    &&& 1 <= adj.len() <= 0x7fff_ffff
    &&& forall|i: int, k: int|
        0 <= i < adj.len() && 0 <= k < adj[i].len() ==> (#[trigger] adj[i][k]) < adj.len()
    &&& forall|k: int| 0 <= k < adj[0].len() ==> (#[trigger] adj[0][k]) != 0
    &&& forall|i: int| 0 <= i < adj.len() ==> (#[trigger] adj[i]).no_duplicates()
}

/// How many neighbours of node 0 count as first hops: all of them, up to 128.
pub open spec fn anchor_count(adj: Seq<Seq<u32>>) -> int {
    if adj[0].len() <= MAX_ANCHORS {
        adj[0].len() as int
    } else {
        MAX_ANCHORS as int
    }
}

/// A walk from node 0: it leaves node 0 for one of the first hops, never
/// comes back to node 0, and each further step follows a link.
pub open spec fn is_walk(adj: Seq<Seq<u32>>, walk: Seq<int>) -> bool {
    &&& walk.len() >= 2
    &&& walk[0] == 0
    &&& exists|i: int| 0 <= i < anchor_count(adj) && #[trigger] adj[0][i] == walk[1]
    &&& forall|k: int| 1 <= k < walk.len() ==> 0 < #[trigger] walk[k] < adj.len()
    &&& forall|k: int|
        1 <= k < walk.len() - 1 ==> adj[#[trigger] walk[k]].contains(walk[k + 1] as u32)
}

/// What the search has found when it is over. Node 0 has distance 0, the
/// first hops have distance 1 and each its own bit, a node of greater
/// distance has a neighbour one step nearer, the bits of such a node are
/// those of all its neighbours one step nearer, and no link from a found
/// node leads to a node that was not found or lies more than one step
/// further.
pub open spec fn settled(adj: Seq<Seq<u32>>, dist: Seq<i32>, routes: Seq<u128>) -> bool {
    let n = adj.len();
    &&& dist.len() == n
    &&& routes.len() == n
    &&& dist[0] == 0
    &&& forall|v: int| 1 <= v < n ==> #[trigger] dist[v] == -1 || dist[v] >= 1
    &&& forall|i: int| 0 <= i < anchor_count(adj) ==> dist[#[trigger] adj[0][i] as int] == 1
    &&& forall|v: int|
        1 <= v < n && #[trigger] dist[v] == 1 ==> exists|i: int|
            0 <= i < anchor_count(adj) && #[trigger] adj[0][i] == v
    &&& forall|i: int, j: int|
        0 <= i < anchor_count(adj) ==> (#[trigger] has_bit(routes[adj[0][i] as int], j) <==> j
            == i)
    &&& forall|v: int|
        1 <= v < n && #[trigger] dist[v] >= 2 ==> exists|u: int| #[trigger]
            steps_to(adj, dist, u, v)
    &&& forall|u: int, k: int|
        1 <= u < n && dist[u] >= 1 && 0 <= k < adj[u].len() && (#[trigger] adj[u][k]) != 0
            ==> 1 <= dist[adj[u][k] as int] <= dist[u] + 1
    &&& forall|v: int, j: int|
        1 <= v < n && dist[v] >= 2 ==> (#[trigger] has_bit(routes[v], j) <==> exists|u: int|
            #[trigger] steps_to(adj, dist, u, v) && has_bit(routes[u], j))
}

/// `u` is a neighbour of `v` that lies one step nearer to node 0.
pub open spec fn steps_to(adj: Seq<Seq<u32>>, dist: Seq<i32>, u: int, v: int) -> bool {
    &&& 1 <= u < adj.len()
    &&& dist[u] >= 1
    &&& dist[u] + 1 == dist[v]
    &&& adj[u].contains(v as u32)
}

/// `walk` is a walk from node 0 that ends in `v`.
pub open spec fn reaches(adj: Seq<Seq<u32>>, walk: Seq<int>, v: int) -> bool {
    is_walk(adj, walk) && walk.last() == v
}

/// Every walk to a node takes at least as many steps as the distance found
/// for the node, and a node with a walk to it was found.
pub proof fn lemma_walk_is_long(
    adj: Seq<Seq<u32>>,
    dist: Seq<i32>,
    routes: Seq<u128>,
    walk: Seq<int>,
    v: int,
)
    requires
        links_ok(adj),
        settled(adj, dist, routes),
        reaches(adj, walk, v),
    ensures
        1 <= dist[v] <= walk.len() - 1,
    decreases walk.len(),
{
    if walk.len() == 2 {
        let i = choose|i: int| 0 <= i < anchor_count(adj) && #[trigger] adj[0][i] == walk[1];
        assert(dist[adj[0][i] as int] == 1);
    } else {
        let shorter = walk.drop_last();
        let u = shorter.last();
        assert(is_walk(adj, shorter)) by {
            let i = choose|i: int| 0 <= i < anchor_count(adj) && #[trigger] adj[0][i] == walk[1];
            assert(adj[0][i] == shorter[1]);
            assert forall|k: int| 1 <= k < shorter.len() implies 0 < #[trigger] shorter[k]
                < adj.len() by {
                assert(shorter[k] == walk[k]);
            }
            assert forall|k: int| 1 <= k < shorter.len() - 1 implies adj[#[trigger] shorter[k]].contains(
                shorter[k + 1] as u32,
            ) by {
                assert(shorter[k] == walk[k]);
                assert(shorter[k + 1] == walk[k + 1]);
            }
        }
        lemma_walk_is_long(adj, dist, routes, shorter, u);
        assert(u == walk[walk.len() - 2]);
        assert(adj[walk[walk.len() - 2]].contains(walk[walk.len() - 2 + 1] as u32));
        let k = adj[u].index_of(v as u32);
        assert(adj[u][k] == v as u32);
        assert(0 < walk[walk.len() - 1] < adj.len());
    }
}

/// For a node that was found there is a walk of as many steps as its
/// distance; where bit `j` is set for the node, and `j` is asked for, the walk
/// begins with the first hop `j`.
pub proof fn lemma_walk_exists(
    adj: Seq<Seq<u32>>,
    dist: Seq<i32>,
    routes: Seq<u128>,
    v: int,
    j: int,
    by_bit: bool,
) -> (walk: Seq<int>)
    requires
        links_ok(adj),
        settled(adj, dist, routes),
        1 <= v < adj.len(),
        dist[v] >= 1,
        by_bit ==> has_bit(routes[v], j),
    ensures
        reaches(adj, walk, v),
        walk.len() - 1 == dist[v],
        by_bit ==> 0 <= j < anchor_count(adj) && walk[1] == adj[0][j],
    decreases dist[v],
{
    if dist[v] == 1 {
        let i = choose|i: int| 0 <= i < anchor_count(adj) && #[trigger] adj[0][i] == v;
        let walk = seq![0int, v];
        assert(adj[0][i] == walk[1]);
        if by_bit {
            assert(has_bit(routes[adj[0][i] as int], j));
        }
        walk
    } else {
        let u = if by_bit {
            choose|u: int| #[trigger] steps_to(adj, dist, u, v) && has_bit(routes[u], j)
        } else {
            choose|u: int| #[trigger] steps_to(adj, dist, u, v)
        };
        let shorter = lemma_walk_exists(adj, dist, routes, u, j, by_bit);
        let walk = shorter.push(v);
        assert(is_walk(adj, walk)) by {
            let i = choose|i: int| 0 <= i < anchor_count(adj) && #[trigger] adj[0][i] == shorter[1];
            assert(adj[0][i] == walk[1]);
            assert forall|k: int| 1 <= k < walk.len() implies 0 < #[trigger] walk[k] < adj.len() by {
                if k < shorter.len() {
                    assert(walk[k] == shorter[k]);
                }
            }
            assert forall|k: int| 1 <= k < walk.len() - 1 implies adj[#[trigger] walk[k]].contains(
                walk[k + 1] as u32,
            ) by {
                assert(walk[k] == shorter[k]);
                if k + 1 < shorter.len() {
                    assert(walk[k + 1] == shorter[k + 1]);
                }
            }
        }
        walk
    }
}

/// Where a walk to a node takes as many steps as the node's distance, the bit
/// of the first hop it begins with is set for the node.
pub proof fn lemma_walk_sets_bit(
    adj: Seq<Seq<u32>>,
    dist: Seq<i32>,
    routes: Seq<u128>,
    walk: Seq<int>,
    v: int,
    j: int,
)
    requires
        links_ok(adj),
        settled(adj, dist, routes),
        reaches(adj, walk, v),
        walk.len() - 1 == dist[v],
        0 <= j < anchor_count(adj),
        walk[1] == adj[0][j],
    ensures
        has_bit(routes[v], j),
    decreases walk.len(),
{
    if walk.len() == 2 {
        assert(has_bit(routes[adj[0][j] as int], j));
    } else {
        let shorter = walk.drop_last();
        let u = shorter.last();
        assert(is_walk(adj, shorter)) by {
            assert(adj[0][j] == shorter[1]);
            assert forall|k: int| 1 <= k < shorter.len() implies 0 < #[trigger] shorter[k]
                < adj.len() by {
                assert(shorter[k] == walk[k]);
            }
            assert forall|k: int| 1 <= k < shorter.len() - 1 implies adj[#[trigger] shorter[k]].contains(
                shorter[k + 1] as u32,
            ) by {
                assert(shorter[k] == walk[k]);
                assert(shorter[k + 1] == walk[k + 1]);
            }
        }
        lemma_walk_is_long(adj, dist, routes, shorter, u);
        assert(u == walk[walk.len() - 2]);
        assert(adj[walk[walk.len() - 2]].contains(walk[walk.len() - 2 + 1] as u32));
        let k = adj[u].index_of(v as u32);
        assert(adj[u][k] == v as u32);
        assert(0 < walk[walk.len() - 1] < adj.len());
        assert(dist[u] + 1 == dist[v]);
        lemma_walk_sets_bit(adj, dist, routes, shorter, u, j);
        assert(steps_to(adj, dist, u, v));
    }
}


/// While the search runs: the link from the node at place `p` of the queue to
/// `w` has been followed, either because that node is done (`p < h`) or
/// because it is the node at work and the link is among its first `t`.
pub open spec fn followed(adj: Seq<Seq<u32>>, order: Seq<u32>, p: int, w: int, h: int, t: int) -> bool {
    ||| 0 <= p < h && p < order.len() && adj[order[p] as int].contains(w as u32)
    ||| p == h && 0 <= h < order.len() && 0 <= t <= adj[order[h] as int].len() && adj[order[h] as int].take(
        t,
    ).contains(w as u32)
}

/// The node at place `p` lies one step nearer than the node at place `k`,
/// and the link from the one to the other has been followed.
pub open spec fn feeds(
    adj: Seq<Seq<u32>>,
    dist: Seq<i32>,
    order: Seq<u32>,
    p: int,
    k: int,
    h: int,
    t: int,
) -> bool {
    &&& 0 <= p <= h
    &&& p < order.len()
    &&& dist[order[p] as int] + 1 == dist[order[k] as int]
    &&& followed(adj, order, p, order[k] as int, h, t)
}

/// Some node one step nearer than the node at place `k` has had its link to
/// that node followed.
pub open spec fn has_feeder(
    adj: Seq<Seq<u32>>,
    dist: Seq<i32>,
    order: Seq<u32>,
    k: int,
    h: int,
    t: int,
) -> bool {
    exists|p: int| #[trigger] feeds(adj, dist, order, p, k, h, t)
}

/// What holds of the nodes found so far, whatever has been followed.
pub open spec fn found(adj: Seq<Seq<u32>>, dist: Seq<i32>, routes: Seq<u128>, order: Seq<u32>) -> bool {
    let n = adj.len();
    let c = anchor_count(adj);
    &&& dist.len() == n
    &&& routes.len() == n
    &&& dist[0] == 0
    &&& order.no_duplicates()
    &&& forall|k: int|
        0 <= k < order.len() ==> 0 < (#[trigger] order[k]) < n && 1 <= dist[order[k] as int] <= k
            + 1
    &&& forall|v: int|
        1 <= v < n ==> #[trigger] dist[v] == -1 || (dist[v] >= 1 && order.contains(v as u32))
    &&& forall|v: int| 1 <= v < n && dist[v] == -1 ==> #[trigger] routes[v] == 0
    &&& c <= order.len()
    &&& forall|i: int|
        0 <= i < c ==> #[trigger] order[i] == adj[0][i] && dist[order[i] as int] == 1
    &&& forall|k: int| c <= k < order.len() ==> dist[#[trigger] order[k] as int] >= 2
    &&& forall|k1: int, k2: int|
        0 <= k1 <= k2 < order.len() ==> dist[#[trigger] order[k1] as int] <= dist[
            #[trigger] order[k2] as int]
    &&& forall|i: int, j: int|
        0 <= i < c ==> (#[trigger] has_bit(routes[adj[0][i] as int], j) <==> j == i)
}

/// What holds while the search runs, with `h` nodes of the queue done and
/// `t` links of the next node followed.
pub open spec fn searching(
    adj: Seq<Seq<u32>>,
    dist: Seq<i32>,
    routes: Seq<u128>,
    order: Seq<u32>,
    h: int,
    t: int,
) -> bool {
    let c = anchor_count(adj);
    &&& found(adj, dist, routes, order)
    &&& 0 <= h <= order.len()
    &&& h < order.len() ==> 0 <= t <= adj[order[h] as int].len()
    &&& h == order.len() ==> t == 0
    &&& forall|k: int|
        h < order.len() && 0 <= k < order.len() ==> dist[#[trigger] order[k] as int] <= dist[order[h] as int]
            + 1
    &&& forall|k: int|
        c <= k < order.len() ==> #[trigger] has_feeder(adj, dist, order, k, h, t)
    &&& forall|p: int, e: int|
        0 <= p <= h && p < order.len() && 0 <= e < adj[order[p] as int].len() && (p < h || e < t)
            && (#[trigger] adj[order[p] as int][e]) != 0 ==> 1 <= dist[adj[order[p] as int][e] as int]
            <= dist[order[p] as int] + 1
    &&& forall|k: int, j: int|
        c <= k < order.len() ==> (#[trigger] has_bit(routes[order[k] as int], j) <==> exists|p: int|
            #[trigger] feeds(adj, dist, order, p, k, h, t) && has_bit(routes[order[p] as int], j))
}

/// A node found lies at its place in the queue and nowhere else.
proof fn lemma_place(order: Seq<u32>, v: u32) -> (k: int)
    requires
        order.contains(v),
    ensures
        0 <= k < order.len(),
        order[k] == v,
{
    order.index_of(v)
}

/// When the last link of a node has been followed the node is done.
proof fn lemma_next_node(
    adj: Seq<Seq<u32>>,
    dist: Seq<i32>,
    routes: Seq<u128>,
    order: Seq<u32>,
    h: int,
)
    requires
        links_ok(adj),
        0 <= h < order.len(),
        searching(adj, dist, routes, order, h, adj[order[h] as int].len() as int),
    ensures
        searching(adj, dist, routes, order, h + 1, 0),
{
    let c = anchor_count(adj);
    let t = adj[order[h] as int].len() as int;
    assert(adj[order[h] as int].take(t) =~= adj[order[h] as int]);
    assert forall|p: int, k: int| 0 <= k < order.len() implies (#[trigger] feeds(
        adj,
        dist,
        order,
        p,
        k,
        h,
        t,
    ) <==> feeds(adj, dist, order, p, k, h + 1, 0)) by {
        if h + 1 < order.len() {
            assert(adj[order[h + 1] as int].take(0) =~= Seq::<u32>::empty());
        }
    }
    assert forall|k: int| c <= k < order.len() implies #[trigger] has_feeder(
        adj,
        dist,
        order,
        k,
        h + 1,
        0,
    ) by {
        assert(has_feeder(adj, dist, order, k, h, t));
        let p = choose|p: int| #[trigger] feeds(adj, dist, order, p, k, h, t);
        assert(feeds(adj, dist, order, p, k, h + 1, 0));
    }
    assert forall|k: int, j: int| c <= k < order.len() implies (#[trigger] has_bit(
        routes[order[k] as int],
        j,
    ) <==> exists|p: int| #[trigger]
        feeds(adj, dist, order, p, k, h + 1, 0) && has_bit(routes[order[p] as int], j)) by {
        if has_bit(routes[order[k] as int], j) {
            let p = choose|p: int| #[trigger]
                feeds(adj, dist, order, p, k, h, t) && has_bit(routes[order[p] as int], j);
            assert(feeds(adj, dist, order, p, k, h + 1, 0));
        }
        if exists|p: int| #[trigger]
            feeds(adj, dist, order, p, k, h + 1, 0) && has_bit(routes[order[p] as int], j) {
            let p = choose|p: int| #[trigger]
                feeds(adj, dist, order, p, k, h + 1, 0) && has_bit(routes[order[p] as int], j);
            assert(feeds(adj, dist, order, p, k, h, t));
        }
    }
    assert forall|k: int| h + 1 < order.len() && 0 <= k < order.len() implies dist[
        #[trigger] order[k] as int] <= dist[order[h + 1] as int] + 1 by {
        assert(dist[order[h] as int] <= dist[order[h + 1] as int]);
    }
}

/// When the queue is used up the search has settled.
proof fn lemma_search_over(adj: Seq<Seq<u32>>, dist: Seq<i32>, routes: Seq<u128>, order: Seq<u32>)
    requires
        links_ok(adj),
        searching(adj, dist, routes, order, order.len() as int, 0),
    ensures
        settled(adj, dist, routes),
{
    let n = adj.len();
    let c = anchor_count(adj);
    let h = order.len() as int;
    assert forall|i: int| 0 <= i < c implies dist[#[trigger] adj[0][i] as int] == 1 by {
        assert(order[i] == adj[0][i]);
    }
    assert forall|v: int| 1 <= v < n && #[trigger] dist[v] == 1 implies exists|i: int|
        0 <= i < c && #[trigger] adj[0][i] == v by {
        let k = lemma_place(order, v as u32);
        if k >= c {
            assert(dist[order[k] as int] >= 2);
        }
        assert(order[k] == adj[0][k]);
    }
    assert forall|v: int| 1 <= v < n && #[trigger] dist[v] >= 2 implies exists|u: int| #[trigger]
        steps_to(adj, dist, u, v) by {
        let k = lemma_place(order, v as u32);
        if k < c {
            assert(order[k] == adj[0][k]);
        }
        assert(has_feeder(adj, dist, order, k, h, 0));
        let p = choose|p: int| #[trigger] feeds(adj, dist, order, p, k, h, 0);
        assert(0 < order[p]);
        assert(steps_to(adj, dist, order[p] as int, v));
    }
    assert forall|u: int, e: int|
        1 <= u < n && dist[u] >= 1 && 0 <= e < adj[u].len() && (#[trigger] adj[u][e]) != 0 implies 1
        <= dist[adj[u][e] as int] <= dist[u] + 1 by {
        let p = lemma_place(order, u as u32);
        assert(adj[order[p] as int][e] != 0);
    }
    assert forall|v: int, j: int| 1 <= v < n && dist[v] >= 2 implies (#[trigger] has_bit(
        routes[v],
        j,
    ) <==> exists|u: int| #[trigger] steps_to(adj, dist, u, v) && has_bit(routes[u], j)) by {
        let k = lemma_place(order, v as u32);
        if k < c {
            assert(order[k] == adj[0][k]);
        }
        if has_bit(routes[v], j) {
            assert(has_bit(routes[order[k] as int], j));
            let p = choose|p: int| #[trigger]
                feeds(adj, dist, order, p, k, h, 0) && has_bit(routes[order[p] as int], j);
            assert(0 < order[p]);
            assert(steps_to(adj, dist, order[p] as int, v));
        }
        if exists|u: int| #[trigger] steps_to(adj, dist, u, v) && has_bit(routes[u], j) {
            let u = choose|u: int| #[trigger] steps_to(adj, dist, u, v) && has_bit(routes[u], j);
            let p = lemma_place(order, u as u32);
            assert(feeds(adj, dist, order, p, k, h, 0));
            assert(has_bit(routes[order[p] as int], j));
            assert(has_bit(routes[order[k] as int], j));
        }
    }
}


/// One link more among those followed adds the node it leads to.
proof fn lemma_take_step(list: Seq<u32>, t: int, x: u32)
    requires
        0 <= t < list.len(),
    ensures
        list.take(t + 1).contains(x) <==> list.take(t).contains(x) || list[t] == x,
{
    if list.take(t + 1).contains(x) {
        let e = list.take(t + 1).index_of(x);
        if e < t {
            assert(list.take(t)[e] == x);
        }
    }
    if list.take(t).contains(x) {
        let e = list.take(t).index_of(x);
        assert(list.take(t + 1)[e] == x);
    }
    if list[t] == x {
        assert(list.take(t + 1)[t] == x);
    }
}

/// Following one link more changes what feeds a node only where the link
/// leads to that node from one step nearer.
proof fn lemma_feeds_step(
    adj: Seq<Seq<u32>>,
    dist: Seq<i32>,
    order: Seq<u32>,
    p: int,
    k: int,
    h: int,
    t: int,
)
    requires
        0 <= h < order.len(),
        0 <= t < adj[order[h] as int].len(),
        0 <= k < order.len(),
    ensures
        feeds(adj, dist, order, p, k, h, t + 1) <==> feeds(adj, dist, order, p, k, h, t) || (p == h
            && adj[order[h] as int][t] == order[k] && dist[order[h] as int] + 1 == dist[order[k] as int]),
{
    lemma_take_step(adj[order[h] as int], t, order[k]);
}

/// Following a link that leads to node 0, or to a node found before that is
/// not one step further, changes nothing.
proof fn lemma_visit_none(
    adj: Seq<Seq<u32>>,
    dist: Seq<i32>,
    routes: Seq<u128>,
    order: Seq<u32>,
    h: int,
    t: int,
)
    requires
        links_ok(adj),
        searching(adj, dist, routes, order, h, t),
        0 <= h < order.len(),
        0 <= t < adj[order[h] as int].len(),
        dist[adj[order[h] as int][t] as int] != -1,
        dist[adj[order[h] as int][t] as int] != dist[order[h] as int] + 1,
    ensures
        searching(adj, dist, routes, order, h, t + 1),
{
    let c = anchor_count(adj);
    let cur = order[h] as int;
    let w = adj[cur][t];
    assert forall|p: int, k: int| 0 <= k < order.len() implies (#[trigger] feeds(
        adj,
        dist,
        order,
        p,
        k,
        h,
        t + 1,
    ) <==> feeds(adj, dist, order, p, k, h, t)) by {
        lemma_feeds_step(adj, dist, order, p, k, h, t);
    }
    assert forall|k: int| c <= k < order.len() implies #[trigger] has_feeder(
        adj,
        dist,
        order,
        k,
        h,
        t + 1,
    ) by {
        assert(has_feeder(adj, dist, order, k, h, t));
        let p = choose|p: int| #[trigger] feeds(adj, dist, order, p, k, h, t);
        assert(feeds(adj, dist, order, p, k, h, t + 1));
    }
    assert forall|p: int, e: int|
        0 <= p <= h && p < order.len() && 0 <= e < adj[order[p] as int].len() && (p < h || e < t + 1)
            && (#[trigger] adj[order[p] as int][e]) != 0 implies 1 <= dist[adj[order[p] as int][e] as int]
        <= dist[order[p] as int] + 1 by {
        if p == h && e == t {
            let k = lemma_place(order, w);
            assert(dist[order[k] as int] <= dist[order[h] as int] + 1);
        }
    }
    assert forall|k: int, j: int| c <= k < order.len() implies (#[trigger] has_bit(
        routes[order[k] as int],
        j,
    ) <==> exists|p: int| #[trigger]
        feeds(adj, dist, order, p, k, h, t + 1) && has_bit(routes[order[p] as int], j)) by {
        if has_bit(routes[order[k] as int], j) {
            let p = choose|p: int| #[trigger]
                feeds(adj, dist, order, p, k, h, t) && has_bit(routes[order[p] as int], j);
            assert(feeds(adj, dist, order, p, k, h, t + 1));
        }
        if exists|p: int| #[trigger]
            feeds(adj, dist, order, p, k, h, t + 1) && has_bit(routes[order[p] as int], j) {
            let p = choose|p: int| #[trigger]
                feeds(adj, dist, order, p, k, h, t + 1) && has_bit(routes[order[p] as int], j);
            assert(feeds(adj, dist, order, p, k, h, t));
        }
    }
}

/// Following a link to a node found before, one step further than the node
/// at work, adds the bits of the node at work to those of that node.
proof fn lemma_visit_again(
    adj: Seq<Seq<u32>>,
    dist: Seq<i32>,
    routes: Seq<u128>,
    order: Seq<u32>,
    h: int,
    t: int,
    routes2: Seq<u128>,
)
    requires
        links_ok(adj),
        searching(adj, dist, routes, order, h, t),
        0 <= h < order.len(),
        0 <= t < adj[order[h] as int].len(),
        dist[adj[order[h] as int][t] as int] == dist[order[h] as int] + 1,
        routes2 == routes.update(
            adj[order[h] as int][t] as int,
            routes[adj[order[h] as int][t] as int] | routes[order[h] as int],
        ),
    ensures
        searching(adj, dist, routes2, order, h, t + 1),
{
    let c = anchor_count(adj);
    let n = adj.len();
    let cur = order[h] as int;
    let w = adj[cur][t];
    assert(w != 0);
    let kw = lemma_place(order, w);
    assert(kw > h) by {
        if kw <= h {
            assert(dist[order[kw] as int] <= dist[order[h] as int]);
        }
    }
    assert(kw >= c) by {
        if kw < c {
            assert(order[kw] == adj[0][kw]);
        }
    }
    // routes change only at w, and w is behind the node at work in the queue
    assert forall|p: int| 0 <= p <= h implies routes2[order[p] as int] == routes[order[p] as int] by {
        assert(order[p] != order[kw]);
    }
    assert forall|k: int| 0 <= k < order.len() && k != kw implies routes2[order[k] as int]
        == routes[order[k] as int] by {
        assert(order[k] != order[kw]);
    }
    assert(found(adj, dist, routes2, order)) by {
        assert forall|i: int, j: int| 0 <= i < c implies (#[trigger] has_bit(
            routes2[adj[0][i] as int],
            j,
        ) <==> j == i) by {
            assert(order[i] == adj[0][i]);
            assert(has_bit(routes[adj[0][i] as int], j) <==> j == i);
        }
        assert forall|v: int| 1 <= v < n && dist[v] == -1 implies #[trigger] routes2[v] == 0 by {
            assert(routes[v] == 0);
        }
    }
    assert forall|k: int| c <= k < order.len() implies #[trigger] has_feeder(
        adj,
        dist,
        order,
        k,
        h,
        t + 1,
    ) by {
        assert(has_feeder(adj, dist, order, k, h, t));
        let p = choose|p: int| #[trigger] feeds(adj, dist, order, p, k, h, t);
        lemma_feeds_step(adj, dist, order, p, k, h, t);
    }
    assert forall|p: int, e: int|
        0 <= p <= h && p < order.len() && 0 <= e < adj[order[p] as int].len() && (p < h || e < t + 1)
            && (#[trigger] adj[order[p] as int][e]) != 0 implies 1 <= dist[adj[order[p] as int][e] as int]
        <= dist[order[p] as int] + 1 by {
    }
    assert forall|k: int, j: int| c <= k < order.len() implies (#[trigger] has_bit(
        routes2[order[k] as int],
        j,
    ) <==> exists|p: int| #[trigger]
        feeds(adj, dist, order, p, k, h, t + 1) && has_bit(routes2[order[p] as int], j)) by {
        lemma_bit_or(routes[w as int], routes[cur], j);
        let old_side = exists|p: int| #[trigger]
            feeds(adj, dist, order, p, k, h, t) && has_bit(routes[order[p] as int], j);
        assert(has_bit(routes[order[k] as int], j) <==> old_side);
        let new_side = exists|p: int| #[trigger]
            feeds(adj, dist, order, p, k, h, t + 1) && has_bit(routes2[order[p] as int], j);
        if old_side {
            let p = choose|p: int| #[trigger]
                feeds(adj, dist, order, p, k, h, t) && has_bit(routes[order[p] as int], j);
            lemma_feeds_step(adj, dist, order, p, k, h, t);
            assert(feeds(adj, dist, order, p, k, h, t + 1) && has_bit(routes2[order[p] as int], j));
        }
        if new_side {
            let p = choose|p: int| #[trigger]
                feeds(adj, dist, order, p, k, h, t + 1) && has_bit(routes2[order[p] as int], j);
            lemma_feeds_step(adj, dist, order, p, k, h, t);
            if feeds(adj, dist, order, p, k, h, t) {
                assert(old_side);
            } else {
                assert(p == h && order[k] == w);
                assert(k == kw);
                assert(has_bit(routes[cur], j));
            }
        }
        if k == kw {
            if has_bit(routes[cur], j) {
                lemma_feeds_step(adj, dist, order, h, k, h, t);
                assert(feeds(adj, dist, order, h, k, h, t + 1) && has_bit(routes2[order[h] as int], j));
            }
        }
    }
}

/// Following a link to a node not found before finds it: one step further
/// than the node at work, at the end of the queue, with the bits of the node
/// at work.
proof fn lemma_visit_new(
    adj: Seq<Seq<u32>>,
    dist: Seq<i32>,
    routes: Seq<u128>,
    order: Seq<u32>,
    h: int,
    t: int,
    dist2: Seq<i32>,
    routes2: Seq<u128>,
    order2: Seq<u32>,
)
    requires
        links_ok(adj),
        searching(adj, dist, routes, order, h, t),
        0 <= h < order.len(),
        0 <= t < adj[order[h] as int].len(),
        dist[adj[order[h] as int][t] as int] == -1,
        dist2 == dist.update(adj[order[h] as int][t] as int, (dist[order[h] as int] + 1) as i32),
        order2 == order.push(adj[order[h] as int][t]),
        routes2 == routes.update(
            adj[order[h] as int][t] as int,
            routes[adj[order[h] as int][t] as int] | routes[order[h] as int],
        ),
    ensures
        searching(adj, dist2, routes2, order2, h, t + 1),
        order2.len() < adj.len(),
{
    let c = anchor_count(adj);
    let n = adj.len();
    let cur = order[h] as int;
    let w = adj[cur][t];
    let dc = dist[cur];
    let last = order.len() as int;
    assert(w != 0);
    assert(!order.contains(w)) by {
        if order.contains(w) {
            let k = lemma_place(order, w);
        }
    }
    assert(routes[w as int] == 0);
    assert forall|k: int| 0 <= k < last implies order2[k] == order[k] && order[k] != w && dist2[order[k] as int]
        == dist[order[k] as int] && routes2[order[k] as int] == routes[order[k] as int] by {
        assert(order.contains(order[k]));
    }
    assert(order2[last] == w);
    lemma_distinct_between(order, n as int);
    assert(dist[order[h] as int] <= h + 1);
    assert(dist2[w as int] == dc + 1);
    assert(order2.no_duplicates());
    assert(dist[order[h] as int] <= h + 1);
    assert(found(adj, dist2, routes2, order2)) by {
        assert forall|k: int| 0 <= k < order2.len() implies 0 < (#[trigger] order2[k]) < n && 1
            <= dist2[order2[k] as int] <= k + 1 by {
            if k < last {
                assert(order2[k] == order[k]);
            }
        }
        assert forall|v: int| 1 <= v < n implies #[trigger] dist2[v] == -1 || (dist2[v] >= 1
            && order2.contains(v as u32)) by {
            if v == w {
                assert(order2[last] == v as u32);
            } else if dist[v] != -1 {
                let k = lemma_place(order, v as u32);
                assert(order2[k] == v as u32);
            }
        }
        assert forall|v: int| 1 <= v < n && dist2[v] == -1 implies #[trigger] routes2[v] == 0 by {
            assert(routes[v] == 0);
        }
        assert forall|i: int| 0 <= i < c implies #[trigger] order2[i] == adj[0][i] && dist2[order2[i] as int]
            == 1 by {
            assert(order[i] == adj[0][i]);
        }
        assert forall|k: int| c <= k < order2.len() implies dist2[#[trigger] order2[k] as int]
            >= 2 by {
            if k < last {
                assert(order2[k] == order[k]);
            }
        }
        assert forall|k1: int, k2: int| 0 <= k1 <= k2 < order2.len() implies dist2[
            #[trigger] order2[k1] as int] <= dist2[#[trigger] order2[k2] as int] by {
            if k2 < last {
                assert(order2[k1] == order[k1] && order2[k2] == order[k2]);
            } else if k1 < last {
                assert(order2[k1] == order[k1]);
                assert(dist[order[k1] as int] <= dist[order[h] as int] + 1);
            }
        }
        assert forall|i: int, j: int| 0 <= i < c implies (#[trigger] has_bit(
            routes2[adj[0][i] as int],
            j,
        ) <==> j == i) by {
            assert(order[i] == adj[0][i]);
            assert(has_bit(routes[adj[0][i] as int], j) <==> j == i);
        }
    }
    lemma_distinct_between(order2, n as int);
    // what fed the nodes found before feeds them still, and nothing else does
    assert forall|p: int, k: int| 0 <= k < last implies (#[trigger] feeds(
        adj,
        dist2,
        order2,
        p,
        k,
        h,
        t + 1,
    ) <==> feeds(adj, dist, order, p, k, h, t)) by {
        lemma_feeds_step(adj, dist, order, p, k, h, t);
        if 0 <= p <= h {
            assert(order2[p] == order[p]);
        }
        assert(order2[k] == order[k]);
    }
    // the new node is fed by the node at work alone
    assert(feeds(adj, dist2, order2, h, last, h, t + 1)) by {
        lemma_take_step(adj[cur], t, w);
    }
    assert forall|p: int| #[trigger] feeds(adj, dist2, order2, p, last, h, t + 1) implies p == h by {
        if p < h {
            assert(order2[p] == order[p]);
            let e = adj[order[p] as int].index_of(w);
            assert(adj[order[p] as int][e] == w);
        }
    }
    assert forall|k: int| h < order2.len() && 0 <= k < order2.len() implies dist2[
        #[trigger] order2[k] as int] <= dist2[order2[h] as int] + 1 by {
        if k < last {
            assert(order2[k] == order[k]);
        }
    }
    assert forall|k: int| c <= k < order2.len() implies #[trigger] has_feeder(
        adj,
        dist2,
        order2,
        k,
        h,
        t + 1,
    ) by {
        if k < last {
            assert(has_feeder(adj, dist, order, k, h, t));
            let p = choose|p: int| #[trigger] feeds(adj, dist, order, p, k, h, t);
            assert(feeds(adj, dist2, order2, p, k, h, t + 1));
        }
    }
    assert forall|p: int, e: int|
        0 <= p <= h && p < order2.len() && 0 <= e < adj[order2[p] as int].len() && (p < h || e < t
            + 1) && (#[trigger] adj[order2[p] as int][e]) != 0 implies 1 <= dist2[adj[order2[p] as int][e] as int]
        <= dist2[order2[p] as int] + 1 by {
        assert(order2[p] == order[p]);
        if p != h || e != t {
            assert(adj[order[p] as int][e] != 0);
            assert(1 <= dist[adj[order[p] as int][e] as int]);
        }
    }
    assert forall|k: int, j: int| c <= k < order2.len() implies (#[trigger] has_bit(
        routes2[order2[k] as int],
        j,
    ) <==> exists|p: int| #[trigger]
        feeds(adj, dist2, order2, p, k, h, t + 1) && has_bit(routes2[order2[p] as int], j)) by {
        let new_side = exists|p: int| #[trigger]
            feeds(adj, dist2, order2, p, k, h, t + 1) && has_bit(routes2[order2[p] as int], j);
        if k < last {
            let old_side = exists|p: int| #[trigger]
                feeds(adj, dist, order, p, k, h, t) && has_bit(routes[order[p] as int], j);
            assert(order2[k] == order[k]);
            assert(has_bit(routes[order[k] as int], j) <==> old_side);
            if old_side {
                let p = choose|p: int| #[trigger]
                    feeds(adj, dist, order, p, k, h, t) && has_bit(routes[order[p] as int], j);
                assert(feeds(adj, dist2, order2, p, k, h, t + 1));
                assert(order2[p] == order[p]);
            }
            if new_side {
                let p = choose|p: int| #[trigger]
                    feeds(adj, dist2, order2, p, k, h, t + 1) && has_bit(routes2[order2[p] as int], j);
                assert(feeds(adj, dist, order, p, k, h, t));
                assert(order2[p] == order[p]);
            }
        } else {
            lemma_bit_or(routes[w as int], routes[cur], j);
            lemma_bit_zero(j);
            assert(order2[h] == order[h]);
            assert(has_bit(routes2[w as int], j) <==> has_bit(routes[cur], j));
            if has_bit(routes[cur], j) {
                assert(feeds(adj, dist2, order2, h, last, h, t + 1) && has_bit(
                    routes2[order2[h] as int],
                    j,
                ));
            }
            if new_side {
                let p = choose|p: int| #[trigger]
                    feeds(adj, dist2, order2, p, k, h, t + 1) && has_bit(routes2[order2[p] as int], j);
                assert(p == h);
            }
        }
    }
}


/// The adjacency lists as sequences.
pub open spec fn lists(adjacency: &Vec<Vec<u32>>) -> Seq<Seq<u32>> {
    Seq::new(adjacency@.len(), |i: int| adjacency@[i]@)
}

/// What holds while the first hops are put into the queue, `i` of them so far.
pub open spec fn seeding(
    adj: Seq<Seq<u32>>,
    dist: Seq<i32>,
    routes: Seq<u128>,
    order: Seq<u32>,
    i: int,
) -> bool {
    let n = adj.len();
    &&& dist.len() == n
    &&& routes.len() == n
    &&& dist[0] == 0
    &&& 0 <= i <= anchor_count(adj)
    &&& order == adj[0].take(i)
    &&& forall|v: int|
        1 <= v < n ==> #[trigger] dist[v] == (if adj[0].take(i).contains(v as u32) {
            1i32
        } else {
            -1i32
        })
    &&& forall|v: int| 1 <= v < n && dist[v] == -1 ==> #[trigger] routes[v] == 0
    &&& forall|m: int, j: int|
        0 <= m < i ==> (#[trigger] has_bit(routes[adj[0][m] as int], j) <==> j == m)
}

/// Putting one more first hop into the queue.
proof fn lemma_seed(
    adj: Seq<Seq<u32>>,
    dist: Seq<i32>,
    routes: Seq<u128>,
    order: Seq<u32>,
    i: int,
    dist2: Seq<i32>,
    routes2: Seq<u128>,
    order2: Seq<u32>,
)
    requires
        links_ok(adj),
        seeding(adj, dist, routes, order, i),
        i < anchor_count(adj),
        dist2 == dist.update(adj[0][i] as int, 1i32),
        routes2 == routes.update(adj[0][i] as int, 1u128 << (i as u128)),
        order2 == order.push(adj[0][i]),
    ensures
        seeding(adj, dist2, routes2, order2, i + 1),
{
    let n = adj.len();
    let w = adj[0][i];
    assert(order2 =~= adj[0].take(i + 1));
    assert(!adj[0].take(i).contains(w)) by {
        if adj[0].take(i).contains(w) {
            let e = adj[0].take(i).index_of(w);
            assert(adj[0][e] == w);
        }
    }
    assert forall|v: int| 1 <= v < n implies #[trigger] dist2[v] == (if adj[0].take(i + 1).contains(
        v as u32,
    ) {
        1i32
    } else {
        -1i32
    }) by {
        lemma_take_step(adj[0], i, v as u32);
    }
    assert forall|m: int, j: int| 0 <= m < i + 1 implies (#[trigger] has_bit(
        routes2[adj[0][m] as int],
        j,
    ) <==> j == m) by {
        if m == i {
            lemma_bit_single(i, j);
        } else {
            assert(adj[0][m] != adj[0][i]);
            assert(has_bit(routes[adj[0][m] as int], j) <==> j == m);
        }
    }
}

/// With all first hops in the queue the search can begin.
proof fn lemma_seeded(adj: Seq<Seq<u32>>, dist: Seq<i32>, routes: Seq<u128>, order: Seq<u32>)
    requires
        links_ok(adj),
        seeding(adj, dist, routes, order, anchor_count(adj)),
    ensures
        searching(adj, dist, routes, order, 0, 0),
        order.len() < adj.len(),
{
    let n = adj.len();
    let c = anchor_count(adj);
    assert forall|k: int| 0 <= k < order.len() implies 0 < (#[trigger] order[k]) < n && 1
        <= dist[order[k] as int] <= k + 1 by {
        assert(order[k] == adj[0][k]);
        assert(adj[0].take(c)[k] == order[k]);
        assert(adj[0].take(c).contains(order[k]));
    }
    assert(order.no_duplicates()) by {
        assert forall|a: int, b: int| 0 <= a < order.len() && 0 <= b < order.len() && a != b implies order[a]
            != order[b] by {
            assert(order[a] == adj[0][a] && order[b] == adj[0][b]);
        }
    }
    assert forall|k1: int, k2: int| 0 <= k1 <= k2 < order.len() implies dist[
        #[trigger] order[k1] as int] <= dist[#[trigger] order[k2] as int] by {
        assert(adj[0].take(c).contains(order[k1]));
        assert(adj[0].take(c).contains(order[k2]));
    }
    assert forall|i: int| 0 <= i < c implies #[trigger] order[i] == adj[0][i] && dist[order[i] as int]
        == 1 by {
        assert(adj[0].take(c).contains(order[i]));
    }
    assert(found(adj, dist, routes, order));
    lemma_distinct_between(order, n as int);
    assert forall|k: int| 0 < order.len() && 0 <= k < order.len() implies dist[
        #[trigger] order[k] as int] <= dist[order[0] as int] + 1 by {
        assert(adj[0].take(c).contains(order[k]));
        assert(adj[0].take(c).contains(order[0]));
    }
}

/// A vector of `n` entries, each `value`.
fn filled_i32(n: usize, value: i32) -> (v: Vec<i32>)
    ensures
        v@.len() == n,
        forall|i: int| 0 <= i < n ==> v@[i] == value,
{
    let mut v: Vec<i32> = Vec::with_capacity(n);
    while v.len() < n
        invariant
            v@.len() <= n,
            forall|i: int| 0 <= i < v@.len() ==> v@[i] == value,
        decreases n - v@.len(),
    {
        v.push(value);
    }
    v
}

/// A vector of `n` entries, each 0.
fn zeroed_u128(n: usize) -> (v: Vec<u128>)
    ensures
        v@.len() == n,
        forall|i: int| 0 <= i < n ==> v@[i] == 0,
{
    let mut v: Vec<u128> = Vec::with_capacity(n);
    while v.len() < n
        invariant
            v@.len() <= n,
            forall|i: int| 0 <= i < v@.len() ==> v@[i] == 0,
        decreases n - v@.len(),
    {
        v.push(0);
    }
    v
}

/// Searches the graph breadth first from node 0. Returns for every node its
/// distance from node 0 (-1 where there is no walk to it) and, as a set of
/// bits, through which first hops the shortest walks to it begin.
pub fn search(adjacency: &Vec<Vec<u32>>) -> (result: (Vec<i32>, Vec<u128>))
    requires
        links_ok(lists(adjacency)),
    ensures
        settled(lists(adjacency), result.0@, result.1@),
{
    let ghost adj = lists(adjacency);
    let nodes = adjacency.len();
    let mut distance = filled_i32(nodes, -1);
    let mut routes = zeroed_u128(nodes);
    let mut queue: Vec<u32> = Vec::new();
    distance[0] = 0;
    proof {
        assert(adj[0].take(0) =~= Seq::<u32>::empty());
        assert(queue@ =~= adj[0].take(0));
    }
    let mut id: usize = 0;
    while id < adjacency[0].len() && id < MAX_ANCHORS
        invariant
            adj == lists(adjacency),
            links_ok(adj),
            seeding(adj, distance@, routes@, queue@, id as int),
        ensures
            id == anchor_count(adj),
        decreases MAX_ANCHORS - id,
    {
        let neighbor = adjacency[0][id];
        assert(neighbor == adj[0][id as int]);
        let ghost dist0 = distance@;
        let ghost routes0 = routes@;
        let ghost queue0 = queue@;
        queue.push(neighbor);
        distance[neighbor as usize] = 1;
        routes[neighbor as usize] = 1u128 << id;
        proof {
            assert(1u128 << id == 1u128 << (id as u128));
            lemma_seed(adj, dist0, routes0, queue0, id as int, distance@, routes@, queue@);
        }
        id += 1;
    }
    proof {
        lemma_seeded(adj, distance@, routes@, queue@);
    }
    let mut head: usize = 0;
    while head < queue.len()
        invariant
            adj == lists(adjacency),
            links_ok(adj),
            searching(adj, distance@, routes@, queue@, head as int, 0),
            queue@.len() < adj.len(),
        decreases adj.len() - head,
    {
        let cur = queue[head] as usize;
        let cur_distance = distance[cur];
        let mut t: usize = 0;
        while t < adjacency[cur].len()
            invariant
                adj == lists(adjacency),
                links_ok(adj),
                head < queue@.len(),
                cur == queue@[head as int],
                cur < adj.len(),
                cur_distance == distance@[cur as int],
                searching(adj, distance@, routes@, queue@, head as int, t as int),
                queue@.len() < adj.len(),
            decreases adj[cur as int].len() - t,
        {
            let neighbor = adjacency[cur][t] as usize;
            assert(neighbor == adj[cur as int][t as int]);
            let ghost dist0 = distance@;
            let ghost routes0 = routes@;
            let ghost queue0 = queue@;
            assert(cur_distance <= head + 1);
            let fresh = distance[neighbor] == -1;
            if fresh {
                distance[neighbor] = cur_distance + 1;
                queue.push(neighbor as u32);
            }
            if distance[neighbor] == cur_distance + 1 {
                routes[neighbor] |= routes[cur];
            }
            proof {
                if fresh {
                    assert(neighbor != cur);
                    lemma_visit_new(
                        adj,
                        dist0,
                        routes0,
                        queue0,
                        head as int,
                        t as int,
                        distance@,
                        routes@,
                        queue@,
                    );
                } else if dist0[neighbor as int] == cur_distance + 1 {
                    lemma_visit_again(adj, dist0, routes0, queue0, head as int, t as int, routes@);
                } else {
                    lemma_visit_none(adj, dist0, routes0, queue0, head as int, t as int);
                }
            }
            t += 1;
        }
        proof {
            lemma_next_node(adj, distance@, routes@, queue@, head as int);
        }
        head += 1;
    }
    proof {
        lemma_search_over(adj, distance@, routes@, queue@);
    }
    (distance, routes)
}

} // verus!
