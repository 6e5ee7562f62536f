//! The overlay graph: which peers are linked, kept under small integer ids.

use vstd::prelude::*;
use crate::keys::{peer_views, PeerId};
use crate::shortest::{
    anchor_count, has_bit, is_walk, lemma_bit_nonzero, lemma_walk_exists, lemma_walk_is_long,
    lemma_walk_sets_bit, links_ok, lists, search, settled,
};
use crate::vec_map::{lemma_filter_distinct, VecMap};

verus! {

/// The most neighbours of the source that take part in the search for routes.
pub const MAX_NUM_PEERS: usize = 128;

/// The most ids that a graph gives out.
pub const MAX_PEER_IDS: usize = 0x7fff_ffff;

/// The most links that a graph counts.
pub const MAX_EDGES: u64 = 0x7fff_ffff_ffff_ffff;

/// The number of peers without a route above which the graph is worth a
/// warning.
pub const UNREACHABLE_PEERS_WARNING: usize = 1000;

/// The sum of the lengths of the adjacency lists.
pub open spec fn degree_sum(adjacency: Seq<Seq<u32>>) -> nat
    decreases adjacency.len(),
{
    if adjacency.len() == 0 {
        0
    } else {
        degree_sum(adjacency.drop_last()) + adjacency.last().len()
    }
}

/// Replacing one adjacency list changes the sum by the change of its length.
pub proof fn lemma_degree_sum_update(adjacency: Seq<Seq<u32>>, i: int, list: Seq<u32>)
    requires
        0 <= i < adjacency.len(),
    ensures
        degree_sum(adjacency.update(i, list)) + adjacency[i].len() == degree_sum(adjacency)
            + list.len(),
    decreases adjacency.len(),
{
    let updated = adjacency.update(i, list);
    if i == adjacency.len() - 1 {
        assert(updated.drop_last() =~= adjacency.drop_last());
    } else {
        assert(updated.drop_last() =~= adjacency.drop_last().update(i, list));
        lemma_degree_sum_update(adjacency.drop_last(), i, list);
    }
}

/// A new, empty adjacency list adds nothing to the sum.
pub proof fn lemma_degree_sum_push(adjacency: Seq<Seq<u32>>, list: Seq<u32>)
    ensures
        degree_sum(adjacency.push(list)) == degree_sum(adjacency) + list.len(),
{
    assert(adjacency.push(list).drop_last() =~= adjacency);
}

/// The sum over the first `k` lists is at most the sum over all of them.
pub proof fn lemma_degree_sum_prefix(adjacency: Seq<Seq<u32>>, k: int)
    requires
        0 <= k <= adjacency.len(),
    ensures
        degree_sum(adjacency.take(k)) <= degree_sum(adjacency),
    decreases adjacency.len() - k,
{
    if k < adjacency.len() {
        assert(adjacency.take(k + 1).drop_last() =~= adjacency.take(k));
        lemma_degree_sum_prefix(adjacency, k + 1);
    } else {
        assert(adjacency.take(k) =~= adjacency);
    }
}

/// `list` without its entry `x`, the other entries in their order.
pub open spec fn without(list: Seq<Seq<u8>>, x: Seq<u8>) -> Seq<Seq<u8>> {
    if list.contains(x) {
        list.remove(list.index_of(x))
    } else {
        list
    }
}

/// The graph of links between peers, seen from one peer, the source.
///
/// Each peer that has a link, and the source, holds an id; the links of a
/// peer are the ids in its adjacency list, in the order in which they were
/// added. Ids of peers that lost their last link are kept for reuse.
#[derive(Clone)]
pub struct Graph {
    my_peer_id: PeerId,
    source_id: u32,
    id2p: Vec<PeerId>,
    used: Vec<bool>,
    unused: Vec<u32>,
    adjacency: Vec<Vec<u32>>,
    total_active_edges: u64,
}

impl Graph {
    /// The adjacency lists by id.
    pub closed spec fn adj(&self) -> Seq<Seq<u32>> {
        Seq::new(self.adjacency@.len(), |i: int| self.adjacency@[i]@)
    }

    /// The id `i` is in use and belongs to `peer`.
    pub closed spec fn holds(&self, i: int, peer: Seq<u8>) -> bool {
        0 <= i < self.id2p@.len() && self.used@[i] && self.id2p@[i]@ == peer
    }

    /// Whether `peer` has an id: it is the source or has a link.
    pub closed spec fn knows(&self, peer: Seq<u8>) -> bool {
        exists|i: int| self.holds(i, peer)
    }

    /// The id of `peer`.
    pub closed spec fn id_of(&self, peer: Seq<u8>) -> int {
        choose|i: int| self.holds(i, peer)
    }

    /// The peer this graph is seen from.
    pub closed spec fn source(&self) -> Seq<u8> {
        self.my_peer_id@
    }

    /// The peers linked to `peer`, in the order in which the links were added.
    pub closed spec fn neighbors(&self, peer: Seq<u8>) -> Seq<Seq<u8>> {
        if self.knows(peer) {
            let list = self.adjacency@[self.id_of(peer)]@;
            Seq::new(list.len(), |k: int| self.id2p@[list[k] as int]@)
        } else {
            Seq::empty()
        }
    }

    /// Whether `a` and `b` are linked.
    pub open spec fn has_edge(&self, a: Seq<u8>, b: Seq<u8>) -> bool {
        self.neighbors(a).contains(b)
    }

    /// The number of links.
    pub closed spec fn edge_count(&self) -> nat {
        self.total_active_edges as nat
    }

    /// Twice the number of links: the sum of the lengths of all adjacency lists.
    pub closed spec fn degrees(&self) -> nat {
        degree_sum(self.adj())
    }

    /// How many ids the graph has given out: one to the source, and one for
    /// every peer that came while no id was free. An id that a peer gives up
    /// is kept and given out again.
    pub closed spec fn id_count(&self) -> nat {
        self.id2p@.len()
    }

    /// Whether the graph has room for one more link between two new peers:
    /// two more ids can be given out and one more link counted.
    pub open spec fn room(&self) -> bool {
        self.id_count() + 2 <= MAX_PEER_IDS && self.edge_count() < MAX_EDGES
    }

    /// What holds of the ids at every moment: the source has id 0, peers in
    /// use are distinct, the free list names the ids not in use, and the
    /// adjacency lists are symmetric, without loops and without repeats.
    pub closed spec fn wf_ids(&self) -> bool {
        let n = self.id2p@.len();
        &&& n == self.used@.len()
        &&& n == self.adjacency@.len()
        &&& 1 <= n <= 0x7fff_ffff
        &&& self.source_id == 0
        &&& self.used@[0]
        &&& self.id2p@[0]@ == self.my_peer_id@
        &&& forall|i: int, j: int|
            0 <= i < n && 0 <= j < n && i != j && self.used@[i] && self.used@[j]
                ==> self.id2p@[i]@ != self.id2p@[j]@
        &&& self.unused@.no_duplicates()
        &&& forall|k: int|
            0 <= k < self.unused@.len() ==> (#[trigger] self.unused@[k]) < n
                && !self.used@[self.unused@[k] as int]
        &&& forall|i: int| 0 <= i < n && !self.used@[i] ==> self.unused@.contains(i as u32)
        &&& forall|i: int| 0 <= i < n ==> (#[trigger] self.adjacency@[i])@.no_duplicates()
        &&& forall|i: int, k: int|
            0 <= i < n && 0 <= k < self.adjacency@[i]@.len() ==> {
                let x = #[trigger] self.adjacency@[i]@[k];
                &&& x < n
                &&& x != i
                &&& self.used@[i]
                &&& self.used@[x as int]
                &&& self.adjacency@[x as int]@.contains(i as u32)
            }
        &&& degree_sum(self.adj()) == 2 * self.total_active_edges
        &&& self.total_active_edges <= 0x7fff_ffff_ffff_ffff
    }

    /// The graph is well formed: the ids are in order, and every peer but the
    /// source keeps its id only while it has a link.
    pub closed spec fn wf(&self) -> bool {
        &&& self.wf_ids()
        &&& forall|i: int|
            1 <= i < self.id2p@.len() && self.used@[i] ==> (#[trigger] self.adjacency@[i])@.len()
                > 0
    }

    /// The graph of `source` alone, without links.
    pub fn new(source: PeerId) -> (graph: Graph)
        ensures
            graph.wf(),
            graph.source() == source@,
            graph.edge_count() == 0,
            graph.id_count() == 1,
            graph.room(),
            forall|peer: Seq<u8>| graph.neighbors(peer) == Seq::<Seq<u8>>::empty(),
    {
        let mut id2p: Vec<PeerId> = Vec::new();
        id2p.push(source.dup());
        let mut adjacency: Vec<Vec<u32>> = Vec::new();
        adjacency.push(Vec::new());
        let mut used: Vec<bool> = Vec::new();
        used.push(true);
        let graph = Graph {
            my_peer_id: source,
            source_id: 0,
            id2p,
            used,
            unused: Vec::new(),
            adjacency,
            total_active_edges: 0,
        };
        proof {
            assert(graph.adj() =~= seq![Seq::<u32>::empty()]);
            assert(graph.adj().drop_last() =~= Seq::<Seq<u32>>::empty());
            assert(degree_sum(graph.adj().drop_last()) == 0);
            assert(degree_sum(graph.adj()) == 0);
            assert forall|peer: Seq<u8>| graph.neighbors(peer) == Seq::<Seq<u8>>::empty() by {
                if graph.knows(peer) {
                    let i = graph.id_of(peer);
                    assert(graph.holds(i, peer));
                    assert(graph.neighbors(peer) =~= Seq::<Seq<u8>>::empty());
                }
            }
        }
        graph
    }

    /// The peer this graph is seen from.
    pub fn my_peer_id(&self) -> (peer: &PeerId)
        ensures
            peer@ == self.source(),
    {
        &self.my_peer_id
    }

    /// The number of links, as counted while they were added and removed.
    pub fn total_active_edges(&self) -> (total: u64)
        ensures
            total == self.edge_count(),
    {
        self.total_active_edges
    }

    /// The number of links, counted anew: half the sum of the lengths of the
    /// adjacency lists. It is the number that was kept.
    pub fn compute_total_active_edges(&self) -> (total: u64)
        requires
            self.wf(),
        ensures
            2 * total == self.degrees(),
            total == self.edge_count(),
    {
        let mut result: u64 = 0;
        let mut i: usize = 0;
        while i < self.adjacency.len()
            invariant
                i <= self.adjacency@.len(),
                result == degree_sum(self.adj().take(i as int)),
                degree_sum(self.adj()) == 2 * self.total_active_edges,
                self.total_active_edges <= 0x7fff_ffff_ffff_ffff,
            decreases self.adjacency@.len() - i,
        {
            proof {
                assert(self.adj().take(i + 1).drop_last() =~= self.adj().take(i as int));
                assert(self.adj().take(i + 1).last() == self.adjacency@[i as int]@);
                lemma_degree_sum_prefix(self.adj(), i + 1);
                assert(degree_sum(self.adj().take(i + 1)) == result + self.adjacency@[i as int]@.len());
            }
            result = result + self.adjacency[i].len() as u64;
            i += 1;
        }
        proof {
            assert(self.adj().take(i as int) =~= self.adj());
        }
        result / 2
    }

    /// The id of `peer`, if it has one.
    fn find_id(&self, peer: &PeerId) -> (id: Option<u32>)
        requires
            self.wf_ids(),
        ensures
            id.is_some() == self.knows(peer@),
            id matches Some(i) ==> self.holds(i as int, peer@) && i == self.id_of(peer@),
    {
        let mut i: usize = 0;
        while i < self.id2p.len()
            invariant
                self.wf_ids(),
                i <= self.id2p@.len(),
                forall|j: int| 0 <= j < i ==> !self.holds(j, peer@),
            decreases self.id2p@.len() - i,
        {
            if self.used[i] && self.id2p[i].same(peer) {
                proof {
                    assert(self.holds(i as int, peer@));
                    let j = self.id_of(peer@);
                    assert(self.holds(j, peer@));
                }
                return Some(i as u32);
            }
            i += 1;
        }
        None
    }

    /// Whether `list` holds `x`, and where.
    fn position(list: &Vec<u32>, x: u32) -> (at: Option<usize>)
        ensures
            at.is_some() == list@.contains(x),
            at matches Some(k) ==> k < list@.len() && list@[k as int] == x,
    {
        let mut k: usize = 0;
        while k < list.len()
            invariant
                k <= list@.len(),
                forall|j: int| 0 <= j < k ==> list@[j] != x,
            decreases list@.len() - k,
        {
            if list[k] == x {
                return Some(k);
            }
            k += 1;
        }
        None
    }

    /// In a graph whose ids are in order, `peer` with id `i` has the
    /// neighbours that the adjacency list of `i` names.
    proof fn lemma_neighbors(&self, i: int, peer: Seq<u8>)
        requires
            self.wf_ids(),
            self.holds(i, peer),
        ensures
            self.knows(peer),
            self.id_of(peer) == i,
            self.neighbors(peer).len() == self.adjacency@[i]@.len(),
            forall|k: int|
                0 <= k < self.adjacency@[i]@.len() ==> #[trigger] self.neighbors(peer)[k]
                    == self.id2p@[self.adjacency@[i]@[k] as int]@,
            forall|x: u32|
                0 <= x < self.id2p@.len() && self.used@[x as int] ==> (
                #[trigger] self.adjacency@[i]@.contains(x) <==> self.neighbors(peer).contains(
                    self.id2p@[x as int]@,
                )),
    {
        let j = self.id_of(peer);
        assert(self.holds(j, peer));
        let list = self.adjacency@[i]@;
        let names = self.neighbors(peer);
        assert forall|x: u32| 0 <= x < self.id2p@.len() && self.used@[x as int] implies (
        #[trigger] list.contains(x) <==> names.contains(self.id2p@[x as int]@)) by {
            if list.contains(x) {
                let k = list.index_of(x);
                assert(names[k] == self.id2p@[x as int]@);
            }
            if names.contains(self.id2p@[x as int]@) {
                let k = names.index_of(self.id2p@[x as int]@);
                let y = list[k];
                assert(self.used@[y as int]);
                assert(y == x);
            }
        }
    }

    /// Whether `peer0` and `peer1` are linked.
    pub fn contains_edge(&self, peer0: &PeerId, peer1: &PeerId) -> (linked: bool)
        requires
            self.wf(),
        ensures
            linked == self.has_edge(peer0@, peer1@),
            linked == self.has_edge(peer1@, peer0@),
    {
        proof {
            self.lemma_symmetric(peer0@, peer1@);
        }
        match self.find_id(peer0) {
            Some(id0) => match self.find_id(peer1) {
                Some(id1) => {
                    proof {
                        self.lemma_neighbors(id0 as int, peer0@);
                    }
                    Self::position(&self.adjacency[id0 as usize], id1).is_some()
                },
                None => {
                    proof {
                        self.lemma_neighbors(id0 as int, peer0@);
                        if self.has_edge(peer0@, peer1@) {
                            let k = self.neighbors(peer0@).index_of(peer1@);
                            let x = self.adjacency@[id0 as int]@[k];
                            assert(self.holds(x as int, peer1@));
                        }
                    }
                    false
                },
            },
            None => {
                proof {
                    assert(self.neighbors(peer0@) =~= Seq::<Seq<u8>>::empty());
                }
                false
            },
        }
    }

    /// Two graphs have the same source, the same links in the same order and
    /// the same number of links.
    pub open spec fn same_links(&self, other: Graph) -> bool {
        &&& self.source() == other.source()
        &&& self.edge_count() == other.edge_count()
        &&& forall|peer: Seq<u8>| self.neighbors(peer) == other.neighbors(peer)
    }

    /// `after` is `before` with `a` and `b` linked: nothing changes where they
    /// were linked already; else each becomes the last neighbour of the other
    /// and there is one link more.
    pub open spec fn edge_added(before: Graph, after: Graph, a: Seq<u8>, b: Seq<u8>) -> bool {
        if before.has_edge(a, b) {
            after.same_links(before)
        } else {
            &&& after.source() == before.source()
            &&& after.edge_count() == before.edge_count() + 1
            &&& after.neighbors(a) == before.neighbors(a).push(b)
            &&& after.neighbors(b) == before.neighbors(b).push(a)
            &&& forall|peer: Seq<u8>|
                peer != a && peer != b ==> after.neighbors(peer) == before.neighbors(peer)
        }
    }

    /// `after` is `before` without the link between `a` and `b`: nothing
    /// changes where they were not linked; else each leaves the neighbours of
    /// the other and there is one link less.
    pub open spec fn edge_removed(before: Graph, after: Graph, a: Seq<u8>, b: Seq<u8>) -> bool {
        if !before.has_edge(a, b) {
            after.same_links(before)
        } else {
            &&& after.source() == before.source()
            &&& after.edge_count() + 1 == before.edge_count()
            &&& after.neighbors(a) == without(before.neighbors(a), b)
            &&& after.neighbors(b) == without(before.neighbors(b), a)
            &&& forall|peer: Seq<u8>|
                peer != a && peer != b ==> after.neighbors(peer) == before.neighbors(peer)
        }
    }

    /// `after` is `before` once `peer` has the id `id`: either nothing changed,
    /// or `id` was free or new and now belongs to `peer`, with an empty
    /// adjacency list, and nothing else changed.
    spec fn gave_id(before: Graph, after: Graph, peer: Seq<u8>, id: int) -> bool {
        &&& after.holds(id, peer)
        &&& after.my_peer_id == before.my_peer_id
        &&& after.total_active_edges == before.total_active_edges
        &&& before.id2p@.len() <= after.id2p@.len() <= before.id2p@.len() + 1
        &&& before.knows(peer) ==> after == before
        &&& !before.knows(peer) ==> after.adjacency@[id]@.len() == 0 && (id < before.id2p@.len()
            ==> !before.used@[id])
        &&& forall|i: int|
            0 <= i < before.id2p@.len() ==> (#[trigger] after.adjacency@[i])
                == before.adjacency@[i]
        &&& forall|i: int|
            0 <= i < before.id2p@.len() && #[trigger] before.used@[i] ==> after.used@[i]
                && after.id2p@[i]@ == before.id2p@[i]@
        &&& forall|i: int|
            0 <= i < after.id2p@.len() && #[trigger] after.used@[i] && i != id ==> i
                < before.id2p@.len() && before.used@[i]
    }

    /// The id of `peer`; a peer without one gets an id that is free, or a new
    /// one, with an empty adjacency list.
    fn get_id(&mut self, peer: &PeerId) -> (id: u32)
        requires
            old(self).wf_ids(),
            old(self).id2p@.len() < 0x7fff_ffff,
        ensures
            final(self).wf_ids(),
            Self::gave_id(*old(self), *final(self), peer@, id as int),
    {
        match self.find_id(peer) {
            Some(id) => id,
            None => {
                let ghost before = *self;
                assert(forall|i: int| !before.holds(i, peer@));
                let val = if self.unused.len() > 0 {
                    let val = self.unused.pop().unwrap();
                    proof {
                        assert(before.unused@[before.unused@.len() - 1] == val);
                        assert(!before.used@[val as int]);
                        assert(before.adjacency@[val as int]@.len() == 0) by {
                            if before.adjacency@[val as int]@.len() > 0 {
                                let x = before.adjacency@[val as int]@[0];
                            }
                        }
                    }
                    self.id2p[val as usize] = peer.dup();
                    self.used[val as usize] = true;
                    val
                } else {
                    let val = self.id2p.len() as u32;
                    self.id2p.push(peer.dup());
                    self.used.push(true);
                    self.adjacency.push(Vec::new());
                    proof {
                        assert(self.adj() =~= before.adj().push(Seq::<u32>::empty()));
                        lemma_degree_sum_push(before.adj(), Seq::<u32>::empty());
                    }
                    val
                };
                proof {
                    let n = self.id2p@.len();
                    assert(self.holds(val as int, peer@));
                    assert forall|i: int, j: int|
                        0 <= i < n && 0 <= j < n && i != j && self.used@[i] && self.used@[j]
                        implies self.id2p@[i]@ != self.id2p@[j]@ by {
                        if i != val && j != val {
                            assert(before.used@[i] && before.used@[j]);
                        } else if i == val {
                            assert(!before.holds(j, peer@));
                        } else {
                            assert(!before.holds(i, peer@));
                        }
                    }
                    assert forall|k: int| 0 <= k < self.unused@.len() implies (
                    #[trigger] self.unused@[k]) < n && !self.used@[self.unused@[k] as int] by {
                        assert(before.unused@[k] == self.unused@[k]);
                        if before.unused@.len() > 0 {
                            assert(before.unused@[before.unused@.len() - 1] == val);
                        }
                    }
                    assert forall|i: int| 0 <= i < n && !self.used@[i] implies self.unused@.contains(
                        i as u32,
                    ) by {
                        assert(before.unused@.contains(i as u32));
                        let k = before.unused@.index_of(i as u32);
                        assert(self.unused@[k] == i as u32);
                    }
                    assert(self.adj() =~= before.adj() || self.adj() =~= before.adj().push(
                        Seq::<u32>::empty(),
                    ));
                    assert forall|i: int, k: int|
                        0 <= i < n && 0 <= k < self.adjacency@[i]@.len() implies {
                        let x = #[trigger] self.adjacency@[i]@[k];
                        &&& x < n
                        &&& x != i
                        &&& self.used@[i]
                        &&& self.used@[x as int]
                        &&& self.adjacency@[x as int]@.contains(i as u32)
                    } by {
                        let x = before.adjacency@[i]@[k];
                        assert(before.adjacency@[x as int]@.contains(i as u32));
                    }
                }
                val
            },
        }
    }

    /// Giving an id to a peer changes no neighbours.
    proof fn lemma_gave_id(before: Graph, after: Graph, peer: Seq<u8>, id: int)
        requires
            before.wf_ids(),
            after.wf_ids(),
            Self::gave_id(before, after, peer, id),
        ensures
            forall|p: Seq<u8>| after.neighbors(p) == before.neighbors(p),
            forall|p: Seq<u8>, i: int| #[trigger] before.holds(i, p) ==> after.holds(i, p),
            forall|p: Seq<u8>, i: int|
                #[trigger] after.holds(i, p) && i != id ==> before.holds(i, p),
    {
        if !before.knows(peer) {
            assert forall|p: Seq<u8>| after.neighbors(p) == before.neighbors(p) by {
                if before.knows(p) {
                    let i = before.id_of(p);
                    assert(before.holds(i, p));
                    assert(before.used@[i]);
                    assert(after.holds(i, p));
                    before.lemma_neighbors(i, p);
                    after.lemma_neighbors(i, p);
                    assert forall|k: int| 0 <= k < before.adjacency@[i]@.len() implies after.neighbors(
                        p,
                    )[k] == before.neighbors(p)[k] by {
                        let x = before.adjacency@[i]@[k];
                        assert(before.used@[x as int]);
                    }
                    assert(after.neighbors(p) =~= before.neighbors(p));
                } else if after.knows(p) {
                    let i = after.id_of(p);
                    assert(after.holds(i, p));
                    if i != id {
                        assert(after.used@[i]);
                        assert(before.used@[i]);
                        assert(before.holds(i, p));
                    }
                    after.lemma_neighbors(id, peer);
                    assert(after.neighbors(p) =~= before.neighbors(p));
                }
            }
            assert forall|p: Seq<u8>, i: int| #[trigger] before.holds(i, p) implies after.holds(
                i,
                p,
            ) by {
                assert(before.used@[i]);
            }
            assert forall|p: Seq<u8>, i: int| #[trigger] after.holds(i, p) && i != id
                implies before.holds(i, p) by {
                assert(after.used@[i]);
                assert(before.used@[i]);
            }
        }
    }

    /// Whether the graph has room for one more link between two new peers.
    pub fn has_room(&self) -> (room: bool)
        ensures
            room == self.room(),
    {
        self.id2p.len() <= MAX_PEER_IDS - 2 && self.total_active_edges < MAX_EDGES
    }

    /// Two ids of a graph; the second graph is the first with each id added to
    /// the adjacency list of the other.
    spec fn linked(mid: Graph, after: Graph, id0: int, id1: int) -> bool {
        &&& 0 <= id0 < mid.id2p@.len()
        &&& 0 <= id1 < mid.id2p@.len()
        &&& id0 != id1
        &&& mid.used@[id0]
        &&& mid.used@[id1]
        &&& !mid.adjacency@[id0]@.contains(id1 as u32)
        &&& after.my_peer_id == mid.my_peer_id
        &&& after.id2p == mid.id2p
        &&& after.used == mid.used
        &&& after.unused == mid.unused
        &&& after.source_id == mid.source_id
        &&& after.total_active_edges == mid.total_active_edges + 1
        &&& after.adjacency@.len() == mid.adjacency@.len()
        &&& after.adjacency@[id0]@ == mid.adjacency@[id0]@.push(id1 as u32)
        &&& after.adjacency@[id1]@ == mid.adjacency@[id1]@.push(id0 as u32)
        &&& forall|i: int|
            0 <= i < mid.id2p@.len() && i != id0 && i != id1 ==> (#[trigger] after.adjacency@[i])
                == mid.adjacency@[i]
    }

    /// Adding a link between two ids keeps the ids in order.
    proof fn lemma_linked_wf(mid: Graph, after: Graph, id0: int, id1: int)
        requires
            mid.wf_ids(),
            mid.total_active_edges < 0x7fff_ffff_ffff_ffff,
            Self::linked(mid, after, id0, id1),
        ensures
            after.wf_ids(),
    {
        let n = after.id2p@.len();
        let l0 = mid.adjacency@[id0]@;
        let l1 = mid.adjacency@[id1]@;
        assert(after.adj() =~= mid.adj().update(id0, l0.push(id1 as u32)).update(
            id1,
            l1.push(id0 as u32),
        ));
        lemma_degree_sum_update(mid.adj(), id0, l0.push(id1 as u32));
        lemma_degree_sum_update(mid.adj().update(id0, l0.push(id1 as u32)), id1, l1.push(id0 as u32));
        assert(!l1.contains(id0 as u32)) by {
            if l1.contains(id0 as u32) {
                let k = l1.index_of(id0 as u32);
                let x = mid.adjacency@[id1]@[k];
                assert(mid.adjacency@[x as int]@.contains(id1 as u32));
            }
        }
        assert forall|i: int| 0 <= i < n implies (#[trigger] after.adjacency@[i])@.no_duplicates() by {
            assert(mid.adjacency@[i]@.no_duplicates());
        }
        assert forall|i: int, k: int| 0 <= i < n && 0 <= k < after.adjacency@[i]@.len() implies {
            let x = #[trigger] after.adjacency@[i]@[k];
            &&& x < n
            &&& x != i
            &&& after.used@[i]
            &&& after.used@[x as int]
            &&& after.adjacency@[x as int]@.contains(i as u32)
        } by {
            let x = after.adjacency@[i]@[k];
            if k < mid.adjacency@[i]@.len() {
                assert(x == mid.adjacency@[i]@[k]);
                assert(mid.adjacency@[x as int]@.contains(i as u32));
                let m = mid.adjacency@[x as int]@.index_of(i as u32);
                assert(after.adjacency@[x as int]@[m] == i as u32);
            } else if i == id0 {
                assert(after.adjacency@[id1]@[l1.len() as int] == id0 as u32);
            } else {
                assert(after.adjacency@[id0]@[l0.len() as int] == id1 as u32);
            }
        }
    }

    /// Adding a link between the ids of `a` and `b` makes each the last
    /// neighbour of the other and changes no other neighbours.
    proof fn lemma_linked_neighbors(
        mid: Graph,
        after: Graph,
        id0: int,
        id1: int,
        a: Seq<u8>,
        b: Seq<u8>,
    )
        requires
            mid.wf_ids(),
            after.wf_ids(),
            Self::linked(mid, after, id0, id1),
            mid.holds(id0, a),
            mid.holds(id1, b),
        ensures
            after.neighbors(a) == mid.neighbors(a).push(b),
            after.neighbors(b) == mid.neighbors(b).push(a),
            forall|peer: Seq<u8>| peer != a && peer != b ==> after.neighbors(peer) == mid.neighbors(peer),
    {
        assert(after.holds(id0, a));
        assert(after.holds(id1, b));
        after.lemma_neighbors(id0, a);
        after.lemma_neighbors(id1, b);
        mid.lemma_neighbors(id0, a);
        mid.lemma_neighbors(id1, b);
        assert(after.neighbors(a) =~= mid.neighbors(a).push(b));
        assert(after.neighbors(b) =~= mid.neighbors(b).push(a));
        assert forall|peer: Seq<u8>| peer != a && peer != b implies after.neighbors(peer)
            == mid.neighbors(peer) by {
            if mid.knows(peer) {
                let i = mid.id_of(peer);
                assert(mid.holds(i, peer));
                assert(after.holds(i, peer));
                mid.lemma_neighbors(i, peer);
                after.lemma_neighbors(i, peer);
                assert(after.adjacency@[i] == mid.adjacency@[i]);
                assert(after.neighbors(peer) =~= mid.neighbors(peer));
            } else {
                if after.knows(peer) {
                    let i = after.id_of(peer);
                    assert(after.holds(i, peer));
                    assert(mid.holds(i, peer));
                }
                assert(after.neighbors(peer) =~= mid.neighbors(peer));
            }
        }
    }

    /// Peers that are not linked have ids whose adjacency lists do not name
    /// each other.
    proof fn lemma_not_linked(&self, id0: int, id1: int, a: Seq<u8>, b: Seq<u8>)
        requires
            self.wf_ids(),
            self.holds(id0, a),
            self.holds(id1, b),
            !self.has_edge(a, b),
        ensures
            !self.adjacency@[id0]@.contains(id1 as u32),
    {
        self.lemma_neighbors(id0, a);
    }

    /// Links `peer0` and `peer1`. Where they are linked already nothing
    /// changes.
    pub fn add_edge(&mut self, peer0: &PeerId, peer1: &PeerId)
        requires
            old(self).wf(),
            old(self).has_edge(peer0@, peer1@) || old(self).room(),
            peer0@ != peer1@,
        ensures
            final(self).wf(),
            Self::edge_added(*old(self), *final(self), peer0@, peer1@),
            final(self).has_edge(peer0@, peer1@),
            final(self).has_edge(peer1@, peer0@),
            old(self).has_edge(peer0@, peer1@) ==> *final(self) == *old(self),
            old(self).id_count() <= final(self).id_count() <= old(self).id_count() + (if old(self).has_peer(peer0@) {
                0nat
            } else {
                1nat
            }) + (if old(self).has_peer(peer1@) {
                0nat
            } else {
                1nat
            }),
    {
        let ghost before = *self;
        if !self.contains_edge(peer0, peer1) {
            let id0 = self.get_id(peer0);
            let ghost mid0 = *self;
            let id1 = self.get_id(peer1);
            let ghost mid = *self;
            proof {
                Self::lemma_gave_id(before, mid0, peer0@, id0 as int);
                Self::lemma_gave_id(mid0, mid, peer1@, id1 as int);
                before.lemma_knows(peer0@);
                before.lemma_knows(peer1@);
                if before.knows(peer1@) {
                    let j = before.id_of(peer1@);
                    assert(before.holds(j, peer1@));
                    assert(mid0.holds(j, peer1@));
                    assert(mid0.knows(peer1@));
                }
                assert(mid0.holds(id0 as int, peer0@));
                assert(mid.holds(id0 as int, peer0@));
                assert(mid.holds(id1 as int, peer1@));
                mid.lemma_not_linked(id0 as int, id1 as int, peer0@, peer1@);
            }
            self.adjacency[id0 as usize].push(id1);
            self.adjacency[id1 as usize].push(id0);
            self.total_active_edges += 1;
            proof {
                let after = *self;
                assert(Self::linked(mid, after, id0 as int, id1 as int));
                Self::lemma_linked_wf(mid, after, id0 as int, id1 as int);
                Self::lemma_linked_neighbors(mid, after, id0 as int, id1 as int, peer0@, peer1@);
                assert forall|i: int| 1 <= i < after.id2p@.len() && after.used@[i] implies (
                #[trigger] after.adjacency@[i])@.len() > 0 by {
                    if i != id0 && i != id1 {
                        assert(mid.used@[i]);
                        assert(mid0.used@[i]);
                        assert(before.used@[i]);
                        assert(before.adjacency@[i]@.len() > 0);
                        assert(mid0.adjacency@[i] == before.adjacency@[i]);
                        assert(mid.adjacency@[i] == mid0.adjacency@[i]);
                    }
                }
                assert(after.neighbors(peer0@)[before.neighbors(peer0@).len() as int] == peer1@);
                assert(after.neighbors(peer1@)[before.neighbors(peer1@).len() as int] == peer0@);
            }
        } else {
            proof {
                assert(self.same_links(before));
            }
        }
    }

    /// The neighbours of a peer are distinct.
    proof fn lemma_neighbors_distinct(&self, i: int, peer: Seq<u8>)
        requires
            self.wf_ids(),
            self.holds(i, peer),
        ensures
            self.neighbors(peer).no_duplicates(),
    {
        self.lemma_neighbors(i, peer);
        let list = self.adjacency@[i]@;
        let names = self.neighbors(peer);
        assert forall|k: int, m: int| 0 <= k < names.len() && 0 <= m < names.len() && k != m implies names[k]
            != names[m] by {
            let x = list[k];
            let y = list[m];
            assert(self.used@[x as int] && self.used@[y as int]);
            assert(x != y);
        }
    }

    /// Every adjacency list is at most as long as the sum of all.
    proof fn lemma_degree_at_most_sum(&self, i: int)
        requires
            0 <= i < self.adjacency@.len(),
        ensures
            self.adjacency@[i]@.len() <= degree_sum(self.adj()),
    {
        lemma_degree_sum_update(self.adj(), i, Seq::<u32>::empty());
    }

    /// Frees the id `id` if it is not the source and has no link left.
    fn remove_if_unused(&mut self, id: u32)
        requires
            old(self).wf_ids(),
            id < old(self).id2p@.len(),
            old(self).used@[id as int],
        ensures
            final(self).wf_ids(),
            final(self).my_peer_id == old(self).my_peer_id,
            final(self).id2p == old(self).id2p,
            final(self).adjacency == old(self).adjacency,
            final(self).total_active_edges == old(self).total_active_edges,
            final(self).used@.len() == old(self).used@.len(),
            forall|i: int|
                0 <= i < old(self).used@.len() && i != id ==> (#[trigger] final(self).used@[i])
                    == old(self).used@[i],
            final(self).used@[id as int] == (id == 0 || old(self).adjacency@[id as int]@.len() > 0),
    {
        let ghost before = *self;
        if self.adjacency[id as usize].len() == 0 && id != self.source_id {
            self.used[id as usize] = false;
            self.unused.push(id);
            proof {
                let n = self.id2p@.len();
                assert(self.adj() =~= before.adj());
                assert(!before.unused@.contains(id)) by {
                    if before.unused@.contains(id) {
                        let k = before.unused@.index_of(id);
                        assert(!before.used@[before.unused@[k] as int]);
                    }
                }
                assert forall|a: int, b: int|
                    0 <= a < self.unused@.len() && 0 <= b < self.unused@.len() && a != b implies self.unused@[a]
                    != self.unused@[b] by {
                    if a < before.unused@.len() {
                        assert(before.unused@.contains(before.unused@[a]));
                    }
                    if b < before.unused@.len() {
                        assert(before.unused@.contains(before.unused@[b]));
                    }
                }
                assert forall|k: int| 0 <= k < self.unused@.len() implies (
                #[trigger] self.unused@[k]) < n && !self.used@[self.unused@[k] as int] by {
                    if k < before.unused@.len() {
                        assert(before.unused@[k] == self.unused@[k]);
                    }
                }
                assert forall|i: int| 0 <= i < n && !self.used@[i] implies self.unused@.contains(
                    i as u32,
                ) by {
                    if i == id {
                        assert(self.unused@[before.unused@.len() as int] == id);
                    } else {
                        assert(before.unused@.contains(i as u32));
                        let k = before.unused@.index_of(i as u32);
                        assert(self.unused@[k] == i as u32);
                    }
                }
                assert forall|i: int, k: int|
                    0 <= i < n && 0 <= k < self.adjacency@[i]@.len() implies {
                    let x = #[trigger] self.adjacency@[i]@[k];
                    &&& x < n
                    &&& x != i
                    &&& self.used@[i]
                    &&& self.used@[x as int]
                    &&& self.adjacency@[x as int]@.contains(i as u32)
                } by {
                    let x = before.adjacency@[i]@[k];
                    assert(before.adjacency@[x as int]@.contains(i as u32));
                    if x == id {
                        let m = before.adjacency@[x as int]@.index_of(i as u32);
                    }
                }
            }
        }
    }

    /// The second graph is the first with each of two ids taken out of the
    /// adjacency list of the other.
    spec fn unlinked(before: Graph, after: Graph, id0: int, id1: int, k0: int, k1: int) -> bool {
        &&& 0 <= id0 < before.id2p@.len()
        &&& 0 <= id1 < before.id2p@.len()
        &&& id0 != id1
        &&& 0 <= k0 < before.adjacency@[id0]@.len()
        &&& 0 <= k1 < before.adjacency@[id1]@.len()
        &&& before.adjacency@[id0]@[k0] == id1
        &&& before.adjacency@[id1]@[k1] == id0
        &&& after.my_peer_id == before.my_peer_id
        &&& after.id2p == before.id2p
        &&& after.used == before.used
        &&& after.unused == before.unused
        &&& after.source_id == before.source_id
        &&& after.total_active_edges + 1 == before.total_active_edges
        &&& after.adjacency@.len() == before.adjacency@.len()
        &&& after.adjacency@[id0]@ == before.adjacency@[id0]@.remove(k0)
        &&& after.adjacency@[id1]@ == before.adjacency@[id1]@.remove(k1)
        &&& forall|i: int|
            0 <= i < before.id2p@.len() && i != id0 && i != id1 ==> (
            #[trigger] after.adjacency@[i]) == before.adjacency@[i]
    }

    /// Taking a link between two ids away keeps the ids in order.
    proof fn lemma_unlinked_wf(before: Graph, after: Graph, id0: int, id1: int, k0: int, k1: int)
        requires
            before.wf_ids(),
            Self::unlinked(before, after, id0, id1, k0, k1),
        ensures
            after.wf_ids(),
            !after.adjacency@[id0]@.contains(id1 as u32),
            !after.adjacency@[id1]@.contains(id0 as u32),
    {
        let n = after.id2p@.len();
        let l0 = before.adjacency@[id0]@;
        let l1 = before.adjacency@[id1]@;
        assert(after.adj() =~= before.adj().update(id0, l0.remove(k0)).update(id1, l1.remove(k1)));
        lemma_degree_sum_update(before.adj(), id0, l0.remove(k0));
        lemma_degree_sum_update(before.adj().update(id0, l0.remove(k0)), id1, l1.remove(k1));
        assert(l0.no_duplicates());
        assert(l1.no_duplicates());
        assert forall|i: int| 0 <= i < n implies (#[trigger] after.adjacency@[i])@.no_duplicates() by {
            assert(before.adjacency@[i]@.no_duplicates());
            let l = before.adjacency@[i]@;
            let r = after.adjacency@[i]@;
            if i == id0 || i == id1 {
                let k = if i == id0 { k0 } else { k1 };
                assert forall|a: int, b: int| 0 <= a < r.len() && 0 <= b < r.len() && a != b implies r[a]
                    != r[b] by {
                    let a0 = if a < k { a } else { a + 1 };
                    let b0 = if b < k { b } else { b + 1 };
                    assert(r[a] == l[a0] && r[b] == l[b0]);
                }
            }
        }
        assert(!l0.remove(k0).contains(id1 as u32)) by {
            if l0.remove(k0).contains(id1 as u32) {
                let m = l0.remove(k0).index_of(id1 as u32);
                let m0 = if m < k0 { m } else { m + 1 };
                assert(l0[m0] == id1);
            }
        }
        assert(!l1.remove(k1).contains(id0 as u32)) by {
            if l1.remove(k1).contains(id0 as u32) {
                let m = l1.remove(k1).index_of(id0 as u32);
                let m0 = if m < k1 { m } else { m + 1 };
                assert(l1[m0] == id0);
            }
        }
        assert forall|i: int, k: int| 0 <= i < n && 0 <= k < after.adjacency@[i]@.len() implies {
            let x = #[trigger] after.adjacency@[i]@[k];
            &&& x < n
            &&& x != i
            &&& after.used@[i]
            &&& after.used@[x as int]
            &&& after.adjacency@[x as int]@.contains(i as u32)
        } by {
            let x = after.adjacency@[i]@[k];
            let kb = if i == id0 && k >= k0 { k + 1 } else if i == id1 && k >= k1 { k + 1 } else { k };
            assert(x == before.adjacency@[i]@[kb]);
            assert(before.adjacency@[x as int]@.contains(i as u32));
            let m = before.adjacency@[x as int]@.index_of(i as u32);
            if x == id0 {
                assert(i != id1);
                let m1 = if m < k0 { m } else { m - 1 };
                assert(after.adjacency@[x as int]@[m1] == i as u32);
            } else if x == id1 {
                assert(i != id0);
                let m1 = if m < k1 { m } else { m - 1 };
                assert(after.adjacency@[x as int]@[m1] == i as u32);
            } else {
                assert(after.adjacency@[x as int]@[m] == i as u32);
            }
        }
    }

    /// What freeing ids without links leaves as it was.
    spec fn freed(mid: Graph, after: Graph, id0: int, id1: int) -> bool {
        &&& after.id2p == mid.id2p
        &&& after.adjacency == mid.adjacency
        &&& after.used@.len() == mid.used@.len()
        &&& forall|i: int|
            0 <= i < mid.used@.len() && i != id0 && i != id1 ==> (#[trigger] after.used@[i])
                == mid.used@[i]
        &&& after.used@[id0] == (id0 == 0 || mid.adjacency@[id0]@.len() > 0)
        &&& after.used@[id1] == (id1 == 0 || mid.adjacency@[id1]@.len() > 0)
    }

    /// After the link between the ids of `a` and `b` is taken away and ids
    /// without links are freed, `b` has left the neighbours of `a`.
    proof fn lemma_unlinked_end(
        before: Graph,
        mid: Graph,
        after: Graph,
        id0: int,
        id1: int,
        k0: int,
        k1: int,
        a: Seq<u8>,
        b: Seq<u8>,
    )
        requires
            before.wf_ids(),
            mid.wf_ids(),
            after.wf_ids(),
            Self::unlinked(before, mid, id0, id1, k0, k1),
            before.holds(id0, a),
            before.holds(id1, b),
            Self::freed(mid, after, id0, id1),
        ensures
            after.neighbors(a) == without(before.neighbors(a), b),
    {
        before.lemma_neighbors(id0, a);
        before.lemma_neighbors_distinct(id0, a);
        let names = before.neighbors(a);
        assert(names[k0] == b);
        assert(names.index_of(b) == k0) by {
            let m = names.index_of(b);
            assert(names[m] == b);
        }
        if after.used@[id0] {
            assert(after.holds(id0, a));
            after.lemma_neighbors(id0, a);
            assert forall|k: int| 0 <= k < after.neighbors(a).len() implies after.neighbors(a)[k]
                == names.remove(k0)[k] by {
                let kb = if k < k0 { k } else { k + 1 };
                assert(after.adjacency@[id0]@[k] == before.adjacency@[id0]@[kb]);
            }
            assert(after.neighbors(a) =~= names.remove(k0));
        } else {
            if after.knows(a) {
                let i = after.id_of(a);
                assert(after.holds(i, a));
                assert(i != id0);
                if i == id1 {
                    assert(before.holds(id1, a));
                } else {
                    assert(after.used@[i] == mid.used@[i]);
                    assert(before.holds(i, a));
                }
            }
            assert(after.neighbors(a) =~= names.remove(k0));
        }
    }

    /// After the link between the ids of `a` and `b` is taken away and ids
    /// without links are freed, the neighbours of the other peers are as they
    /// were.
    proof fn lemma_unlinked_others(
        before: Graph,
        mid: Graph,
        after: Graph,
        id0: int,
        id1: int,
        k0: int,
        k1: int,
        a: Seq<u8>,
        b: Seq<u8>,
        peer: Seq<u8>,
    )
        requires
            before.wf_ids(),
            mid.wf_ids(),
            after.wf_ids(),
            Self::unlinked(before, mid, id0, id1, k0, k1),
            before.holds(id0, a),
            before.holds(id1, b),
            Self::freed(mid, after, id0, id1),
            peer != a,
            peer != b,
        ensures
            after.neighbors(peer) == before.neighbors(peer),
    {
        if before.knows(peer) {
            let i = before.id_of(peer);
            assert(before.holds(i, peer));
            assert(i != id0 && i != id1);
            assert(after.used@[i] == mid.used@[i]);
            assert(after.holds(i, peer));
            before.lemma_neighbors(i, peer);
            after.lemma_neighbors(i, peer);
            assert(mid.adjacency@[i] == before.adjacency@[i]);
            assert(after.neighbors(peer) =~= before.neighbors(peer));
        } else {
            if after.knows(peer) {
                let i = after.id_of(peer);
                assert(after.holds(i, peer));
                assert(i != id0 && i != id1);
                assert(after.used@[i] == mid.used@[i]);
                assert(before.holds(i, peer));
            }
            assert(after.neighbors(peer) =~= before.neighbors(peer));
        }
    }

    /// Takes the link between `peer0` and `peer1` away. Where they are not
    /// linked nothing changes. A peer that loses its last link is forgotten,
    /// unless it is the source.
    pub fn remove_edge(&mut self, peer0: &PeerId, peer1: &PeerId)
        requires
            old(self).wf(),
            peer0@ != peer1@,
        ensures
            final(self).wf(),
            Self::edge_removed(*old(self), *final(self), peer0@, peer1@),
            !final(self).has_edge(peer0@, peer1@),
            !final(self).has_edge(peer1@, peer0@),
            !old(self).has_edge(peer0@, peer1@) ==> *final(self) == *old(self),
            final(self).id_count() == old(self).id_count(),
    {
        let ghost before = *self;
        if self.contains_edge(peer0, peer1) {
            let found0 = self.find_id(peer0);
            let found1 = self.find_id(peer1);
            proof {
                before.lemma_symmetric(peer0@, peer1@);
                if !before.knows(peer0@) {
                    assert(before.neighbors(peer0@) =~= Seq::<Seq<u8>>::empty());
                }
                if !before.knows(peer1@) {
                    assert(before.neighbors(peer1@) =~= Seq::<Seq<u8>>::empty());
                }
            }
            let id0 = found0.unwrap();
            let id1 = found1.unwrap();
            proof {
                before.lemma_neighbors(id0 as int, peer0@);
                before.lemma_neighbors(id1 as int, peer1@);
                before.lemma_degree_at_most_sum(id0 as int);
            }
            let at0 = Self::position(&self.adjacency[id0 as usize], id1);
            let at1 = Self::position(&self.adjacency[id1 as usize], id0);
            let k0 = at0.unwrap();
            let k1 = at1.unwrap();
            self.adjacency[id0 as usize].remove(k0);
            self.adjacency[id1 as usize].remove(k1);
            self.total_active_edges -= 1;
            let ghost mid = *self;
            proof {
                assert(Self::unlinked(before, mid, id0 as int, id1 as int, k0 as int, k1 as int));
                Self::lemma_unlinked_wf(before, mid, id0 as int, id1 as int, k0 as int, k1 as int);
            }
            self.remove_if_unused(id0);
            self.remove_if_unused(id1);
            proof {
                let after = *self;
                assert(Self::freed(mid, after, id0 as int, id1 as int));
                assert(Self::freed(mid, after, id1 as int, id0 as int));
                assert(Self::unlinked(before, mid, id1 as int, id0 as int, k1 as int, k0 as int));
                Self::lemma_unlinked_end(
                    before,
                    mid,
                    after,
                    id0 as int,
                    id1 as int,
                    k0 as int,
                    k1 as int,
                    peer0@,
                    peer1@,
                );
                Self::lemma_unlinked_end(
                    before,
                    mid,
                    after,
                    id1 as int,
                    id0 as int,
                    k1 as int,
                    k0 as int,
                    peer1@,
                    peer0@,
                );
                assert forall|peer: Seq<u8>| peer != peer0@ && peer != peer1@ implies after.neighbors(
                    peer,
                ) == before.neighbors(peer) by {
                    Self::lemma_unlinked_others(
                        before,
                        mid,
                        after,
                        id0 as int,
                        id1 as int,
                        k0 as int,
                        k1 as int,
                        peer0@,
                        peer1@,
                        peer,
                    );
                }
                before.lemma_neighbors_distinct(id0 as int, peer0@);
                assert(!after.has_edge(peer0@, peer1@)) by {
                    let names = before.neighbors(peer0@);
                    let k = names.index_of(peer1@);
                    if names.remove(k).contains(peer1@) {
                        let m = names.remove(k).index_of(peer1@);
                        let m0 = if m < k { m } else { m + 1 };
                        assert(names[m0] == peer1@);
                    }
                }
                assert forall|i: int| 1 <= i < after.id2p@.len() && after.used@[i] implies (
                #[trigger] after.adjacency@[i])@.len() > 0 by {
                    if i != id0 && i != id1 {
                        assert(before.used@[i]);
                        assert(before.adjacency@[i]@.len() > 0);
                        assert(mid.adjacency@[i] == before.adjacency@[i]);
                    }
                }
                assert(after.wf());
                after.lemma_symmetric(peer0@, peer1@);
            }
        } else {
            proof {
                assert(self.same_links(before));
            }
        }
    }

    /// The neighbours of the source through which routes begin: all of them,
    /// or the first 128 where there are more.
    pub open spec fn first_hops(&self) -> Seq<Seq<u8>> {
        let all = self.neighbors(self.source());
        if all.len() <= MAX_NUM_PEERS {
            all
        } else {
            all.take(MAX_NUM_PEERS as int)
        }
    }

    /// A route: it leaves the source for one of the first hops, never comes
    /// back to the source, and each further step follows a link.
    pub open spec fn is_route(&self, route: Seq<Seq<u8>>) -> bool {
        &&& route.len() >= 2
        &&& route[0] == self.source()
        &&& self.first_hops().contains(route[1])
        &&& forall|k: int| 1 <= k < route.len() ==> #[trigger] route[k] != self.source()
        &&& forall|k: int|
            1 <= k < route.len() - 1 ==> self.has_edge(#[trigger] route[k], route[k + 1])
    }

    /// Whether some route ends in `peer`.
    pub open spec fn reachable(&self, peer: Seq<u8>) -> bool {
        exists|route: Seq<Seq<u8>>| #[trigger] self.is_route(route) && route.last() == peer
    }

    /// A route than which no route to the same peer is shorter.
    pub open spec fn is_shortest(&self, route: Seq<Seq<u8>>) -> bool {
        &&& self.is_route(route)
        &&& forall|other: Seq<Seq<u8>>| #[trigger]
            self.is_route(other) && other.last() == route.last() ==> other.len() >= route.len()
    }

    /// Whether some shortest route to `peer` begins with the step to `hop`.
    pub open spec fn shortest_through(&self, peer: Seq<u8>, hop: Seq<u8>) -> bool {
        exists|route: Seq<Seq<u8>>| #[trigger]
            self.is_shortest(route) && route.last() == peer && route[1] == hop
    }

    /// The test whether a first hop begins a shortest route to `peer`.
    pub open spec fn through(&self, peer: Seq<u8>) -> spec_fn(Seq<u8>) -> bool {
        |hop: Seq<u8>| self.shortest_through(peer, hop)
    }

    /// The first hops that begin a shortest route to `peer`, in the order of
    /// the source's neighbours.
    pub open spec fn next_hops(&self, peer: Seq<u8>) -> Seq<Seq<u8>> {
        self.first_hops().filter(self.through(peer))
    }

    /// Of the first `upto` entries of `hops`, those whose bit is set in `mask`.
    pub open spec fn picked(hops: Seq<Seq<u8>>, mask: u128, upto: int) -> Seq<Seq<u8>>
        decreases upto,
    {
        if upto <= 0 {
            Seq::empty()
        } else if has_bit(mask, upto - 1) {
            Self::picked(hops, mask, upto - 1).push(hops[upto - 1])
        } else {
            Self::picked(hops, mask, upto - 1)
        }
    }

    /// Where the bits of `mask` say which entries of `hops` pass a test, the
    /// entries picked by the bits are the entries that pass.
    proof fn lemma_picked_is_filter(
        hops: Seq<Seq<u8>>,
        mask: u128,
        test: spec_fn(Seq<u8>) -> bool,
        upto: int,
    )
        requires
            0 <= upto <= hops.len(),
            forall|j: int| 0 <= j < hops.len() ==> has_bit(mask, j) == test(#[trigger] hops[j]),
        ensures
            Self::picked(hops, mask, upto) == hops.take(upto).filter(test),
        decreases upto,
    {
        reveal(Seq::filter);
        if upto > 0 {
            Self::lemma_picked_is_filter(hops, mask, test, upto - 1);
            assert(hops.take(upto).drop_last() =~= hops.take(upto - 1));
            assert(hops.take(upto).last() == hops[upto - 1]);
        } else {
            assert(hops.take(upto) =~= Seq::<Seq<u8>>::empty());
        }
    }

    /// The adjacency lists of a graph with ids in order can be searched.
    proof fn lemma_links_ok(&self)
        requires
            self.wf_ids(),
        ensures
            links_ok(self.adj()),
            self.adj().len() == self.id2p@.len(),
            forall|i: int| 0 <= i < self.adj().len() ==> #[trigger] self.adj()[i] == self.adjacency@[i]@,
    {
        let adj = self.adj();
        assert forall|i: int, k: int| 0 <= i < adj.len() && 0 <= k < adj[i].len() implies (
        #[trigger] adj[i][k]) < adj.len() by {
            let x = self.adjacency@[i]@[k];
        }
        assert forall|k: int| 0 <= k < adj[0].len() implies (#[trigger] adj[0][k]) != 0 by {
            let x = self.adjacency@[0]@[k];
        }
        assert forall|i: int| 0 <= i < adj.len() implies (#[trigger] adj[i]).no_duplicates() by {
            assert(self.adjacency@[i]@.no_duplicates());
        }
    }

    /// The first hops are the peers of the first ids in the source's list.
    proof fn lemma_first_hops(&self)
        requires
            self.wf_ids(),
        ensures
            self.holds(0, self.source()),
            self.first_hops().len() == anchor_count(self.adj()),
            forall|i: int|
                0 <= i < anchor_count(self.adj()) ==> #[trigger] self.first_hops()[i]
                    == self.id2p@[self.adjacency@[0]@[i] as int]@ && self.holds(
                    self.adjacency@[0]@[i] as int,
                    self.first_hops()[i],
                ),
            forall|i: int|
                0 <= i < self.first_hops().len() ==> self.neighbors(self.source()).contains(
                    #[trigger] self.first_hops()[i],
                ),
    {
        self.lemma_links_ok();
        assert(self.holds(0, self.source()));
        self.lemma_neighbors(0, self.source());
        let all = self.neighbors(self.source());
        assert forall|i: int| 0 <= i < anchor_count(self.adj()) implies #[trigger] self.first_hops()[i]
            == self.id2p@[self.adjacency@[0]@[i] as int]@ && self.holds(
            self.adjacency@[0]@[i] as int,
            self.first_hops()[i],
        ) by {
            assert(self.first_hops()[i] == all[i]);
            let x = self.adjacency@[0]@[i];
        }
        assert forall|i: int| 0 <= i < self.first_hops().len() implies all.contains(
            #[trigger] self.first_hops()[i],
        ) by {
            assert(all[i] == self.first_hops()[i]);
        }
    }

    /// The peers along a walk make a route of the same length.
    proof fn lemma_route_of_walk(&self, walk: Seq<int>) -> (route: Seq<Seq<u8>>)
        requires
            self.wf_ids(),
            is_walk(self.adj(), walk),
        ensures
            self.is_route(route),
            route.len() == walk.len(),
            forall|k: int| 1 <= k < walk.len() ==> self.holds(#[trigger] walk[k], route[k]),
    {
        self.lemma_links_ok();
        self.lemma_first_hops();
        let adj = self.adj();
        let route = Seq::new(walk.len(), |k: int| self.id2p@[walk[k]]@);
        let i = choose|i: int| 0 <= i < anchor_count(adj) && #[trigger] adj[0][i] == walk[1];
        assert(self.first_hops()[i] == route[1]);
        assert forall|k: int| 1 <= k < walk.len() implies self.holds(#[trigger] walk[k], route[k]) by {
            if k == 1 {
                let x = self.adjacency@[0]@[i];
            } else {
                assert(0 < walk[k - 1] < adj.len());
                assert(adj[walk[k - 1]].contains(walk[k - 1 + 1] as u32));
                let e = adj[walk[k - 1]].index_of(walk[k] as u32);
                let x = self.adjacency@[walk[k - 1]]@[e];
                assert(0 < walk[k] < adj.len());
            }
        }
        assert forall|k: int| 1 <= k < route.len() implies #[trigger] route[k] != self.source() by {
            assert(self.holds(walk[k], route[k]));
            assert(0 < walk[k]);
        }
        assert forall|k: int| 1 <= k < route.len() - 1 implies self.has_edge(
            #[trigger] route[k],
            route[k + 1],
        ) by {
            assert(self.holds(walk[k], route[k]));
            assert(self.holds(walk[k + 1], route[k + 1]));
            self.lemma_neighbors(walk[k], route[k]);
            assert(adj[walk[k]].contains(walk[k + 1] as u32));
            assert(0 < walk[k + 1] < adj.len());
            assert(self.adjacency@[walk[k]]@.contains(walk[k + 1] as u32));
        }
        route
    }

    /// The ids of the peers along a route make a walk of the same length.
    proof fn lemma_walk_of_route(&self, route: Seq<Seq<u8>>) -> (walk: Seq<int>)
        requires
            self.wf_ids(),
            self.is_route(route),
        ensures
            is_walk(self.adj(), walk),
            walk.len() == route.len(),
            forall|k: int| 1 <= k < walk.len() ==> self.holds(#[trigger] walk[k], route[k]),
        decreases route.len(),
    {
        self.lemma_links_ok();
        self.lemma_first_hops();
        let adj = self.adj();
        if route.len() == 2 {
            let i = self.first_hops().index_of(route[1]);
            assert(self.first_hops()[i] == route[1]);
            let x = self.adjacency@[0]@[i] as int;
            let walk = seq![0int, x];
            assert(adj[0][i] == walk[1]);
            walk
        } else {
            let shorter = route.drop_last();
            assert(self.is_route(shorter)) by {
                assert(shorter[1] == route[1]);
                assert forall|k: int| 1 <= k < shorter.len() implies #[trigger] shorter[k]
                    != self.source() by {
                    assert(shorter[k] == route[k]);
                }
                assert forall|k: int| 1 <= k < shorter.len() - 1 implies self.has_edge(
                    #[trigger] shorter[k],
                    shorter[k + 1],
                ) by {
                    assert(shorter[k] == route[k]);
                    assert(shorter[k + 1] == route[k + 1]);
                }
            }
            let before = self.lemma_walk_of_route(shorter);
            let m = route.len() - 2;
            let u = before[m];
            assert(self.holds(u, shorter[m]));
            assert(shorter[m] == route[m]);
            assert(self.has_edge(route[m], route[m + 1]));
            self.lemma_neighbors(u, route[m]);
            let e = self.neighbors(route[m]).index_of(route[m + 1]);
            let x = self.adjacency@[u]@[e];
            assert(self.holds(x as int, route[m + 1]));
            assert(route[m + 1] != self.source());
            assert(x != 0);
            let walk = before.push(x as int);
            assert(is_walk(adj, walk)) by {
                let i = choose|i: int| 0 <= i < anchor_count(adj) && #[trigger] adj[0][i] == before[1];
                assert(adj[0][i] == walk[1]);
                assert forall|k: int| 1 <= k < walk.len() implies 0 < #[trigger] walk[k] < adj.len() by {
                    if k < before.len() {
                        assert(walk[k] == before[k]);
                    }
                }
                assert forall|k: int| 1 <= k < walk.len() - 1 implies adj[#[trigger] walk[k]].contains(
                    walk[k + 1] as u32,
                ) by {
                    assert(walk[k] == before[k]);
                    if k + 1 < before.len() {
                        assert(walk[k + 1] == before[k + 1]);
                    } else {
                        assert(adj[u][e] == x);
                    }
                }
            }
            assert forall|k: int| 1 <= k < walk.len() implies self.holds(#[trigger] walk[k], route[k]) by {
                if k < before.len() {
                    assert(walk[k] == before[k]);
                    assert(self.holds(before[k], shorter[k]));
                    assert(shorter[k] == route[k]);
                }
            }
            walk
        }
    }

    /// An id in use belongs to one peer, and a peer has one id.
    proof fn lemma_one_id(&self, i: int, j: int, peer: Seq<u8>)
        requires
            self.wf_ids(),
            self.holds(i, peer),
            self.holds(j, peer),
        ensures
            i == j,
    {
    }

    /// What the search found, told of peers: a peer was found exactly when a
    /// route leads to it, a peer found has some bit set, and its bits name
    /// the first hops through which its shortest routes begin.
    proof fn lemma_found(&self, dist: Seq<i32>, routes: Seq<u128>, v: int)
        requires
            self.wf_ids(),
            settled(self.adj(), dist, routes),
            1 <= v < self.id2p@.len(),
            self.used@[v],
        ensures
            (dist[v] != -1) == self.reachable(self.id2p@[v]@),
            dist[v] != -1 ==> routes[v] != 0,
            dist[v] != -1 ==> exists|j: int|
                0 <= j < self.first_hops().len() && #[trigger] has_bit(routes[v], j),
            dist[v] != -1 ==> forall|j: int|
                0 <= j < self.first_hops().len() ==> has_bit(routes[v], j) == self.shortest_through(
                    self.id2p@[v]@,
                    #[trigger] self.first_hops()[j],
                ),
    {
        self.lemma_links_ok();
        self.lemma_first_hops();
        let adj = self.adj();
        let peer = self.id2p@[v]@;
        assert(self.holds(v, peer));
        if self.reachable(peer) {
            let route = choose|route: Seq<Seq<u8>>| #[trigger]
                self.is_route(route) && route.last() == peer;
            let walk = self.lemma_walk_of_route(route);
            assert(self.holds(walk[walk.len() - 1], route[walk.len() - 1]));
            self.lemma_one_id(walk.last(), v, peer);
            lemma_walk_is_long(adj, dist, routes, walk, v);
        }
        if dist[v] != -1 {
            assert(dist[v] >= 1);
            let walk = lemma_walk_exists(adj, dist, routes, v, 0, false);
            let route = self.lemma_route_of_walk(walk);
            assert(self.holds(walk[walk.len() - 1], route[walk.len() - 1]));
            assert(route.last() == peer);
            // the route of a walk as long as the distance is a shortest route
            assert(self.is_shortest(route)) by {
                assert forall|other: Seq<Seq<u8>>| #[trigger]
                    self.is_route(other) && other.last() == route.last() implies other.len()
                    >= route.len() by {
                    let w2 = self.lemma_walk_of_route(other);
                    assert(self.holds(w2[w2.len() - 1], other[w2.len() - 1]));
                    self.lemma_one_id(w2.last(), v, peer);
                    lemma_walk_is_long(adj, dist, routes, w2, v);
                }
            }
            let i = choose|i: int| 0 <= i < anchor_count(adj) && #[trigger] adj[0][i] == walk[1];
            lemma_walk_sets_bit(adj, dist, routes, walk, v, i);
            lemma_bit_nonzero(routes[v], i);
            assert(0 <= i < self.first_hops().len() && has_bit(routes[v], i));
            assert forall|j: int| 0 <= j < self.first_hops().len() implies has_bit(routes[v], j)
                == self.shortest_through(peer, #[trigger] self.first_hops()[j]) by {
                let hop = self.first_hops()[j];
                if has_bit(routes[v], j) {
                    let w1 = lemma_walk_exists(adj, dist, routes, v, j, true);
                    let r1 = self.lemma_route_of_walk(w1);
                    assert(self.holds(w1[w1.len() - 1], r1[w1.len() - 1]));
                    assert(self.holds(w1[1], r1[1]));
                    assert(r1[1] == hop);
                    assert(self.is_shortest(r1)) by {
                        assert forall|other: Seq<Seq<u8>>| #[trigger]
                            self.is_route(other) && other.last() == r1.last() implies other.len()
                            >= r1.len() by {
                            let w2 = self.lemma_walk_of_route(other);
                            assert(self.holds(w2[w2.len() - 1], other[w2.len() - 1]));
                            self.lemma_one_id(w2.last(), v, peer);
                            lemma_walk_is_long(adj, dist, routes, w2, v);
                        }
                    }
                }
                if self.shortest_through(peer, hop) {
                    let r1 = choose|r1: Seq<Seq<u8>>| #[trigger]
                        self.is_shortest(r1) && r1.last() == peer && r1[1] == hop;
                    let w1 = self.lemma_walk_of_route(r1);
                    assert(self.holds(w1[w1.len() - 1], r1[w1.len() - 1]));
                    self.lemma_one_id(w1.last(), v, peer);
                    assert(self.holds(w1[1], r1[1]));
                    self.lemma_one_id(w1[1], self.adjacency@[0]@[j] as int, hop);
                    lemma_walk_is_long(adj, dist, routes, w1, v);
                    assert(self.is_route(route) && route.last() == r1.last());
                    lemma_walk_sets_bit(adj, dist, routes, w1, v, j);
                }
            }
        }
    }

    /// The peers of the graph, the source apart, that `table` does not hold,
    /// each once. With the table of next hops these are the peers to which
    /// no route leads.
    pub fn unreachable_peers(&self, table: &VecMap<PeerId, Vec<PeerId>>) -> (peers: Vec<PeerId>)
        requires
            self.wf(),
        ensures
            peer_views(peers@).no_duplicates(),
            forall|peer: Seq<u8>|
                peer_views(peers@).contains(peer) == (self.has_peer(peer) && peer != self.source()
                    && !table.has(peer)),
    {
        let all = self.peers();
        let ghost known = peer_views(all@);
        let mut peers: Vec<PeerId> = Vec::new();
        let ghost mut places: Seq<int> = Seq::empty();
        let mut i: usize = 0;
        while i < all.len()
            invariant
                i <= all@.len(),
                known == peer_views(all@),
                places.len() == peers@.len(),
                forall|k: int|
                    0 <= k < places.len() ==> 0 <= #[trigger] places[k] < i && peers@[k]@
                        == known[places[k]] && known[places[k]] != self.source() && !table.has(
                        known[places[k]],
                    ),
                forall|a: int, b: int| 0 <= a < b < places.len() ==> places[a] < places[b],
                forall|j: int|
                    0 <= j < i && #[trigger] known[j] != self.source() && !table.has(known[j])
                        ==> places.contains(j),
            decreases all@.len() - i,
        {
            let peer = &all[i];
            assert(known[i as int] == peer@);
            if !peer.same(&self.my_peer_id) && !table.contains_key(peer) {
                let ghost before = places;
                peers.push(peer.dup());
                proof {
                    places = places.push(i as int);
                    assert forall|j: int|
                        0 <= j < i + 1 && #[trigger] known[j] != self.source() && !table.has(
                            known[j],
                        ) implies places.contains(j) by {
                        if j < i {
                            assert(before.contains(j));
                            let k = before.index_of(j);
                            assert(before[k] == j);
                            assert(places[k] == j);
                        } else {
                            assert(places[before.len() as int] == j);
                        }
                    }
                }
            }
            i += 1;
        }
        proof {
            let views = peer_views(peers@);
            assert forall|a: int, b: int| 0 <= a < views.len() && 0 <= b < views.len() && a != b implies views[a]
                != views[b] by {
                assert(places[a] != places[b]);
                assert(views[a] == known[places[a]] && views[b] == known[places[b]]);
            }
            assert forall|peer: Seq<u8>|
                views.contains(peer) == (self.has_peer(peer) && peer != self.source() && !table.has(
                    peer,
                )) by {
                if views.contains(peer) {
                    let k = views.index_of(peer);
                    assert(views[k] == known[places[k]]);
                    assert(known.contains(peer));
                }
                if self.has_peer(peer) && peer != self.source() && !table.has(peer) {
                    assert(known.contains(peer));
                    let j = known.index_of(peer);
                    assert(known[j] == peer);
                    assert(places.contains(j));
                    let k = places.index_of(j);
                    assert(places[k] == j);
                    assert(views[k] == peer);
                }
            }
        }
        peers
    }

    /// The first hops whose bit is set in `mask`, in the order of the
    /// source's neighbours.
    fn hops_of(&self, mask: u128) -> (hops: Vec<PeerId>)
        requires
            self.wf_ids(),
        ensures
            peer_views(hops@) == Self::picked(
                self.first_hops(),
                mask,
                self.first_hops().len() as int,
            ),
    {
        proof {
            self.lemma_first_hops();
            self.lemma_links_ok();
        }
        let neighbors = &self.adjacency[0];
        let mut hops: Vec<PeerId> = Vec::new();
        let mut id: usize = 0;
        assert(peer_views(hops@) =~= Self::picked(self.first_hops(), mask, 0));
        while id < neighbors.len() && id < MAX_NUM_PEERS
            invariant
                self.wf_ids(),
                *neighbors == self.adjacency@[0],
                id <= self.first_hops().len(),
                self.first_hops().len() == anchor_count(self.adj()),
                self.adj()[0] == self.adjacency@[0]@,
                forall|i: int|
                    0 <= i < anchor_count(self.adj()) ==> #[trigger] self.first_hops()[i]
                        == self.id2p@[self.adjacency@[0]@[i] as int]@,
                peer_views(hops@) == Self::picked(self.first_hops(), mask, id as int),
            ensures
                id == self.first_hops().len(),
            decreases MAX_NUM_PEERS - id,
        {
            if (mask & (1u128 << id)) != 0 {
                let neighbor = neighbors[id];
                proof {
                    let x = self.adjacency@[0]@[id as int];
                    assert(1u128 << id == 1u128 << (id as u128));
                }
                hops.push(self.id2p[neighbor as usize].dup());
                proof {
                    assert(self.first_hops()[id as int] == self.id2p@[neighbor as int]@);
                    assert(peer_views(hops@) =~= Self::picked(self.first_hops(), mask, id as int).push(
                        self.first_hops()[id as int],
                    ));
                }
            } else {
                proof {
                    assert(1u128 << id == 1u128 << (id as u128));
                }
            }
            id += 1;
        }
        hops
    }

    /// Each entry picked is an entry of `hops` whose bit is set, and each such
    /// entry is picked.
    proof fn lemma_picked_members(hops: Seq<Seq<u8>>, mask: u128, upto: int)
        requires
            0 <= upto <= hops.len(),
        ensures
            forall|j: int|
                0 <= j < upto && #[trigger] has_bit(mask, j) ==> Self::picked(
                    hops,
                    mask,
                    upto,
                ).contains(hops[j]),
            forall|i: int|
                0 <= i < Self::picked(hops, mask, upto).len() ==> hops.contains(
                    #[trigger] Self::picked(hops, mask, upto)[i],
                ),
        decreases upto,
    {
        if upto > 0 {
            Self::lemma_picked_members(hops, mask, upto - 1);
            let less = Self::picked(hops, mask, upto - 1);
            let all = Self::picked(hops, mask, upto);
            assert forall|j: int| 0 <= j < upto && #[trigger] has_bit(mask, j) implies all.contains(
                hops[j],
            ) by {
                if j < upto - 1 {
                    let m = less.index_of(hops[j]);
                    assert(all[m] == hops[j]);
                } else {
                    assert(all[all.len() - 1] == hops[j]);
                }
            }
            assert forall|i: int| 0 <= i < all.len() implies hops.contains(#[trigger] all[i]) by {
                if i < less.len() {
                    assert(all[i] == less[i]);
                } else {
                    assert(all[i] == hops[upto - 1]);
                }
            }
        }
    }

    /// The id `v` stands for a peer of the table: it is in use, not the
    /// source, and the search found it.
    spec fn listed(&self, dist: Seq<i32>, routes: Seq<u128>, v: int) -> bool {
        &&& 1 <= v < self.id2p@.len()
        &&& self.used@[v]
        &&& dist[v] != -1
        &&& routes[v] != 0
    }

    /// The table of next hops, from what the search found.
    fn compute_result(&self, routes: &Vec<u128>, distance: &Vec<i32>) -> (table: VecMap<
        PeerId,
        Vec<PeerId>,
    >)
        requires
            self.wf_ids(),
            settled(self.adj(), distance@, routes@),
        ensures
            forall|peer: Seq<u8>|
                table.has(peer) <==> exists|v: int| #[trigger]
                    self.listed(distance@, routes@, v) && self.id2p@[v]@ == peer,
            forall|v: int| #[trigger]
                self.listed(distance@, routes@, v) ==> peer_views(
                    table.value(self.id2p@[v]@)@,
                ) == Self::picked(self.first_hops(), routes@[v], self.first_hops().len() as int),
    {
        let mut table: VecMap<PeerId, Vec<PeerId>> = VecMap::new();
        let mut key: usize = 0;
        proof {
            self.lemma_links_ok();
        }
        while key < routes.len()
            invariant
                self.wf_ids(),
                routes@.len() == self.id2p@.len(),
                distance@.len() == self.id2p@.len(),
                key <= routes@.len(),
                forall|peer: Seq<u8>|
                    table.has(peer) <==> exists|v: int| #[trigger]
                        self.listed(distance@, routes@, v) && v < key && self.id2p@[v]@ == peer,
                forall|v: int| #[trigger]
                    self.listed(distance@, routes@, v) && v < key ==> peer_views(
                        table.value(self.id2p@[v]@)@,
                    ) == Self::picked(self.first_hops(), routes@[v], self.first_hops().len() as int),
            decreases routes@.len() - key,
        {
            let cur_route = routes[key];
            if key != 0 && distance[key] != -1 && cur_route != 0 && self.used[key] {
                let peer_set = self.hops_of(cur_route);
                let ghost before = table;
                let peer = self.id2p[key].dup();
                proof {
                    assert(self.listed(distance@, routes@, key as int));
                    if before.has(peer@) {
                        let v = choose|v: int| #[trigger]
                            self.listed(distance@, routes@, v) && v < key && self.id2p@[v]@ == peer@;
                        assert(self.holds(v, peer@));
                        assert(self.holds(key as int, peer@));
                    }
                }
                table.insert(peer, peer_set);
                proof {
                    assert forall|p: Seq<u8>| table.has(p) <==> exists|v: int| #[trigger]
                        self.listed(distance@, routes@, v) && v < key + 1 && self.id2p@[v]@ == p by {
                        if p == peer@ {
                            assert(self.listed(distance@, routes@, key as int) && key < key + 1
                                && self.id2p@[key as int]@ == p);
                        } else {
                            if before.has(p) {
                                let v = choose|v: int| #[trigger]
                                    self.listed(distance@, routes@, v) && v < key && self.id2p@[v]@
                                        == p;
                                assert(self.listed(distance@, routes@, v) && v < key + 1
                                    && self.id2p@[v]@ == p);
                            }
                            if exists|v: int| #[trigger]
                                self.listed(distance@, routes@, v) && v < key + 1 && self.id2p@[v]@
                                    == p {
                                let v = choose|v: int| #[trigger]
                                    self.listed(distance@, routes@, v) && v < key + 1
                                        && self.id2p@[v]@ == p;
                                assert(v < key);
                            }
                        }
                    }
                    assert forall|v: int| #[trigger]
                        self.listed(distance@, routes@, v) && v < key + 1 implies peer_views(
                        table.value(self.id2p@[v]@)@,
                    ) == Self::picked(
                        self.first_hops(),
                        routes@[v],
                        self.first_hops().len() as int,
                    ) by {
                        if v < key {
                            assert(self.holds(v, self.id2p@[v]@));
                            assert(self.holds(key as int, peer@));
                            assert(self.id2p@[v]@ != peer@);
                            assert(before.has(self.id2p@[v]@));
                        }
                    }
                }
            } else {
                proof {
                    assert(!self.listed(distance@, routes@, key as int));
                    assert forall|p: Seq<u8>| table.has(p) <==> exists|v: int| #[trigger]
                        self.listed(distance@, routes@, v) && v < key + 1 && self.id2p@[v]@ == p by {
                        if table.has(p) {
                            let v = choose|v: int| #[trigger]
                                self.listed(distance@, routes@, v) && v < key && self.id2p@[v]@ == p;
                            assert(self.listed(distance@, routes@, v) && v < key + 1
                                && self.id2p@[v]@ == p);
                        }
                        if exists|v: int| #[trigger]
                            self.listed(distance@, routes@, v) && v < key + 1 && self.id2p@[v]@ == p {
                            let v = choose|v: int| #[trigger]
                                self.listed(distance@, routes@, v) && v < key + 1 && self.id2p@[v]@
                                    == p;
                            assert(v < key);
                        }
                    }
                }
            }
            key += 1;
        }
        proof {
            assert forall|peer: Seq<u8>| table.has(peer) <==> exists|v: int| #[trigger]
                self.listed(distance@, routes@, v) && self.id2p@[v]@ == peer by {
                if table.has(peer) {
                    let v = choose|v: int| #[trigger]
                        self.listed(distance@, routes@, v) && v < key && self.id2p@[v]@ == peer;
                    assert(self.listed(distance@, routes@, v) && self.id2p@[v]@ == peer);
                }
                if exists|v: int| #[trigger]
                    self.listed(distance@, routes@, v) && self.id2p@[v]@ == peer {
                    let v = choose|v: int| #[trigger]
                        self.listed(distance@, routes@, v) && self.id2p@[v]@ == peer;
                    assert(self.listed(distance@, routes@, v) && v < key && self.id2p@[v]@ == peer);
                }
            }
        }
        table
    }

    /// The table of next hops: for every peer to which a route leads, the
    /// neighbours of the source through which a shortest route to it begins,
    /// in the order of the source's neighbours. Peers without a route are
    /// not in the table. Of more than 128 neighbours of the source only the
    /// first 128 begin routes.
    pub fn calculate_distance(&self) -> (table: VecMap<PeerId, Vec<PeerId>>)
        requires
            self.wf(),
        ensures
            forall|peer: Seq<u8>| table.has(peer) == self.reachable(peer),
            forall|peer: Seq<u8>| #[trigger]
                table.has(peer) ==> peer_views(table.value(peer)@) == self.next_hops(peer),
            forall|peer: Seq<u8>| #[trigger]
                table.has(peer) ==> table.value(peer)@.len() > 0 && forall|i: int|
                    0 <= i < table.value(peer)@.len() ==> self.neighbors(self.source()).contains(
                        #[trigger] table.value(peer)@[i]@,
                    ),
            forall|peer: Seq<u8>| #[trigger]
                table.has(peer) ==> peer_views(table.value(peer)@).no_duplicates(),
            forall|peer: Seq<u8>|
                self.first_hops().contains(peer) ==> #[trigger] table.has(peer) && peer_views(
                    table.value(peer)@,
                ) == seq![peer],
    {
        proof {
            self.lemma_links_ok();
            assert(lists(&self.adjacency) =~= self.adj());
        }
        let found = search(&self.adjacency);
        let distance = found.0;
        let routes = found.1;
        let table = self.compute_result(&routes, &distance);
        proof {
            self.lemma_first_hops();
            let hops = self.first_hops();
            assert forall|peer: Seq<u8>| table.has(peer) == self.reachable(peer) by {
                if table.has(peer) {
                    let v = choose|v: int| #[trigger]
                        self.listed(distance@, routes@, v) && self.id2p@[v]@ == peer;
                    self.lemma_found(distance@, routes@, v);
                }
                if self.reachable(peer) {
                    let route = choose|route: Seq<Seq<u8>>| #[trigger]
                        self.is_route(route) && route.last() == peer;
                    let walk = self.lemma_walk_of_route(route);
                    let v = walk.last();
                    assert(self.holds(walk[walk.len() - 1], route[walk.len() - 1]));
                    assert(0 < walk[walk.len() - 1] < self.adj().len());
                    self.lemma_found(distance@, routes@, v);
                    assert(self.listed(distance@, routes@, v) && self.id2p@[v]@ == peer);
                }
            }
            assert forall|peer: Seq<u8>| #[trigger] table.has(peer) implies peer_views(
                table.value(peer)@,
            ) == self.next_hops(peer) && table.value(peer)@.len() > 0 && forall|i: int|
                0 <= i < table.value(peer)@.len() ==> self.neighbors(self.source()).contains(
                    #[trigger] table.value(peer)@[i]@,
                ) by {
                let v = choose|v: int| #[trigger]
                    self.listed(distance@, routes@, v) && self.id2p@[v]@ == peer;
                self.lemma_found(distance@, routes@, v);
                let mask = routes@[v];
                let list = peer_views(table.value(peer)@);
                assert(list == Self::picked(hops, mask, hops.len() as int));
                Self::lemma_picked_is_filter(hops, mask, self.through(peer), hops.len() as int);
                assert(hops.take(hops.len() as int) =~= hops);
                Self::lemma_picked_members(hops, mask, hops.len() as int);
                let j = choose|j: int| 0 <= j < hops.len() && #[trigger] has_bit(mask, j);
                assert(list.contains(hops[j]));
                assert forall|i: int| 0 <= i < table.value(peer)@.len() implies self.neighbors(
                    self.source(),
                ).contains(#[trigger] table.value(peer)@[i]@) by {
                    assert(list[i] == table.value(peer)@[i]@);
                    assert(hops.contains(list[i]));
                    let m = hops.index_of(list[i]);
                    assert(hops[m] == list[i]);
                }
            }
            assert forall|peer: Seq<u8>| #[trigger] table.has(peer) implies peer_views(
                table.value(peer)@,
            ).no_duplicates() by {
                self.lemma_next_hops_distinct(peer);
            }
            assert forall|peer: Seq<u8>| self.first_hops().contains(peer) implies #[trigger] table.has(
                peer,
            ) && peer_views(table.value(peer)@) == seq![peer] by {
                self.lemma_direct_hop(peer);
            }
        }
        table
    }

    /// Linking two peers a second time changes nothing: the graph after the
    /// second call has the links and the count of the graph after the first.
    pub proof fn lemma_add_edge_twice(first: Graph, second: Graph, third: Graph, a: Seq<u8>, b: Seq<u8>)
        requires
            Self::edge_added(first, second, a, b),
            Self::edge_added(second, third, a, b),
        ensures
            third.same_links(second),
    {
        if first.has_edge(a, b) {
            assert(second.neighbors(a) == first.neighbors(a));
        } else {
            let last = first.neighbors(a).len() as int;
            assert(second.neighbors(a)[last] == b);
        }
    }

    /// Taking away a link that is not there changes nothing.
    pub proof fn lemma_remove_absent_edge(before: Graph, after: Graph, a: Seq<u8>, b: Seq<u8>)
        requires
            !before.has_edge(a, b),
            Self::edge_removed(before, after, a, b),
        ensures
            after.same_links(before),
    {
    }

    /// Whether `peer` belongs to the graph: it is the source or has a link.
    pub open spec fn has_peer(&self, peer: Seq<u8>) -> bool {
        peer == self.source() || self.neighbors(peer).len() > 0
    }

    /// The peers with an id are those that belong to the graph.
    proof fn lemma_knows(&self, peer: Seq<u8>)
        requires
            self.wf(),
        ensures
            self.knows(peer) == self.has_peer(peer),
    {
        assert(self.holds(0, self.source()));
        if self.knows(peer) {
            let i = self.id_of(peer);
            assert(self.holds(i, peer));
            self.lemma_neighbors(i, peer);
            if i >= 1 {
                assert(self.adjacency@[i]@.len() > 0);
            }
        }
    }

    /// The peers of the graph, each once: the source and every peer that has
    /// a link.
    pub fn peers(&self) -> (peers: Vec<PeerId>)
        requires
            self.wf(),
        ensures
            peer_views(peers@).no_duplicates(),
            forall|peer: Seq<u8>| peer_views(peers@).contains(peer) == self.has_peer(peer),
    {
        let mut peers: Vec<PeerId> = Vec::new();
        let ghost mut ids: Seq<int> = Seq::empty();
        let mut i: usize = 0;
        while i < self.id2p.len()
            invariant
                self.wf(),
                i <= self.id2p@.len(),
                ids.len() == peers@.len(),
                forall|k: int|
                    0 <= k < ids.len() ==> 0 <= #[trigger] ids[k] < i && self.used@[ids[k]]
                        && peers@[k]@ == self.id2p@[ids[k]]@,
                forall|a: int, b: int| 0 <= a < b < ids.len() ==> ids[a] < ids[b],
                forall|j: int| 0 <= j < i && #[trigger] self.used@[j] ==> ids.contains(j),
            decreases self.id2p@.len() - i,
        {
            if self.used[i] {
                let ghost before = ids;
                peers.push(self.id2p[i].dup());
                proof {
                    ids = ids.push(i as int);
                    assert forall|j: int| 0 <= j < i + 1 && #[trigger] self.used@[j] implies ids.contains(
                        j,
                    ) by {
                        if j < i {
                            assert(before.contains(j));
                            let k = before.index_of(j);
                            assert(before[k] == j);
                            assert(ids[k] == j);
                        } else {
                            assert(ids[before.len() as int] == j);
                        }
                    }
                }
            }
            i += 1;
        }
        proof {
            let views = peer_views(peers@);
            assert forall|a: int, b: int| 0 <= a < views.len() && 0 <= b < views.len() && a != b implies views[a]
                != views[b] by {
                assert(ids[a] != ids[b]);
                assert(self.used@[ids[a]] && self.used@[ids[b]]);
            }
            assert forall|peer: Seq<u8>| views.contains(peer) == self.has_peer(peer) by {
                self.lemma_knows(peer);
                if views.contains(peer) {
                    let k = views.index_of(peer);
                    assert(self.holds(ids[k], peer));
                }
                if self.knows(peer) {
                    let j = self.id_of(peer);
                    assert(self.holds(j, peer));
                    assert(self.used@[j]);
                    assert(ids.contains(j));
                    let k = ids.index_of(j);
                    assert(ids[k] == j);
                    assert(views[k] == peer);
                }
            }
        }
        peers
    }

    /// No peer is twice among the next hops to a peer.
    pub proof fn lemma_next_hops_distinct(&self, peer: Seq<u8>)
        requires
            self.wf(),
        ensures
            self.first_hops().no_duplicates(),
            self.next_hops(peer).no_duplicates(),
    {
        self.lemma_links_are_simple(self.source());
        lemma_filter_distinct(self.first_hops(), self.through(peer));
    }

    /// To a first hop the only next hop is that peer itself.
    pub proof fn lemma_direct_hop(&self, peer: Seq<u8>)
        requires
            self.wf(),
            self.first_hops().contains(peer),
        ensures
            self.reachable(peer),
            self.next_hops(peer) == seq![peer],
    {
        let hops = self.first_hops();
        let test = self.through(peer);
        let list = self.next_hops(peer);
        self.lemma_links_are_simple(self.source());
        self.lemma_next_hops_distinct(peer);
        let at = hops.index_of(peer);
        assert(hops[at] == peer);
        assert(self.neighbors(self.source()).contains(peer)) by {
            assert(self.neighbors(self.source())[at] == peer);
        }
        let direct = seq![self.source(), peer];
        assert(self.is_route(direct));
        assert(direct.last() == peer);
        assert(self.is_shortest(direct));
        assert(direct[1] == peer);
        assert(self.shortest_through(peer, peer));
        assert(test(hops[at]));
        hops.lemma_filter_contains(test, at);
        assert forall|k: int| 0 <= k < list.len() implies #[trigger] list[k] == peer by {
            hops.lemma_filter_pred(test, k);
            let route = choose|route: Seq<Seq<u8>>| #[trigger]
                self.is_shortest(route) && route.last() == peer && route[1] == list[k];
            assert(self.is_route(direct) && direct.last() == route.last());
            assert(route.len() == 2);
        }
        if list.len() > 1 {
            assert(list[0] == list[1]);
        }
        assert(list =~= seq![peer]);
    }

    /// No peer is linked to itself, and no peer is twice among the neighbours
    /// of a peer.
    pub proof fn lemma_links_are_simple(&self, a: Seq<u8>)
        requires
            self.wf(),
        ensures
            !self.has_edge(a, a),
            self.neighbors(a).no_duplicates(),
    {
        if self.knows(a) {
            let i = self.id_of(a);
            assert(self.holds(i, a));
            self.lemma_neighbors(i, a);
            self.lemma_neighbors_distinct(i, a);
            if self.has_edge(a, a) {
                let k = self.neighbors(a).index_of(a);
                let x = self.adjacency@[i]@[k];
                assert(self.holds(x as int, a));
            }
        }
    }

    /// Links have no direction: `a` is linked to `b` exactly when `b` is
    /// linked to `a`.
    pub proof fn lemma_symmetric(&self, a: Seq<u8>, b: Seq<u8>)
        requires
            self.wf(),
        ensures
            self.has_edge(a, b) == self.has_edge(b, a),
    {
        if self.has_edge(a, b) {
            self.lemma_one_way(a, b);
        }
        if self.has_edge(b, a) {
            self.lemma_one_way(b, a);
        }
    }

    proof fn lemma_one_way(&self, a: Seq<u8>, b: Seq<u8>)
        requires
            self.wf_ids(),
            self.has_edge(a, b),
        ensures
            self.has_edge(b, a),
    {
        let i = self.id_of(a);
        assert(self.knows(a));
        assert(self.holds(i, a));
        self.lemma_neighbors(i, a);
        let k = self.neighbors(a).index_of(b);
        let x = self.adjacency@[i]@[k];
        assert(self.holds(x as int, b));
        self.lemma_neighbors(x as int, b);
        assert(self.adjacency@[x as int]@.contains(i as u32));
    }
}

} // verus!
