use borsh::BorshSerialize;
use near_crypto::{KeyType, SecretKey};
use peer_routing::graph::{Graph, MAX_NUM_PEERS, UNREACHABLE_PEERS_WARNING};
use peer_routing::keys::{PeerId, PublicKey};
use peer_routing::vec_map::VecMap;

fn random_peer_id() -> PeerId {
    let key = SecretKey::from_random(KeyType::ED25519).public_key();
    PeerId::new(PublicKey::from_bytes(key.try_to_vec().unwrap()).unwrap())
}

fn seeded_peer_id(seed: &str) -> PeerId {
    let key = SecretKey::from_seed(KeyType::ED25519, seed).public_key();
    PeerId::new(PublicKey::from_bytes(key.try_to_vec().unwrap()).unwrap())
}

fn expected_routing_tables(
    current: VecMap<PeerId, Vec<PeerId>>,
    expected: Vec<(PeerId, Vec<PeerId>)>,
) -> bool {
    if current.len() != expected.len() {
        return false;
    }
    for (peer, paths) in expected.into_iter() {
        let cur_paths = current.get(&peer);
        if !cur_paths.is_some() {
            return false;
        }
        let cur_paths = cur_paths.unwrap();
        if cur_paths.len() != paths.len() {
            return false;
        }
        for next_hop in paths.into_iter() {
            if !cur_paths.contains(&next_hop) {
                return false;
            }
        }
    }
    true
}

#[test]
fn graph_contains_edge() {
    let source = random_peer_id();

    let node0 = random_peer_id();
    let node1 = random_peer_id();

    let mut graph = Graph::new(source.clone());

    assert_eq!(graph.contains_edge(&source, &node0), false);
    assert_eq!(graph.contains_edge(&source, &node1), false);
    assert_eq!(graph.contains_edge(&node0, &node1), false);
    assert_eq!(graph.contains_edge(&node1, &node0), false);

    graph.add_edge(&node0, &node1);

    assert_eq!(graph.contains_edge(&source, &node0), false);
    assert_eq!(graph.contains_edge(&source, &node1), false);
    assert_eq!(graph.contains_edge(&node0, &node1), true);
    assert_eq!(graph.contains_edge(&node1, &node0), true);

    graph.remove_edge(&node1, &node0);

    assert_eq!(graph.contains_edge(&node0, &node1), false);
    assert_eq!(graph.contains_edge(&node1, &node0), false);

    assert_eq!(0, graph.total_active_edges() as usize);
    assert_eq!(0, graph.compute_total_active_edges() as usize);
}

#[test]
fn graph_distance0() {
    let source = random_peer_id();
    let node0 = random_peer_id();

    let mut graph = Graph::new(source.clone());
    graph.add_edge(&source, &node0);
    graph.remove_edge(&source, &node0);
    graph.add_edge(&source, &node0);

    assert!(expected_routing_tables(
        graph.calculate_distance(),
        vec![(node0.clone(), vec![node0.clone()])],
    ));

    assert_eq!(1, graph.total_active_edges() as usize);
    assert_eq!(1, graph.compute_total_active_edges() as usize);
}

#[test]
fn graph_distance1() {
    let source = random_peer_id();
    let nodes: Vec<_> = (0..3).map(|_| random_peer_id()).collect();

    let mut graph = Graph::new(source.clone());

    graph.add_edge(&nodes[0], &nodes[1]);
    graph.add_edge(&nodes[2], &nodes[1]);
    graph.add_edge(&nodes[1], &nodes[2]);

    assert!(expected_routing_tables(graph.calculate_distance(), vec![]));

    assert_eq!(2, graph.total_active_edges() as usize);
    assert_eq!(2, graph.compute_total_active_edges() as usize);
}

#[test]
fn graph_distance2() {
    let source = random_peer_id();
    let nodes: Vec<_> = (0..3).map(|_| random_peer_id()).collect();

    let mut graph = Graph::new(source.clone());

    graph.add_edge(&nodes[0], &nodes[1]);
    graph.add_edge(&nodes[2], &nodes[1]);
    graph.add_edge(&nodes[1], &nodes[2]);
    graph.add_edge(&source, &nodes[0]);

    assert!(expected_routing_tables(
        graph.calculate_distance(),
        vec![
            (nodes[0].clone(), vec![nodes[0].clone()]),
            (nodes[1].clone(), vec![nodes[0].clone()]),
            (nodes[2].clone(), vec![nodes[0].clone()]),
        ],
    ));

    assert_eq!(3, graph.total_active_edges() as usize);
    assert_eq!(3, graph.compute_total_active_edges() as usize);
}

#[test]
fn graph_distance3() {
    let source = random_peer_id();
    let nodes: Vec<_> = (0..3).map(|_| random_peer_id()).collect();

    let mut graph = Graph::new(source.clone());

    graph.add_edge(&nodes[0], &nodes[1]);
    graph.add_edge(&nodes[2], &nodes[1]);
    graph.add_edge(&nodes[0], &nodes[2]);
    graph.add_edge(&source, &nodes[0]);
    graph.add_edge(&source, &nodes[1]);

    assert!(expected_routing_tables(
        graph.calculate_distance(),
        vec![
            (nodes[0].clone(), vec![nodes[0].clone()]),
            (nodes[1].clone(), vec![nodes[1].clone()]),
            (nodes[2].clone(), vec![nodes[0].clone(), nodes[1].clone()]),
        ],
    ));

    assert_eq!(5, graph.total_active_edges() as usize);
    assert_eq!(5, graph.compute_total_active_edges() as usize);
}

/// Test the following graph
///     0 - 3 - 6
///   /   x   x
/// s - 1 - 4 - 7
///   \   x   x
///     2 - 5 - 8
///
///    9 - 10 (Dummy edge disconnected)
///
/// There is a shortest path to nodes [3..9) going through 0, 1, and 2.
#[test]
fn graph_distance4() {
    let source = random_peer_id();
    let nodes: Vec<_> = (0..11).map(|_| random_peer_id()).collect();

    let mut graph = Graph::new(source.clone());

    for i in 0..3 {
        graph.add_edge(&source, &nodes[i]);
    }

    for level in 0..2 {
        for i in 0..3 {
            for j in 0..3 {
                graph.add_edge(&nodes[level * 3 + i], &nodes[level * 3 + 3 + j]);
            }
        }
    }

    // Dummy edge.
    graph.add_edge(&nodes[9], &nodes[10]);

    let mut next_hops: Vec<_> =
        (0..3).map(|i| (nodes[i].clone(), vec![nodes[i].clone()])).collect();
    let target: Vec<_> = (0..3).map(|i| nodes[i].clone()).collect();

    for i in 3..9 {
        next_hops.push((nodes[i].clone(), target.clone()));
    }

    assert!(expected_routing_tables(graph.calculate_distance(), next_hops));

    assert_eq!(22, graph.total_active_edges() as usize);
    assert_eq!(22, graph.compute_total_active_edges() as usize);
}

#[test]
fn diamond_keeps_the_order_of_the_neighbours() {
    let source = seeded_peer_id("source");
    let nodes: Vec<_> = (0..3).map(|i| seeded_peer_id(&format!("diamond{}", i))).collect();
    let mut graph = Graph::new(source.clone());
    graph.add_edge(&nodes[0], &nodes[1]);
    graph.add_edge(&nodes[2], &nodes[1]);
    graph.add_edge(&nodes[0], &nodes[2]);
    graph.add_edge(&source, &nodes[0]);
    graph.add_edge(&source, &nodes[1]);
    let table = graph.calculate_distance();
    assert_eq!(table.len(), 3);
    assert_eq!(table.get(&nodes[0]), Some(&vec![nodes[0].clone()]));
    assert_eq!(table.get(&nodes[1]), Some(&vec![nodes[1].clone()]));
    assert_eq!(table.get(&nodes[2]), Some(&vec![nodes[0].clone(), nodes[1].clone()]));
    assert_eq!(table.get(&source), None);
}

#[test]
fn other_components_are_left_out() {
    let source = seeded_peer_id("source");
    let nodes: Vec<_> = (0..11).map(|i| seeded_peer_id(&format!("ghost{}", i))).collect();
    let mut graph = Graph::new(source.clone());
    graph.add_edge(&nodes[0], &nodes[1]);
    graph.add_edge(&nodes[2], &nodes[1]);
    graph.add_edge(&nodes[0], &nodes[2]);
    graph.add_edge(&source, &nodes[0]);
    graph.add_edge(&source, &nodes[1]);
    graph.add_edge(&nodes[9], &nodes[10]);
    let table = graph.calculate_distance();
    assert_eq!(table.len(), 3);
    assert_eq!(table.get(&nodes[2]), Some(&vec![nodes[0].clone(), nodes[1].clone()]));
    assert_eq!(table.get(&nodes[9]), None);
    assert_eq!(table.get(&nodes[10]), None);
    assert_eq!(graph.total_active_edges(), 6);
    assert_eq!(graph.compute_total_active_edges(), 6);
}

#[test]
fn edges_have_no_direction_and_totals_agree() {
    let source = seeded_peer_id("source");
    let a = seeded_peer_id("a");
    let b = seeded_peer_id("b");
    let c = seeded_peer_id("c");
    let mut graph = Graph::new(source.clone());
    graph.add_edge(&a, &b);
    graph.add_edge(&c, &a);
    graph.add_edge(&source, &c);
    graph.remove_edge(&b, &a);
    for (x, y) in [(&a, &b), (&a, &c), (&c, &source), (&b, &c)] {
        assert_eq!(graph.contains_edge(x, y), graph.contains_edge(y, x));
    }
    assert!(graph.contains_edge(&a, &c));
    assert!(!graph.contains_edge(&a, &b));
    assert_eq!(graph.total_active_edges(), 2);
    assert_eq!(graph.compute_total_active_edges(), graph.total_active_edges());
}

#[test]
fn adding_an_edge_twice_is_adding_it_once() {
    let source = seeded_peer_id("source");
    let a = seeded_peer_id("a");
    let mut graph = Graph::new(source.clone());
    graph.add_edge(&source, &a);
    let first = graph.calculate_distance();
    let total = graph.total_active_edges();
    graph.add_edge(&a, &source);
    assert_eq!(graph.total_active_edges(), total);
    assert_eq!(graph.compute_total_active_edges(), 1);
    let second = graph.calculate_distance();
    assert_eq!(first.len(), second.len());
    assert_eq!(first.get(&a), second.get(&a));
}

#[test]
fn removing_an_absent_edge_changes_nothing() {
    let source = seeded_peer_id("source");
    let a = seeded_peer_id("a");
    let b = seeded_peer_id("b");
    let mut graph = Graph::new(source.clone());
    graph.add_edge(&source, &a);
    graph.remove_edge(&a, &b);
    graph.remove_edge(&b, &source);
    assert_eq!(graph.total_active_edges(), 1);
    assert_eq!(graph.compute_total_active_edges(), 1);
    assert!(graph.contains_edge(&source, &a));
    assert_eq!(graph.calculate_distance().get(&a), Some(&vec![a.clone()]));
}

#[test]
fn ids_of_forgotten_peers_are_used_again() {
    let source = seeded_peer_id("source");
    let a = seeded_peer_id("a");
    let b = seeded_peer_id("b");
    let c = seeded_peer_id("c");
    let mut graph = Graph::new(source.clone());
    graph.add_edge(&source, &a);
    graph.add_edge(&a, &b);
    graph.remove_edge(&a, &b);
    graph.add_edge(&a, &c);
    let table = graph.calculate_distance();
    assert_eq!(table.len(), 2);
    assert_eq!(table.get(&c), Some(&vec![a.clone()]));
    assert_eq!(table.get(&b), None);
    assert_eq!(graph.my_peer_id(), &source);
    assert!(graph.has_room());
}

#[test]
fn fan_out_of_128_is_packed_into_the_routes() {
    let source = seeded_peer_id("source");
    let hops: Vec<_> = (0..MAX_NUM_PEERS).map(|i| seeded_peer_id(&format!("hop{}", i))).collect();
    let far = seeded_peer_id("far");
    let mut graph = Graph::new(source.clone());
    for hop in hops.iter() {
        graph.add_edge(&source, hop);
    }
    for hop in hops.iter() {
        graph.add_edge(hop, &far);
    }
    let table = graph.calculate_distance();
    assert_eq!(table.len(), 129);
    assert_eq!(table.get(&far), Some(&hops));
    assert_eq!(table.get(&hops[127]), Some(&vec![hops[127].clone()]));
}

#[test]
fn fan_out_of_129_leaves_the_last_neighbour_out() {
    let source = seeded_peer_id("source");
    let hops: Vec<_> = (0..129).map(|i| seeded_peer_id(&format!("hop{}", i))).collect();
    let far = seeded_peer_id("far");
    let behind = seeded_peer_id("behind");
    let mut graph = Graph::new(source.clone());
    for hop in hops.iter() {
        graph.add_edge(&source, hop);
    }
    for hop in hops.iter() {
        graph.add_edge(hop, &far);
    }
    graph.add_edge(&hops[128], &behind);
    let table = graph.calculate_distance();
    let first: Vec<_> = hops[..128].to_vec();
    assert_eq!(table.get(&far), Some(&first));
    // the last neighbour is reached through `far`, two steps from the first 128
    assert_eq!(table.get(&hops[128]), Some(&first));
    assert_eq!(table.get(&behind), Some(&first));
    assert_eq!(table.len(), 131);
}

#[test]
fn peers_of_the_graph_are_the_source_and_the_linked_peers() {
    let source = seeded_peer_id("source");
    let a = seeded_peer_id("a");
    let b = seeded_peer_id("b");
    let c = seeded_peer_id("c");
    let mut graph = Graph::new(source.clone());
    assert_eq!(graph.peers(), vec![source.clone()]);
    graph.add_edge(&a, &b);
    graph.add_edge(&b, &c);
    graph.remove_edge(&a, &b);
    let peers = graph.peers();
    assert_eq!(peers.len(), 3);
    assert!(peers.contains(&source));
    assert!(peers.contains(&b));
    assert!(peers.contains(&c));
    assert!(!peers.contains(&a));
}

#[test]
fn next_hops_are_neighbours_of_the_source() {
    let source = seeded_peer_id("source");
    let nodes: Vec<_> = (0..12).map(|i| seeded_peer_id(&format!("hop-test{}", i))).collect();
    let mut graph = Graph::new(source.clone());
    for i in 0..4 {
        graph.add_edge(&source, &nodes[i]);
    }
    for i in 0..11 {
        graph.add_edge(&nodes[i], &nodes[i + 1]);
    }
    graph.add_edge(&nodes[2], &nodes[9]);
    let table = graph.calculate_distance();
    assert_eq!(table.len(), 12);
    for node in nodes.iter() {
        let hops = table.get(node).unwrap();
        assert!(!hops.is_empty());
        for hop in hops.iter() {
            assert!(graph.contains_edge(&source, hop));
        }
    }
    assert_eq!(table.get(&nodes[9]), Some(&vec![nodes[2].clone()]));
    assert_eq!(table.get(&nodes[6]), Some(&vec![nodes[3].clone()]));
    assert_eq!(table.get(&nodes[7]), Some(&vec![nodes[2].clone()]));
    assert_eq!(table.get(&nodes[1]), Some(&vec![nodes[1].clone()]));
    // two steps from the source through the hop 3, and through no other
    assert_eq!(table.get(&nodes[4]), Some(&vec![nodes[3].clone()]));
}

/// The next hops by the book: the distances from the source and from each of
/// its neighbours, each by a search of its own.
fn next_hops_by_distances(
    links: &Vec<(usize, usize)>,
    order: &Vec<usize>,
    nodes: usize,
) -> Vec<Option<Vec<usize>>> {
    let distances = |from: usize, without: Option<usize>| -> Vec<Option<usize>> {
        let mut dist = vec![None; nodes];
        dist[from] = Some(0);
        let mut queue = std::collections::VecDeque::new();
        queue.push_back(from);
        while let Some(cur) = queue.pop_front() {
            for (a, b) in links.iter() {
                for (x, y) in [(*a, *b), (*b, *a)] {
                    if x == cur && Some(y) != without && dist[y].is_none() {
                        dist[y] = Some(dist[cur].unwrap() + 1);
                        queue.push_back(y);
                    }
                }
            }
        }
        dist
    };
    let from_source = distances(0, None);
    let from_hops: Vec<_> = order.iter().map(|hop| distances(*hop, Some(0))).collect();
    (0..nodes)
        .map(|target| match from_source[target] {
            Some(d) if target != 0 => Some(
                order
                    .iter()
                    .enumerate()
                    .filter(|(i, _)| from_hops[*i][target] == Some(d - 1))
                    .map(|(_, hop)| *hop)
                    .collect(),
            ),
            _ => None,
        })
        .collect()
}

#[test]
fn next_hops_agree_with_the_distances_on_many_graphs() {
    let nodes = 24;
    let peers: Vec<_> = (0..nodes).map(|i| seeded_peer_id(&format!("many{}", i))).collect();
    let mut seed: u64 = 12345;
    let mut next = move |bound: usize| {
        seed = seed.wrapping_mul(6364136223846793005).wrapping_add(1442695040888963407);
        ((seed >> 33) as usize) % bound
    };
    for round in 0..60 {
        let mut graph = Graph::new(peers[0].clone());
        let mut links: Vec<(usize, usize)> = Vec::new();
        let mut order: Vec<usize> = Vec::new();
        for _ in 0..(10 + round) {
            let (a, b) = (next(nodes), next(nodes));
            if a == b {
                continue;
            }
            let known = links.iter().position(|l| *l == (a, b) || *l == (b, a));
            if next(4) == 0 {
                graph.remove_edge(&peers[a], &peers[b]);
                if let Some(at) = known {
                    links.remove(at);
                    if a == 0 || b == 0 {
                        order.retain(|hop| *hop != a + b);
                    }
                }
            } else {
                graph.add_edge(&peers[a], &peers[b]);
                if known.is_none() {
                    links.push((a, b));
                    if a == 0 || b == 0 {
                        order.push(a + b);
                    }
                }
            }
        }
        assert_eq!(graph.total_active_edges() as usize, links.len());
        assert_eq!(graph.compute_total_active_edges() as usize, links.len());
        let table = graph.calculate_distance();
        let expected = next_hops_by_distances(&links, &order, nodes);
        for target in 0..nodes {
            let hops = table.get(&peers[target]).map(|hops| {
                hops.iter().map(|hop| peers.iter().position(|p| p == hop).unwrap()).collect::<Vec<_>>()
            });
            assert_eq!(hops, expected[target]);
        }
    }
}

#[test]
fn unreachable_peers_are_those_without_a_route() {
    assert_eq!(UNREACHABLE_PEERS_WARNING, 1000);
    let source = seeded_peer_id("source");
    let nodes: Vec<_> = (0..5).map(|i| seeded_peer_id(&format!("lost{}", i))).collect();
    let mut graph = Graph::new(source.clone());
    assert!(graph.unreachable_peers(&graph.calculate_distance()).is_empty());
    graph.add_edge(&source, &nodes[0]);
    graph.add_edge(&nodes[0], &nodes[1]);
    graph.add_edge(&nodes[2], &nodes[3]);
    graph.add_edge(&nodes[3], &nodes[4]);
    let table = graph.calculate_distance();
    let lost = graph.unreachable_peers(&table);
    assert_eq!(lost.len(), 3);
    for node in &nodes[2..] {
        assert!(lost.contains(node));
    }
    graph.add_edge(&nodes[1], &nodes[2]);
    assert!(graph.unreachable_peers(&graph.calculate_distance()).is_empty());
    // against a table that holds nothing every peer but the source is left
    assert_eq!(graph.unreachable_peers(&VecMap::new()).len(), 5);
}

#[test]
fn no_peer_is_twice_among_the_next_hops() {
    let source = seeded_peer_id("source");
    let hops: Vec<_> = (0..6).map(|i| seeded_peer_id(&format!("near{}", i))).collect();
    let far: Vec<_> = (0..4).map(|i| seeded_peer_id(&format!("far{}", i))).collect();
    let mut graph = Graph::new(source.clone());
    for hop in hops.iter() {
        graph.add_edge(&source, hop);
        graph.add_edge(hop, &source);
    }
    // the neighbours of the source are linked with each other and with the
    // peers behind them, each link named in both directions
    for (i, a) in hops.iter().enumerate() {
        for b in hops.iter().skip(i + 1) {
            graph.add_edge(a, b);
            graph.add_edge(b, a);
        }
        for peer in far.iter() {
            graph.add_edge(a, peer);
            graph.add_edge(peer, a);
        }
    }
    graph.add_edge(&far[0], &far[1]);
    let table = graph.calculate_distance();
    assert_eq!(table.len(), 10);
    for hop in hops.iter() {
        assert_eq!(table.get(hop), Some(&vec![hop.clone()]));
    }
    for peer in far.iter() {
        assert_eq!(table.get(peer), Some(&hops));
    }
}

#[test]
fn adding_an_edge_again_needs_no_room() {
    let (a, b, c) = (seeded_peer_id("a"), seeded_peer_id("b"), seeded_peer_id("c"));
    let mut graph = Graph::new(a.clone());
    graph.add_edge(&a, &b);
    graph.add_edge(&b, &c);
    for (x, y) in [(&a, &b), (&b, &a), (&c, &b), (&b, &c)] {
        assert!(graph.contains_edge(x, y));
        graph.add_edge(x, y);
        assert_eq!(graph.total_active_edges(), 2);
        assert_eq!(graph.compute_total_active_edges(), 2);
        assert!(!graph.contains_edge(&a, &c));
        let table = graph.calculate_distance();
        assert_eq!(table.len(), 2);
        assert_eq!(table.get(&b), Some(&vec![b.clone()]));
        assert_eq!(table.get(&c), Some(&vec![b.clone()]));
    }
}
