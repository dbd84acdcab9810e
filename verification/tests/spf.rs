use spf::{spf, spf_get, spf_reverse, spf_run, tilfa_graph, Direction, Link, Node};

fn five_node_ecmp_graph() -> Vec<Node> {
    let mut graph = vec![
        Node::new("N1", 0),
        Node::new("N2", 1),
        Node::new("N3", 2),
        Node::new("N4", 3),
        Node::new("N5", 4),
    ];

    let links = vec![
        (0, 1, 10),
        (0, 2, 10),
        (1, 0, 10),
        (1, 2, 5),
        (1, 3, 10),
        (2, 0, 10),
        (2, 1, 5),
        (2, 3, 10),
        (3, 1, 10),
        (3, 2, 10),
        (3, 4, 10),
        (4, 3, 10),
    ];

    for (from, to, cost) in links {
        graph[from].olinks.push(Link::new(from, to, cost));
    }
    graph
}

#[test]
fn ecmp_topology() {
    let graph = five_node_ecmp_graph();
    assert_eq!(graph.len(), 5);
    assert_eq!(graph[0].olinks[0].cost, 10);
    assert_eq!(graph[1].olinks[1].cost, 5);
    assert!(!graph.iter().any(|n| n.is_disabled));
}

#[test]
fn spf_ecmp_costs_and_paths() {
    let graph = five_node_ecmp_graph();
    let table = spf(&graph, 0, true, 0);

    assert_eq!(table.len(), 5);

    let n0 = spf_get(&table, 0).unwrap();
    assert_eq!(n0.cost, 0);
    assert_eq!(n0.paths, vec![vec![0]]);

    let n3 = spf_get(&table, 3).unwrap();
    assert_eq!(n3.cost, 20);
    assert_eq!(n3.paths, vec![vec![0, 1, 3], vec![0, 2, 3]]);

    let n4 = spf_get(&table, 4).unwrap();
    assert_eq!(n4.cost, 30);
    assert_eq!(n4.paths, vec![vec![0, 1, 3, 4], vec![0, 2, 3, 4]]);
}

#[test]
fn spf_deterministic() {
    let graph = five_node_ecmp_graph();
    let a = spf(&graph, 0, true, 0);
    let b = spf(&graph, 0, true, 0);
    assert_eq!(a, b);
    let c = spf(&graph, 0, false, 4);
    let d = spf(&graph, 0, false, 4);
    assert_eq!(c, d);
}

#[test]
fn spf_settle_order_costs_monotone() {
    let graph = five_node_ecmp_graph();
    let out = spf_run(&graph, 0, true, 0, Direction::Normal, None);
    for w in out.windows(2) {
        assert!(w[0].cost <= w[1].cost);
    }
    assert_eq!(out[0].id, 0);
}

#[test]
fn spf_path_max_caps_fanout() {
    let graph = five_node_ecmp_graph();
    for k in 1..4usize {
        let table = spf(&graph, 0, true, k);
        for e in &table {
            assert!(e.paths.len() <= k);
        }
        let nh = spf(&graph, 0, false, k);
        for e in &nh {
            assert!(e.nexthops.len() <= k);
        }
    }
    let one = spf(&graph, 0, true, 1);
    let n3 = spf_get(&one, 3).unwrap();
    assert_eq!(n3.paths, vec![vec![0, 1, 3]]);
}

#[test]
fn spf_nexthop_mode() {
    let graph = five_node_ecmp_graph();
    let table = spf(&graph, 0, false, 0);
    assert_eq!(table.len(), 5);
    let n4 = spf_get(&table, 4).unwrap();
    assert_eq!(n4.cost, 30);
    let mut hops = n4.nexthops.clone();
    hops.sort();
    assert_eq!(hops, vec![vec![0, 1], vec![0, 2]]);
}

#[test]
fn spf_disabled_node_excluded() {
    let mut graph = five_node_ecmp_graph();
    graph[3].is_disabled = true;
    let table = spf(&graph, 0, true, 0);
    assert!(spf_get(&table, 3).is_none());
    // node 4 is reachable only through node 3
    assert!(spf_get(&table, 4).is_none());
    for e in &table {
        for p in &e.paths {
            assert!(!p.contains(&3));
        }
    }
}

#[test]
fn spf_absent_root_finds_nothing() {
    let graph = five_node_ecmp_graph();
    let table = spf(&graph, 9, true, 0);
    assert!(table.is_empty());
}

#[test]
fn spf_disabled_root_settles_alone() {
    let mut graph = five_node_ecmp_graph();
    graph[0].is_disabled = true;
    let table = spf(&graph, 0, true, 0);
    assert_eq!(table.len(), 1);
    assert_eq!(table[0].id, 0);
    assert_eq!(table[0].cost, 0);
}

#[test]
fn spf_empty_graph() {
    let graph: Vec<Node> = Vec::new();
    let table = spf(&graph, 0, true, 0);
    assert!(table.is_empty());
}

#[test]
fn spf_skips_link_to_missing_node() {
    let mut graph = vec![Node::new("A", 0), Node::new("B", 1)];
    graph[0].olinks.push(Link::new(0, 1, 7));
    graph[0].olinks.push(Link::new(0, 9, 1));
    let table = spf(&graph, 0, true, 0);
    assert_eq!(table.len(), 2);
    assert_eq!(spf_get(&table, 1).unwrap().cost, 7);
    assert!(spf_get(&table, 9).is_none());
}

#[test]
fn spf_costs_independent_of_cap() {
    let graph = five_node_ecmp_graph();
    let full = spf(&graph, 0, true, 0);
    for k in 1..4usize {
        let capped = spf(&graph, 0, true, k);
        assert_eq!(full.len(), capped.len());
        for (a, b) in full.iter().zip(capped.iter()) {
            assert_eq!(a.id, b.id);
            assert_eq!(a.cost, b.cost);
        }
    }
}

#[test]
fn spf_reverse_reprioritizes() {
    // reverse traversal toward node 4: node 3 is first discovered over the
    // expensive direct link (cost 50) and must be re-prioritized once the
    // cheaper route over nodes 2, 0 and 1 (cost 40) is found
    let graph = tilfa_graph();
    let table = spf_reverse(&graph, 4, true, 0);
    assert_eq!(table.len(), 5);
    assert_eq!(spf_get(&table, 4).unwrap().cost, 0);
    assert_eq!(spf_get(&table, 2).unwrap().paths, vec![vec![4, 2]]);
    assert_eq!(spf_get(&table, 0).unwrap().cost, 20);
    assert_eq!(spf_get(&table, 1).unwrap().cost, 30);
    let n3 = spf_get(&table, 3).unwrap();
    assert_eq!(n3.cost, 40);
    assert_eq!(n3.paths, vec![vec![4, 2, 0, 1, 3]]);
}

#[test]
fn spf_parallel_links_keep_route_once_per_link() {
    // two equal-cost parallel links retain the same route twice: the
    // duplicate-freedom guarantee assumes distinct links
    let mut graph = vec![Node::new("A", 0), Node::new("B", 1)];
    graph[0].olinks.push(Link::new(0, 1, 5));
    graph[0].olinks.push(Link::new(0, 1, 5));
    let table = spf(&graph, 0, true, 0);
    let n1 = spf_get(&table, 1).unwrap();
    assert_eq!(n1.cost, 5);
    assert_eq!(n1.paths, vec![vec![0, 1], vec![0, 1]]);
}
