use spf::{p_space_nodes, pc_path, pc_paths, q_space_nodes, tilfa, Graph, Link, Node};

pub fn tilfa_graph() -> Graph {
    let mut graph = vec![
        Node::new("S", 0),
        Node::new("N1", 1),
        Node::new("N2", 2),
        Node::new("N3", 3),
        Node::new("R1", 4),
        Node::new("R2", 5),
        Node::new("R3", 6),
        Node::new("D", 7),
    ];

    let links = vec![
        // S
        (0, 1, 1),    // N1
        (0, 2, 1),    // N2
        (0, 3, 1000), // N3
        // N1
        (1, 0, 1), // S
        (1, 4, 1), // R1
        (1, 5, 1), // R2
        (1, 7, 1), // D
        // N2
        (2, 0, 1), // S
        (2, 4, 1), // R1
        // N3
        (3, 0, 1000), // S
        (3, 4, 1000), // R1
        // R1
        (4, 1, 1),    // N1
        (4, 2, 1),    // N2
        (4, 3, 1000), // N3
        (4, 5, 1000), // R2
        // R2
        (5, 1, 1),    // N1
        (5, 4, 1000), // R1
        (5, 6, 1000), // R3
        // R3
        (6, 5, 1000), // R2
        (6, 7, 1),    // D
        // D
        (7, 1, 1), // N1
        (7, 6, 1), // R3
    ];

    for (from, to, cost) in links {
        graph[from].olinks.push(Link::new(from, to, cost));
        graph[to].ilinks.push(Link::new(from, to, cost));
    }

    graph
}

#[test]
pub fn tilfa1() {
    let graph = tilfa_graph();
    let s = 0;
    let d = 7;
    let x = 1;

    let repair_list = tilfa(&graph, s, d, x);
    assert_eq!(repair_list, vec![4, 6]);

    // the first instruction lands in P-space, the last in Q-space
    let p = p_space_nodes(&graph, s, x);
    let q = q_space_nodes(&graph, d, x);
    assert!(p.contains(&repair_list[0]));
    assert!(q.contains(repair_list.last().unwrap()));
}

pub fn tilfa_graph_adj_seg() -> Graph {
    let mut graph = vec![
        Node::new("S", 0),
        Node::new("R2", 1),
        Node::new("R3", 2),
        Node::new("R4", 3),
        Node::new("R5", 4),
        Node::new("R7", 5),
        Node::new("R8", 6),
        Node::new("R9", 7),
        Node::new("R10", 8),
        Node::new("D", 9),
    ];

    let links = vec![
        // S
        (0, 1, 1), // R2
        // R2
        (1, 0, 1),    // S
        (1, 2, 1),    // R3
        (1, 5, 1000), // R7
        // R3
        (2, 1, 1), // R2
        (2, 3, 1), // R4
        (2, 5, 1), // R7
        (2, 6, 1), // R8
        // R4
        (3, 2, 1),    // R3
        (3, 4, 1),    // R5
        (3, 6, 1000), // R8
        // R5
        (4, 3, 1), // R4
        (4, 9, 1), // D
        // R7
        (5, 1, 1000), // R2
        (5, 2, 1),    // R3
        (5, 6, 1000), // R8
        (5, 7, 1000), // R9
        // R8
        (6, 2, 1),    // R3
        (6, 3, 1000), // R4
        (6, 5, 1000), // R7
        (6, 8, 1),    // R10
        // R9
        (7, 5, 1000), // R7
        (7, 8, 1),    // R10
        // R10
        (8, 6, 1), // R8
        (8, 7, 1), // R9
        // D
        (9, 4, 1), // R5
    ];

    for (from, to, cost) in links {
        graph[from].olinks.push(Link::new(from, to, cost));
        graph[to].ilinks.push(Link::new(from, to, cost));
    }

    graph
}

#[test]
pub fn tilfa2() {
    let graph = tilfa_graph_adj_seg();
    let s = 0;
    let d = 9; // D
    let x = 2; // R3

    let repair_list = tilfa(&graph, s, d, x);
    assert_eq!(repair_list, vec![1, 3]);

    let p = p_space_nodes(&graph, s, x);
    let q = q_space_nodes(&graph, d, x);
    assert!(p.contains(&repair_list[0]));
    assert!(q.contains(repair_list.last().unwrap()));
}

#[test]
fn tilfa1_spaces() {
    let graph = tilfa_graph();
    // P-space of S around N1: N2, N3, and R1 (R1 by its route through N2)
    assert_eq!(p_space_nodes(&graph, 0, 1), vec![2, 3, 4]);
    // Q-space of D around N1: only R3 reaches D without N1
    assert_eq!(q_space_nodes(&graph, 7, 1), vec![6]);
}

#[test]
fn tilfa1_pc_path() {
    let graph = tilfa_graph();
    let paths = pc_paths(&graph, 0, 7, 1);
    assert_eq!(paths, vec![vec![0, 2, 4, 5, 6, 7]]);
}

#[test]
fn pc_paths_unreachable_is_empty() {
    // S reaches D only through N1 once N2 is gone too
    let mut graph = tilfa_graph();
    graph[2].is_disabled = true;
    graph[3].is_disabled = true;
    let paths = pc_paths(&graph, 0, 7, 1);
    assert!(paths.is_empty());
}

#[test]
fn pc_path_five_node_fixture() {
    let graph = spf::tilfa_graph();
    // protect node 2: traffic from 0 to 4 reconverges over 1 and 3
    assert_eq!(pc_path(&graph, 4, 2), vec![0, 1, 3, 4]);
    // protecting node 1 leaves the shortest route untouched
    assert_eq!(pc_path(&graph, 4, 1), vec![0, 2, 4]);
}

#[test]
fn spaces_idempotent() {
    let graph = tilfa_graph();
    let p1 = p_space_nodes(&graph, 0, 1);
    let q1 = q_space_nodes(&graph, 7, 1);
    // interleave other queries, then re-run: the classification is stable
    let _ = tilfa(&graph, 0, 7, 1);
    let _ = pc_paths(&graph, 0, 7, 1);
    assert_eq!(p_space_nodes(&graph, 0, 1), p1);
    assert_eq!(q_space_nodes(&graph, 7, 1), q1);
}

#[test]
fn spaces_exclude_self() {
    let graph = tilfa_graph();
    for x in 0..8usize {
        assert!(!p_space_nodes(&graph, 0, x).contains(&0));
        assert!(!q_space_nodes(&graph, 7, x).contains(&7));
    }
}

#[test]
fn tilfa_no_repair_when_disjoint() {
    // a bare chain: protecting the middle node leaves no alternate at all
    let mut graph = vec![Node::new("A", 0), Node::new("B", 1), Node::new("C", 2)];
    let links = vec![(0, 1, 1), (1, 2, 1), (1, 0, 1), (2, 1, 1)];
    for (from, to, cost) in links {
        graph[from].olinks.push(Link::new(from, to, cost));
        graph[to].ilinks.push(Link::new(from, to, cost));
    }
    let repair_list = tilfa(&graph, 0, 2, 1);
    assert!(repair_list.is_empty());
}
