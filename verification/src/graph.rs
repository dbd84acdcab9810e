//! The topology model: nodes, directed weighted links, and the graph
//! container, together with two small fixture topologies.
//!
//! A graph is a vector of nodes indexed by node id: the node with id `i`
//! sits at position `i`.  Links are directed; a bidirectional adjacency is
//! two `Link` values.  A link is owned by its source node's `olinks` list
//! and, where reverse traversal is wanted, mirrored in the destination
//! node's `ilinks` list.

use vstd::prelude::*;

verus! {

/// A directed link from node `from` to node `to` with a non-negative cost.
#[derive(Debug, Clone, Copy, PartialEq, Eq)]
pub struct Link {
    pub from: usize,
    pub to: usize,
    pub cost: u32,
}

impl Link {
    pub fn new(from: usize, to: usize, cost: u32) -> (r: Self)
        ensures
            r == (Link { from, to, cost }),
    {
        Self { from, to, cost }
    }
}

/// A routing node: an id that doubles as its index in the graph, a
/// human-readable name, its outgoing and incoming links, and a flag used to
/// simulate the node's failure.
#[derive(Debug, Clone, PartialEq, Eq)]
pub struct Node {
    pub id: usize,
    pub name: String,
    pub olinks: Vec<Link>,
    pub ilinks: Vec<Link>,
    pub is_disabled: bool,
}

impl Node {
    pub fn new(name: &str, id: usize) -> (r: Self)
        ensures
            r.id == id,
            r.name@ == name@,
            r.olinks@ == Seq::<Link>::empty(),
            r.ilinks@ == Seq::<Link>::empty(),
            !r.is_disabled,
    {
        Self {
            id,
            name: name.to_owned(),
            olinks: Vec::new(),
            ilinks: Vec::new(),
            is_disabled: false,
        }
    }
}

/// The topology: node `i` of the network is `graph[i]`.
pub type Graph = Vec<Node>;

/// A five-node fixture with two equal-cost routes from node 0 to node 3
/// (and hence to node 4): the smallest topology that exercises equal-cost
/// multipath retention.  Only outgoing links are populated.
pub fn ecmp_topology() -> (g: Graph)
    ensures
        g@.len() == 5,
        forall|i: int| 0 <= i < 5 ==> (#[trigger] g@[i]).id == i,
        forall|i: int| 0 <= i < 5 ==> !(#[trigger] g@[i]).is_disabled,
        forall|i: int| 0 <= i < 5 ==> (#[trigger] g@[i]).ilinks@ == Seq::<Link>::empty(),
        g@[0].olinks@ == seq![
            Link { from: 0, to: 1, cost: 10 },
            Link { from: 0, to: 2, cost: 10 },
        ],
        g@[1].olinks@ == seq![
            Link { from: 1, to: 0, cost: 10 },
            Link { from: 1, to: 2, cost: 5 },
            Link { from: 1, to: 3, cost: 10 },
        ],
        g@[2].olinks@ == seq![
            Link { from: 2, to: 0, cost: 10 },
            Link { from: 2, to: 1, cost: 5 },
            Link { from: 2, to: 3, cost: 10 },
        ],
        g@[3].olinks@ == seq![
            Link { from: 3, to: 1, cost: 10 },
            Link { from: 3, to: 2, cost: 10 },
            Link { from: 3, to: 4, cost: 10 },
        ],
        g@[4].olinks@ == seq![Link { from: 4, to: 3, cost: 10 }],
{
    let mut n0 = Node::new("N1", 0);
    n0.olinks.push(Link::new(0, 1, 10));
    n0.olinks.push(Link::new(0, 2, 10));
    let mut n1 = Node::new("N2", 1);
    n1.olinks.push(Link::new(1, 0, 10));
    n1.olinks.push(Link::new(1, 2, 5));
    n1.olinks.push(Link::new(1, 3, 10));
    let mut n2 = Node::new("N3", 2);
    n2.olinks.push(Link::new(2, 0, 10));
    n2.olinks.push(Link::new(2, 1, 5));
    n2.olinks.push(Link::new(2, 3, 10));
    let mut n3 = Node::new("N4", 3);
    n3.olinks.push(Link::new(3, 1, 10));
    n3.olinks.push(Link::new(3, 2, 10));
    n3.olinks.push(Link::new(3, 4, 10));
    let mut n4 = Node::new("N5", 4);
    n4.olinks.push(Link::new(4, 3, 10));
    let mut g: Graph = Vec::new();
    g.push(n0);
    g.push(n1);
    g.push(n2);
    g.push(n3);
    g.push(n4);
    proof {
        assert(g@[0].olinks@ =~= seq![
            Link { from: 0, to: 1, cost: 10 },
            Link { from: 0, to: 2, cost: 10 },
        ]);
        assert(g@[1].olinks@ =~= seq![
            Link { from: 1, to: 0, cost: 10 },
            Link { from: 1, to: 2, cost: 5 },
            Link { from: 1, to: 3, cost: 10 },
        ]);
        assert(g@[2].olinks@ =~= seq![
            Link { from: 2, to: 0, cost: 10 },
            Link { from: 2, to: 1, cost: 5 },
            Link { from: 2, to: 3, cost: 10 },
        ]);
        assert(g@[3].olinks@ =~= seq![
            Link { from: 3, to: 1, cost: 10 },
            Link { from: 3, to: 2, cost: 10 },
            Link { from: 3, to: 4, cost: 10 },
        ]);
        assert(g@[4].olinks@ =~= seq![Link { from: 4, to: 3, cost: 10 }]);
    }
    g
}

/// A five-node fixture with asymmetric costs, populated with both outgoing
/// and incoming links so that reverse traversals can be exercised.
pub fn tilfa_graph() -> (g: Graph)
    ensures
        g@.len() == 5,
        forall|i: int| 0 <= i < 5 ==> (#[trigger] g@[i]).id == i,
        forall|i: int| 0 <= i < 5 ==> !(#[trigger] g@[i]).is_disabled,
        g@[0].olinks@ == seq![
            Link { from: 0, to: 1, cost: 10 },
            Link { from: 0, to: 2, cost: 10 },
        ],
        g@[1].olinks@ == seq![
            Link { from: 1, to: 0, cost: 10 },
            Link { from: 1, to: 3, cost: 10 },
        ],
        g@[2].olinks@ == seq![
            Link { from: 2, to: 0, cost: 10 },
            Link { from: 2, to: 4, cost: 10 },
        ],
        g@[3].olinks@ == seq![
            Link { from: 3, to: 1, cost: 10 },
            Link { from: 3, to: 4, cost: 50 },
        ],
        g@[4].olinks@ == seq![
            Link { from: 4, to: 2, cost: 10 },
            Link { from: 4, to: 3, cost: 50 },
        ],
        g@[0].ilinks@ == seq![
            Link { from: 1, to: 0, cost: 10 },
            Link { from: 2, to: 0, cost: 10 },
        ],
        g@[1].ilinks@ == seq![
            Link { from: 0, to: 1, cost: 10 },
            Link { from: 3, to: 1, cost: 10 },
        ],
        g@[2].ilinks@ == seq![
            Link { from: 0, to: 2, cost: 10 },
            Link { from: 4, to: 2, cost: 10 },
        ],
        g@[3].ilinks@ == seq![
            Link { from: 1, to: 3, cost: 10 },
            Link { from: 4, to: 3, cost: 50 },
        ],
        g@[4].ilinks@ == seq![
            Link { from: 2, to: 4, cost: 10 },
            Link { from: 3, to: 4, cost: 50 },
        ],
{
    let mut n0 = Node::new("N1", 0);
    n0.olinks.push(Link::new(0, 1, 10));
    n0.olinks.push(Link::new(0, 2, 10));
    n0.ilinks.push(Link::new(1, 0, 10));
    n0.ilinks.push(Link::new(2, 0, 10));
    let mut n1 = Node::new("N2", 1);
    n1.olinks.push(Link::new(1, 0, 10));
    n1.olinks.push(Link::new(1, 3, 10));
    n1.ilinks.push(Link::new(0, 1, 10));
    n1.ilinks.push(Link::new(3, 1, 10));
    let mut n2 = Node::new("N3", 2);
    n2.olinks.push(Link::new(2, 0, 10));
    n2.olinks.push(Link::new(2, 4, 10));
    n2.ilinks.push(Link::new(0, 2, 10));
    n2.ilinks.push(Link::new(4, 2, 10));
    let mut n3 = Node::new("N4", 3);
    n3.olinks.push(Link::new(3, 1, 10));
    n3.olinks.push(Link::new(3, 4, 50));
    n3.ilinks.push(Link::new(1, 3, 10));
    n3.ilinks.push(Link::new(4, 3, 50));
    let mut n4 = Node::new("N5", 4);
    n4.olinks.push(Link::new(4, 2, 10));
    n4.olinks.push(Link::new(4, 3, 50));
    n4.ilinks.push(Link::new(2, 4, 10));
    n4.ilinks.push(Link::new(3, 4, 50));
    let mut g: Graph = Vec::new();
    g.push(n0);
    g.push(n1);
    g.push(n2);
    g.push(n3);
    g.push(n4);
    proof {
        assert(g@[0].olinks@ =~= seq![
            Link { from: 0, to: 1, cost: 10 },
            Link { from: 0, to: 2, cost: 10 },
        ]);
        assert(g@[1].olinks@ =~= seq![
            Link { from: 1, to: 0, cost: 10 },
            Link { from: 1, to: 3, cost: 10 },
        ]);
        assert(g@[2].olinks@ =~= seq![
            Link { from: 2, to: 0, cost: 10 },
            Link { from: 2, to: 4, cost: 10 },
        ]);
        assert(g@[3].olinks@ =~= seq![
            Link { from: 3, to: 1, cost: 10 },
            Link { from: 3, to: 4, cost: 50 },
        ]);
        assert(g@[4].olinks@ =~= seq![
            Link { from: 4, to: 2, cost: 10 },
            Link { from: 4, to: 3, cost: 50 },
        ]);
        assert(g@[0].ilinks@ =~= seq![
            Link { from: 1, to: 0, cost: 10 },
            Link { from: 2, to: 0, cost: 10 },
        ]);
        assert(g@[1].ilinks@ =~= seq![
            Link { from: 0, to: 1, cost: 10 },
            Link { from: 3, to: 1, cost: 10 },
        ]);
        assert(g@[2].ilinks@ =~= seq![
            Link { from: 0, to: 2, cost: 10 },
            Link { from: 4, to: 2, cost: 10 },
        ]);
        assert(g@[3].ilinks@ =~= seq![
            Link { from: 1, to: 3, cost: 10 },
            Link { from: 4, to: 3, cost: 50 },
        ]);
        assert(g@[4].ilinks@ =~= seq![
            Link { from: 2, to: 4, cost: 10 },
            Link { from: 3, to: 4, cost: 50 },
        ]);
    }
    g
}

} // verus!
