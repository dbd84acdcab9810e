//! P-space / Q-space classification and post-convergence paths.
//!
//! The P-space of a source with respect to a protected node `x` is the
//! set of nodes that keep at least one retained shortest path from the
//! source that does not transit `x`; the Q-space of a destination is the
//! symmetric set computed over reverse traversals.  A post-convergence
//! path is a route computed with the protected node's failure simulated.

use vstd::prelude::*;

use crate::engine::{
    avail, connected, contains_id, distinct_links, entry_paths_distinct, find_id, path_ok,
    positive_costs, spf, spf_dir_off, spf_reverse, spf_table_ok, table_complete,
    table_costs_minimal, Direction, Path,
};
use crate::graph::{Graph, Node};

verus! {

/// Some route of some cost runs from `root` to `dest` along `p`.
pub open spec fn route_between(
    g: Seq<Node>,
    dir: Direction,
    off: Option<usize>,
    root: usize,
    dest: usize,
    p: Seq<usize>,
) -> bool {
    exists|cost: u32| path_ok(g, dir, off, root, dest, cost, p)
}

/// `p` is a route from `root` to `dest` and no route costs less: `p`
/// is one of the shortest routes.
pub open spec fn shortest_route_between(
    g: Seq<Node>,
    dir: Direction,
    off: Option<usize>,
    root: usize,
    dest: usize,
    p: Seq<usize>,
) -> bool {
    exists|cost: u32|
        #![auto]
        path_ok(g, dir, off, root, dest, cost, p) && (forall|c2: u32, p2: Seq<usize>|
            #[trigger] path_ok(g, dir, off, root, dest, c2, p2) ==> cost <= c2)
}

/// `r` returns `p` as one of its routes.
pub open spec fn returns_route(r: Seq<Vec<usize>>, p: Seq<usize>) -> bool {
    exists|pi: int| 0 <= pi < r.len() && (#[trigger] r[pi])@ == p
}

/// Some route from `root` to `dest` stays below the saturation point.
pub open spec fn reachable_below(
    g: Seq<Node>,
    dir: Direction,
    off: Option<usize>,
    root: usize,
    dest: usize,
) -> bool {
    exists|cost: u32, p: Seq<usize>|
        #![auto]
        path_ok(g, dir, off, root, dest, cost, p) && cost < u32::MAX
}

/// Some route runs from `root` to `id` without touching node `x`.
pub open spec fn reaches_avoiding(
    g: Seq<Node>,
    dir: Direction,
    root: usize,
    id: usize,
    x: usize,
) -> bool {
    exists|cost: u32, p: Seq<usize>|
        #![auto]
        path_ok(g, dir, None, root, id, cost, p) && !p.contains(x)
}

/// Some route from `root` to `id` avoids node `x`, and no route from
/// `root` to `id` costs less: one of the shortest routes avoids `x`.
pub open spec fn shortest_route_avoids(
    g: Seq<Node>,
    dir: Direction,
    root: usize,
    id: usize,
    x: usize,
) -> bool {
    exists|cost: u32, p: Seq<usize>|
        #![auto]
        path_ok(g, dir, None, root, id, cost, p) && !p.contains(x) && (forall|
            c2: u32,
            p2: Seq<usize>,
        |
            #[trigger] path_ok(g, dir, None, root, id, c2, p2) ==> cost <= c2)
}

/// Entry `e` belongs to the space excluding `self_id`: it is another
/// node, and at least one of its retained routes avoids `x`.
pub open spec fn space_member(e: Path, self_id: usize, x: usize) -> bool {
    e.id != self_id && exists|pi: int|
        0 <= pi < e.paths@.len() && !(#[trigger] e.paths@[pi])@.contains(x)
}

/// The ids of the member entries of `t`, in table order.
pub open spec fn space_spec(t: Seq<Path>, self_id: usize, x: usize) -> Seq<usize>
    decreases t.len(),
{
    if t.len() == 0 {
        Seq::empty()
    } else {
        space_spec(t.drop_last(), self_id, x) + if space_member(t.last(), self_id, x) {
            seq![t.last().id]
        } else {
            Seq::empty()
        }
    }
}

/// Id `k` of `space_spec(t, ..)` is the id of a member entry of `t`.
proof fn lemma_space_spec_elem(t: Seq<Path>, self_id: usize, x: usize, k: int)
    requires
        0 <= k < space_spec(t, self_id, x).len(),
    ensures
        exists|j: int|
            #![auto]
            0 <= j < t.len() && space_member(t[j], self_id, x) && t[j].id == space_spec(
                t,
                self_id,
                x,
            )[k],
    decreases t.len(),
{
    if t.len() > 0 {
        if k < space_spec(t.drop_last(), self_id, x).len() {
            lemma_space_spec_elem(t.drop_last(), self_id, x, k);
            assert(space_spec(t.drop_last(), self_id, x)[k] == space_spec(t, self_id, x)[k]);
            let j = choose|j: int|
                #![auto]
                0 <= j < t.drop_last().len() && space_member(t.drop_last()[j], self_id, x)
                    && t.drop_last()[j].id == space_spec(t.drop_last(), self_id, x)[k];
            assert(t.drop_last()[j] == t[j]);
        } else {
            assert(space_member(t[t.len() - 1], self_id, x));
            assert(space_spec(t, self_id, x)[k] == t[t.len() - 1].id);
        }
    }
}

/// Whether at least one of `paths` avoids node `x`.
fn any_path_avoids(paths: &Vec<Vec<usize>>, x: usize) -> (r: bool)
    ensures
        r == exists|pi: int| 0 <= pi < paths@.len() && !(#[trigger] paths@[pi])@.contains(x),
{
    let mut pi: usize = 0;
    while pi < paths.len()
        invariant
            pi <= paths@.len(),
            forall|j: int| 0 <= j < pi ==> (#[trigger] paths@[j])@.contains(x),
        decreases paths@.len() - pi,
    {
        if !contains_id(&paths[pi], x) {
            return true;
        }
        pi = pi + 1;
    }
    false
}

/// Collects the ids of the member entries of `t`, in table order.
fn space_members(t: &Vec<Path>, self_id: usize, x: usize) -> (r: Vec<usize>)
    ensures
        r@ == space_spec(t@, self_id, x),
{
    let mut r: Vec<usize> = Vec::new();
    let mut k: usize = 0;
    while k < t.len()
        invariant
            k <= t@.len(),
            r@ == space_spec(t@.subrange(0, k as int), self_id, x),
        decreases t@.len() - k,
    {
        let e = &t[k];
        let is_member = e.id != self_id && any_path_avoids(&e.paths, x);
        proof {
            assert(t@.subrange(0, k + 1).drop_last() =~= t@.subrange(0, k as int));
            assert(t@.subrange(0, k + 1).last() == t@[k as int]);
        }
        if is_member {
            r.push(e.id);
            proof {
                assert(r@ =~= space_spec(t@.subrange(0, k + 1), self_id, x));
            }
        } else {
            proof {
                assert(r@ =~= space_spec(t@.subrange(0, k + 1), self_id, x));
            }
        }
        k = k + 1;
    }
    proof {
        assert(t@.subrange(0, t@.len() as int) =~= t@);
    }
    r
}

/// What the member list of a well-formed traversal table guarantees.
proof fn lemma_space_members_ok(
    g: Seq<Node>,
    dir: Direction,
    root: usize,
    x: usize,
    t: Seq<Path>,
    r: Seq<usize>,
)
    requires
        root < g.len() ==> spf_table_ok(g, dir, None, root, true, 0, t),
        root >= g.len() ==> t.len() == 0,
        r == space_spec(t, root, x),
    ensures
        forall|k: int| 0 <= k < r.len() ==> r[k] != root,
        forall|k: int|
            0 <= k < r.len() ==> reaches_avoiding(g, dir, root, #[trigger] r[k], x),
        (positive_costs(g, dir) && avail(g, None, root as int)) ==> forall|k: int|
            0 <= k < r.len() ==> shortest_route_avoids(g, dir, root, #[trigger] r[k], x),
        root >= g.len() ==> r.len() == 0,
{
    if positive_costs(g, dir) && avail(g, None, root as int) {
        assert forall|k: int| 0 <= k < r.len() implies shortest_route_avoids(
            g,
            dir,
            root,
            r[k],
            x,
        ) by {
            lemma_space_spec_elem(t, root, x, k);
            let j = choose|j: int|
                #![auto]
                0 <= j < t.len() && space_member(t[j], root, x) && t[j].id == space_spec(
                    t,
                    root,
                    x,
                )[k];
            let e = t[j];
            assert(crate::engine::out_entry_ok(g, dir, None, root, true, 0, e));
            let pi = choose|pi: int|
                0 <= pi < e.paths@.len() && !(#[trigger] e.paths@[pi])@.contains(x);
            assert(path_ok(g, dir, None, root, e.id, e.cost, e.paths@[pi]@));
            assert(table_costs_minimal(g, dir, None, root, t));
            assert forall|c2: u32, p2: Seq<usize>|
                #[trigger] path_ok(g, dir, None, root, r[k], c2, p2) implies e.cost <= c2 by {
                assert(path_ok(g, dir, None, root, t[j].id, c2, p2));
            }
            assert(r[k] == space_spec(t, root, x)[k]);
            assert(path_ok(g, dir, None, root, r[k], e.cost, e.paths@[pi]@) && !e.paths@[
                pi
            ]@.contains(x));
        }
    }
    assert forall|k: int| 0 <= k < r.len() implies r[k] != root && reaches_avoiding(
        g,
        dir,
        root,
        r[k],
        x,
    ) by {
        lemma_space_spec_elem(t, root, x, k);
        let j = choose|j: int|
            #![auto]
            0 <= j < t.len() && space_member(t[j], root, x) && t[j].id == space_spec(
                t,
                root,
                x,
            )[k];
        if root >= g.len() {
            assert(false);
        }
        let e = t[j];
        assert(crate::engine::out_entry_ok(g, dir, None, root, true, 0, e));
        let pi = choose|pi: int|
            0 <= pi < e.paths@.len() && !(#[trigger] e.paths@[pi])@.contains(x);
        assert(path_ok(g, dir, None, root, e.id, e.cost, e.paths@[pi]@));
        assert(path_ok(g, dir, None, root, r[k], e.cost, e.paths@[pi]@) && !e.paths@[
            pi
        ]@.contains(x));
    }
}

/// Everything the P-space / Q-space classifier promises of its result:
/// the space's own endpoint is excluded, every member keeps a route
/// avoiding `x` (a shortest one under positive costs), and the list is
/// exactly the member filter of a table satisfying the traversal
/// contract.
pub open spec fn space_post(
    g: Seq<Node>,
    dir: Direction,
    root: usize,
    x: usize,
    r: Seq<usize>,
) -> bool {
    &&& forall|k: int| 0 <= k < r.len() ==> r[k] != root
    &&& forall|k: int| 0 <= k < r.len() ==> reaches_avoiding(g, dir, root, #[trigger] r[k], x)
    &&& (positive_costs(g, dir) && avail(g, None, root as int)) ==> forall|k: int|
        0 <= k < r.len() ==> shortest_route_avoids(g, dir, root, #[trigger] r[k], x)
    &&& root < g.len() ==> exists|t: Seq<Path>|
        #![auto]
        spf_table_ok(g, dir, None, root, true, 0, t) && r == space_spec(t, root, x)
    &&& root >= g.len() ==> r.len() == 0
}

/// Everything the post-convergence path computer promises of its
/// result: each returned route runs from `s` to `d` around `x`; under
/// positive costs with `s` taking part, the result is non-empty exactly
/// when `d` is reachable, every returned route is shortest, and (below
/// the saturation point) every shortest route is returned.
pub open spec fn pc_paths_post(
    g: Seq<Node>,
    s: usize,
    d: usize,
    x: usize,
    r: Seq<Vec<usize>>,
) -> bool {
    &&& forall|pi: int|
        0 <= pi < r.len() ==> route_between(
            g,
            Direction::Normal,
            Some(x),
            s,
            d,
            (#[trigger] r[pi])@,
        )
    &&& (positive_costs(g, Direction::Normal) && avail(g, Some(x), s as int)) ==> (r.len() > 0
        <==> connected(g, Direction::Normal, Some(x), s, d))
    &&& (positive_costs(g, Direction::Normal) && avail(g, Some(x), s as int)) ==> forall|
        pi: int,
    |
        0 <= pi < r.len() ==> shortest_route_between(
            g,
            Direction::Normal,
            Some(x),
            s,
            d,
            (#[trigger] r[pi])@,
        )
    &&& (positive_costs(g, Direction::Normal) && avail(g, Some(x), s as int)
        && reachable_below(g, Direction::Normal, Some(x), s, d)) ==> forall|p: Seq<usize>|
        #[trigger] shortest_route_between(g, Direction::Normal, Some(x), s, d, p)
            ==> returns_route(r, p)
    &&& (positive_costs(g, Direction::Normal) && distinct_links(g, Direction::Normal) && avail(
        g,
        Some(x),
        s as int,
    ) && reachable_below(g, Direction::Normal, Some(x), s, d)) ==> forall|a: int, b: int|
        0 <= a < b < r.len() ==> (#[trigger] r[a])@ != (#[trigger] r[b])@
}

/// The P-space of `root` with respect to protected node `x`: the nodes
/// that keep at least one retained shortest path from `root` avoiding
/// `x`, in ascending id order.  The root itself is never a member, and
/// every member is reachable from `root` by a genuine forward route that
/// avoids `x` — under strictly positive link costs, by a shortest one.
pub fn p_space_nodes(graph: &Graph, root: usize, x: usize) -> (r: Vec<usize>)
    ensures
        space_post(graph@, Direction::Normal, root, x, r@),
{
    let table = spf(graph, root, true, 0);
    let r = space_members(&table, root, x);
    proof {
        lemma_space_members_ok(graph@, Direction::Normal, root, x, table@, r@);
        if root < graph@.len() {
            assert(spf_table_ok(graph@, Direction::Normal, None, root, true, 0, table@)
                && r@ == space_spec(table@, root, x));
        }
        assert(space_post(graph@, Direction::Normal, root, x, r@));
    }
    r
}

/// The Q-space of destination `d` with respect to protected node `x`:
/// the nodes that keep at least one retained reverse shortest path
/// toward `d` avoiding `x`, in ascending id order.  The destination
/// itself is never a member.
pub fn q_space_nodes(graph: &Graph, d: usize, x: usize) -> (r: Vec<usize>)
    ensures
        space_post(graph@, Direction::Reverse, d, x, r@),
{
    let table = spf_reverse(graph, d, true, 0);
    let r = space_members(&table, d, x);
    proof {
        lemma_space_members_ok(graph@, Direction::Reverse, d, x, table@, r@);
        if d < graph@.len() {
            assert(spf_table_ok(graph@, Direction::Reverse, None, d, true, 0, table@)
                && r@ == space_spec(table@, d, x));
        }
        assert(space_post(graph@, Direction::Reverse, d, x, r@));
    }
    r
}

/// The post-convergence paths from `s` to `d` when node `x` fails: the
/// retained routes of a forward traversal run with `x` treated as
/// disabled.  Empty when `d` is unreachable in that state — under
/// strictly positive link costs exactly then, and the returned routes
/// are then shortest in the failed topology.
pub fn pc_paths(graph: &Graph, s: usize, d: usize, x: usize) -> (r: Vec<Vec<usize>>)
    ensures
        pc_paths_post(graph@, s, d, x, r@),
{
    let ghost pc_ok = positive_costs(graph@, Direction::Normal) && avail(
        graph@,
        Some(x),
        s as int,
    );
    let mut table = spf_dir_off(graph, s, true, 0, Direction::Normal, Some(x));
    if s >= graph.len() {
        return Vec::new();
    }
    let found = find_id(&table, d);
    let ghost t0 = table@;
    match found {
        Some(j) => {
            let e = table.swap_remove(j);
            proof {
                assert(e == t0[j as int]);
                assert(crate::engine::out_entry_ok(
                    graph@,
                    Direction::Normal,
                    Some(x),
                    s,
                    true,
                    0,
                    e,
                ));
                if e.id == s {
                    assert(crate::engine::root_entry_ok(s, e));
                    assert(e.paths@[0]@ == seq![s]);
                    assert(path_ok(graph@, Direction::Normal, Some(x), s, d, 0, e.paths@[0]@))
                        by {
                        let p = e.paths@[0]@;
                        assert(p.len() == 1);
                        assert(p[0] == s);
                        assert(crate::engine::walk_ok(graph@, Direction::Normal, p, 0));
                    }
                }
                assert forall|pi: int| 0 <= pi < e.paths@.len() implies route_between(
                    graph@,
                    Direction::Normal,
                    Some(x),
                    s,
                    d,
                    (#[trigger] e.paths@[pi])@,
                ) by {
                    if e.id != s {
                        assert(path_ok(
                            graph@,
                            Direction::Normal,
                            Some(x),
                            s,
                            e.id,
                            e.cost,
                            e.paths@[pi]@,
                        ));
                    } else {
                        assert(pi == 0);
                        assert(path_ok(
                            graph@,
                            Direction::Normal,
                            Some(x),
                            s,
                            d,
                            0,
                            e.paths@[pi]@,
                        ));
                    }
                }
            }
            proof {
                if pc_ok {
                    assert(table_costs_minimal(graph@, Direction::Normal, Some(x), s, t0));
                    let ghost ecost: u32 = if e.id == s {
                        0u32
                    } else {
                        e.cost
                    };
                    assert forall|pi: int| 0 <= pi < e.paths@.len() implies
                        shortest_route_between(
                        graph@,
                        Direction::Normal,
                        Some(x),
                        s,
                        d,
                        (#[trigger] e.paths@[pi])@,
                    ) by {
                        assert(path_ok(
                            graph@,
                            Direction::Normal,
                            Some(x),
                            s,
                            d,
                            ecost,
                            e.paths@[pi]@,
                        ));
                        assert forall|c2: u32, p2: Seq<usize>|
                            #[trigger] path_ok(graph@, Direction::Normal, Some(x), s, d, c2, p2)
                            implies ecost <= c2 by {
                            assert(path_ok(
                                graph@,
                                Direction::Normal,
                                Some(x),
                                s,
                                t0[j as int].id,
                                c2,
                                p2,
                            ));
                            if e.id == s {
                            } else {
                                assert(e.cost <= c2);
                            }
                        }
                    }
                }
                if pc_ok {
                    assert(e.paths@.len() >= 1);
                    assert(path_ok(graph@, Direction::Normal, Some(x), s, d, e.cost, e.paths@[
                        0
                    ]@) || (e.id == s && path_ok(
                        graph@,
                        Direction::Normal,
                        Some(x),
                        s,
                        d,
                        0,
                        e.paths@[0]@,
                    )));
                    assert(connected(graph@, Direction::Normal, Some(x), s, d));
                }
            }
            e.paths
        },
        None => {
            proof {
                if pc_ok && connected(graph@, Direction::Normal, Some(x), s, d) {
                    let (cost, p) = choose|cost: u32, p: Seq<usize>|
                        #![auto]
                        path_ok(graph@, Direction::Normal, Some(x), s, d, cost, p);
                    assert(table_complete(graph@, Direction::Normal, Some(x), s, table@));
                    assert(crate::engine::has_id(table@, d));
                    assert(false);
                }
                if pc_ok && reachable_below(graph@, Direction::Normal, Some(x), s, d) {
                    let (c0, p0) = choose|c0: u32, p0: Seq<usize>|
                        #![auto]
                        path_ok(graph@, Direction::Normal, Some(x), s, d, c0, p0) && c0
                            < u32::MAX;
                    assert(connected(graph@, Direction::Normal, Some(x), s, d));
                    assert(false);
                }
            }
            Vec::new()
        },
    }
}

/// The first post-convergence path from node 0 to `d` when `x` fails,
/// or an empty path when no route survives the failure.
pub fn pc_path(graph: &Graph, d: usize, x: usize) -> (r: Vec<usize>)
    ensures
        r@.len() > 0 ==> route_between(graph@, Direction::Normal, Some(x), 0, d, r@),
        (positive_costs(graph@, Direction::Normal) && avail(graph@, Some(x), 0)) ==> (r@.len()
            > 0 <==> connected(graph@, Direction::Normal, Some(x), 0, d)),
        (r@.len() > 0 && positive_costs(graph@, Direction::Normal) && avail(graph@, Some(x), 0))
            ==> shortest_route_between(graph@, Direction::Normal, Some(x), 0, d, r@),
{
    let mut ps = pc_paths(graph, 0, d, x);
    if ps.len() > 0 {
        let first = ps.remove(0);
        first
    } else {
        Vec::new()
    }
}

} // verus!
