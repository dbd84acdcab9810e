//! The repair-list builder: reduces a post-convergence path annotated
//! with P-space / Q-space membership to the shortest list of steering
//! instructions that leads traffic around a protected node, and the
//! coordinator that composes the traversals into that list.
//!
//! The builder advances while nodes remain in P-space (plain forwarding
//! reaches them loop-free); the first node outside P-space marks where a
//! steering instruction is needed; the instruction ends at the nearest
//! following Q-space node, from which post-convergence forwarding reaches
//! the destination.  When the path never enters P-space, or no Q-space
//! node follows, no loop-free repair exists and the result is empty.

use vstd::prelude::*;

use crate::engine::{avail, contains_id, positive_costs, Direction};
use crate::graph::Graph;
use crate::space::{
    p_space_nodes, pc_paths, pc_paths_post, q_space_nodes, reaches_avoiding, space_post,
    shortest_route_avoids,
};

verus! {

/// A node of a post-convergence path annotated with its P-space and
/// Q-space membership.
#[derive(Debug, Clone, Copy, PartialEq, Eq)]
pub struct Intersect {
    pub id: usize,
    pub p: bool,
    pub q: bool,
}

/// The first index in `[i, end)` whose annotation is outside P-space,
/// or `end` if every annotation up to there is inside.
pub open spec fn first_non_p(s: Seq<Intersect>, i: int, end: int) -> int
    decreases end - i,
{
    if i < 0 || i >= end {
        end
    } else if !s[i].p {
        i
    } else {
        first_non_p(s, i + 1, end)
    }
}

/// The first index in `[i, end)` whose annotation is inside Q-space,
/// or `end` if none is.
pub open spec fn first_q(s: Seq<Intersect>, i: int, end: int) -> int
    decreases end - i,
{
    if i < 0 || i >= end {
        end
    } else if s[i].q {
        i
    } else {
        first_q(s, i + 1, end)
    }
}

/// How far along `s` the builder scans: the whole annotation list,
/// bounded by `max_len`.
pub open spec fn scan_end(s: Seq<Intersect>, max_len: usize) -> int {
    if s.len() <= max_len {
        s.len() as int
    } else {
        max_len as int
    }
}

/// The repair list read off an annotated path: empty when the path does
/// not start in P-space or no Q-space node terminates the instruction;
/// the last P-space node alone when it is already in Q-space; otherwise
/// that node followed by the nearest later Q-space node.
pub open spec fn repair_spec(s: Seq<Intersect>, start: int, end: int) -> Seq<usize> {
    if start < 0 || end > s.len() || start >= end {
        Seq::empty()
    } else {
        let f = first_non_p(s, start, end);
        if f == start {
            Seq::empty()
        } else if s[f - 1].q {
            seq![s[f - 1].id]
        } else {
            let qi = first_q(s, f, end);
            if qi == end {
                Seq::empty()
            } else {
                seq![s[f - 1].id, s[qi].id]
            }
        }
    }
}

proof fn lemma_first_non_p(s: Seq<Intersect>, i: int, end: int)
    requires
        0 <= i <= end <= s.len(),
    ensures
        i <= first_non_p(s, i, end) <= end,
        forall|j: int| i <= j < first_non_p(s, i, end) ==> (#[trigger] s[j]).p,
        first_non_p(s, i, end) < end ==> !s[first_non_p(s, i, end)].p,
    decreases end - i,
{
    if i < end && s[i].p {
        lemma_first_non_p(s, i + 1, end);
    }
}

proof fn lemma_first_q(s: Seq<Intersect>, i: int, end: int)
    requires
        0 <= i <= end <= s.len(),
    ensures
        i <= first_q(s, i, end) <= end,
        first_q(s, i, end) < end ==> s[first_q(s, i, end)].q,
    decreases end - i,
{
    if i < end && !s[i].q {
        lemma_first_q(s, i + 1, end);
    }
}

/// Annotates each node of a post-convergence path with its P-space and
/// Q-space membership.
pub fn intersect(path: &Vec<usize>, p_space: &Vec<usize>, q_space: &Vec<usize>) -> (r: Vec<
    Intersect,
>)
    ensures
        r@.len() == path@.len(),
        forall|i: int|
            0 <= i < path@.len() ==> {
                &&& (#[trigger] r@[i]).id == path@[i]
                &&& r@[i].p == p_space@.contains(path@[i])
                &&& r@[i].q == q_space@.contains(path@[i])
            },
{
    let mut r: Vec<Intersect> = Vec::new();
    let mut i: usize = 0;
    while i < path.len()
        invariant
            i <= path@.len(),
            r@.len() == i,
            forall|j: int|
                0 <= j < i ==> {
                    &&& (#[trigger] r@[j]).id == path@[j]
                    &&& r@[j].p == p_space@.contains(path@[j])
                    &&& r@[j].q == q_space@.contains(path@[j])
                },
        decreases path@.len() - i,
    {
        let node = path[i];
        let p = contains_id(p_space, node);
        let q = contains_id(q_space, node);
        r.push(Intersect { id: node, p, q });
        i = i + 1;
    }
    r
}

/// Builds the repair list from an annotated post-convergence path,
/// scanning from `start_bound` and considering at most `max_len`
/// annotations.  A non-empty result has at most two instructions; its
/// first instruction names a P-space node and its last a Q-space node.
/// An empty result reports that no loop-free repair exists within the
/// bounds.
pub fn make_repair_list(intersects: &Vec<Intersect>, start_bound: usize, max_len: usize) -> (r:
    Vec<usize>)
    ensures
        r@ == repair_spec(intersects@, start_bound as int, scan_end(intersects@, max_len)),
        r@.len() <= 2,
        r@.len() > 0 ==> exists|i: int|
            #![auto]
            0 <= i < intersects@.len() && intersects@[i].p && intersects@[i].id == r@[0],
        r@.len() > 0 ==> exists|j: int|
            #![auto]
            0 <= j < intersects@.len() && intersects@[j].q && intersects@[j].id == r@[r@.len()
                - 1],
{
    let ghost s = intersects@;
    let n = intersects.len();
    let end = if n <= max_len {
        n
    } else {
        max_len
    };
    proof {
        assert(end as int == scan_end(s, max_len));
    }
    if start_bound >= end {
        return Vec::new();
    }
    proof {
        lemma_first_non_p(s, start_bound as int, end as int);
    }
    let mut f: usize = start_bound;
    while f < end && intersects[f].p
        invariant
            s == intersects@,
            start_bound <= f <= end,
            end <= n,
            n == s.len(),
            first_non_p(s, start_bound as int, end as int) == first_non_p(s, f as int, end as int),
        decreases end - f,
    {
        proof {
            assert(s[f as int].p);
            assert(first_non_p(s, f as int, end as int) == first_non_p(
                s,
                f as int + 1,
                end as int,
            ));
        }
        f = f + 1;
    }
    proof {
        assert(first_non_p(s, start_bound as int, end as int) == f as int);
    }
    if f == start_bound {
        return Vec::new();
    }
    let lp = f - 1;
    proof {
        assert(s[lp as int].p);
    }
    let mut r: Vec<usize> = Vec::new();
    if intersects[lp].q {
        r.push(intersects[lp].id);
        proof {
            assert(r@ =~= repair_spec(s, start_bound as int, scan_end(s, max_len)));
            assert(s[lp as int].p && s[lp as int].id == r@[0]);
            assert(s[lp as int].q && s[lp as int].id == r@[r@.len() - 1]);
        }
        return r;
    }
    proof {
        lemma_first_q(s, f as int, end as int);
    }
    let mut qi: usize = f;
    while qi < end && !intersects[qi].q
        invariant
            s == intersects@,
            f <= qi <= end,
            end <= n,
            n == s.len(),
            first_q(s, f as int, end as int) == first_q(s, qi as int, end as int),
        decreases end - qi,
    {
        proof {
            assert(!s[qi as int].q);
            assert(first_q(s, qi as int, end as int) == first_q(s, qi as int + 1, end as int));
        }
        qi = qi + 1;
    }
    proof {
        assert(first_q(s, f as int, end as int) == qi as int);
    }
    if qi == end {
        return Vec::new();
    }
    r.push(intersects[lp].id);
    r.push(intersects[qi].id);
    proof {
        assert(r@ =~= repair_spec(s, start_bound as int, scan_end(s, max_len)));
        assert(s[lp as int].p && s[lp as int].id == r@[0]);
        assert(s[qi as int].q && s[qi as int].id == r@[r@.len() - 1]);
    }
    r
}

/// The interior of a route: the nodes strictly between its endpoints.
pub open spec fn interior_of(p: Seq<usize>) -> Seq<usize> {
    if p.len() >= 2 {
        p.subrange(1, p.len() - 1)
    } else {
        Seq::empty()
    }
}

/// The annotation of `path` against membership in `pn` and `qn`.
pub open spec fn annotate(path: Seq<usize>, pn: Seq<usize>, qn: Seq<usize>) -> Seq<Intersect> {
    Seq::new(
        path.len(),
        |i: int| Intersect { id: path[i], p: pn.contains(path[i]), q: qn.contains(path[i]) },
    )
}

/// What the coordinator computes from its three intermediate results:
/// the repair list read off the first post-convergence route's interior
/// annotated against the two spaces, or nothing when no route survived.
pub open spec fn tilfa_reduction(pcs: Seq<Vec<usize>>, pn: Seq<usize>, qn: Seq<usize>) -> Seq<
    usize,
> {
    if pcs.len() == 0 {
        Seq::empty()
    } else {
        let ann = annotate(interior_of(pcs[0]@), pn, qn);
        repair_spec(ann, 0, ann.len() as int)
    }
}

/// Computes the repair list protecting traffic from `s` to `d` against
/// the failure of node `x`: the post-convergence path's interior is
/// annotated against the P-space of `s` and the Q-space of `d`, and the
/// builder reduces the annotation.  The result is exactly
/// `tilfa_reduction` of three intermediate results that each satisfy
/// their component's full contract — so under positive costs a repair
/// is produced whenever the surviving topology and the two spaces admit
/// one along the chosen route.  A non-empty result names neither
/// endpoint; it starts at a node with a forward route from `s` avoiding
/// `x` and ends at a node with a reverse route toward `d` avoiding `x`.
/// An empty result reports that no loop-free repair was found.
pub fn tilfa(graph: &Graph, s: usize, d: usize, x: usize) -> (r: Vec<usize>)
    ensures
        exists|pcs: Seq<Vec<usize>>, pn: Seq<usize>, qn: Seq<usize>|
            #![auto]
            pc_paths_post(graph@, s, d, x, pcs) && space_post(
                graph@,
                Direction::Normal,
                s,
                x,
                pn,
            ) && space_post(graph@, Direction::Reverse, d, x, qn) && r@ == tilfa_reduction(
                pcs,
                pn,
                qn,
            ),
        r@.len() <= 2,
        r@.len() > 0 ==> r@[0] != s,
        r@.len() > 0 ==> r@[r@.len() - 1] != d,
        r@.len() > 0 ==> reaches_avoiding(graph@, Direction::Normal, s, r@[0], x),
        r@.len() > 0 ==> reaches_avoiding(graph@, Direction::Reverse, d, r@[r@.len() - 1], x),
        (r@.len() > 0 && positive_costs(graph@, Direction::Normal) && avail(
            graph@,
            None,
            s as int,
        )) ==> shortest_route_avoids(graph@, Direction::Normal, s, r@[0], x),
        (r@.len() > 0 && positive_costs(graph@, Direction::Reverse) && avail(
            graph@,
            None,
            d as int,
        )) ==> shortest_route_avoids(graph@, Direction::Reverse, d, r@[r@.len() - 1], x),
{
    let pc = pc_paths(graph, s, d, x);
    let mut interior: Vec<usize> = Vec::new();
    if pc.len() > 0 {
        let p0 = &pc[0];
        if p0.len() >= 2 {
            let mut i: usize = 1;
            while i < p0.len() - 1
                invariant
                    p0@.len() >= 2,
                    1 <= i <= p0@.len() - 1,
                    interior@ == p0@.subrange(1, i as int),
                decreases p0@.len() - i,
            {
                interior.push(p0[i]);
                proof {
                    assert(interior@ =~= p0@.subrange(1, i + 1));
                }
                i = i + 1;
            }
        }
        proof {
            assert(interior@ =~= interior_of(pc@[0]@));
        }
    } else {
        proof {
            assert(interior@ =~= Seq::<usize>::empty());
        }
    }
    let pn = p_space_nodes(graph, s, x);
    let qn = q_space_nodes(graph, d, x);
    let ann = intersect(&interior, &pn, &qn);
    let ml = ann.len();
    let r = make_repair_list(&ann, 0, ml);
    proof {
        assert(ann@ =~= annotate(interior@, pn@, qn@));
        assert(scan_end(ann@, ml) == ann@.len() as int);
        if pc@.len() == 0 {
            assert(ann@.len() == 0);
            assert(r@ =~= tilfa_reduction(pc@, pn@, qn@));
        } else {
            assert(r@ == tilfa_reduction(pc@, pn@, qn@));
        }
        assert(pc_paths_post(graph@, s, d, x, pc@) && space_post(
            graph@,
            Direction::Normal,
            s,
            x,
            pn@,
        ) && space_post(graph@, Direction::Reverse, d, x, qn@) && r@ == tilfa_reduction(
            pc@,
            pn@,
            qn@,
        ));
        if r@.len() > 0 {
            let i = choose|i: int|
                #![auto]
                0 <= i < ann@.len() && ann@[i].p && ann@[i].id == r@[0];
            assert(pn@.contains(ann@[i].id));
            let k = choose|k: int| 0 <= k < pn@.len() && pn@[k] == r@[0];
            assert(reaches_avoiding(graph@, Direction::Normal, s, pn@[k], x));
            assert(pn@[k] != s);
            let j = choose|j: int|
                #![auto]
                0 <= j < ann@.len() && ann@[j].q && ann@[j].id == r@[r@.len() - 1];
            assert(qn@.contains(ann@[j].id));
            let k2 = choose|k2: int| 0 <= k2 < qn@.len() && qn@[k2] == r@[r@.len() - 1];
            assert(reaches_avoiding(graph@, Direction::Reverse, d, qn@[k2], x));
            assert(qn@[k2] != d);
        }
    }
    r
}

} // verus!
