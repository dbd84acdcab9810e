//! The shortest-path-first engine: a Dijkstra variant that retains
//! equal-cost alternatives, parameterized by traversal direction and by an
//! optional node whose failure is simulated.
//!
//! `spf_run` settles nodes in ascending `(cost, id)` order and returns them
//! in settle order, which makes the cost-monotonicity of the traversal part
//! of its contract.  `spf` and `spf_reverse` re-index that result by node
//! id, the order callers and tie-breaking rules expect.  Under strictly
//! positive link costs the contract is exact: the settled nodes are
//! precisely the reachable ones, every settled cost is the minimum over
//! all routes, and an uncapped full-path run retains every route that
//! attains it.

use vstd::prelude::*;

use crate::graph::{Graph, Link, Node};

verus! {

/// Which adjacency list a traversal follows: `Normal` walks the outgoing
/// links away from the root, `Reverse` walks the incoming links, computing
/// shortest paths toward the root instead of from it.
#[derive(Debug, Clone, Copy, PartialEq, Eq)]
pub enum Direction {
    Normal,
    Reverse,
}

/// The per-destination record of a traversal: the best discovered cost,
/// the retained equal-cost full paths, the retained `(root, first hop)`
/// pairs, and whether the record has entered the frontier.
///
/// While `cost == 0` and `id` is not the root, the node has not been
/// reached yet; a cost of zero is otherwise reserved for the root.
#[derive(Debug, Clone, PartialEq, Eq)]
pub struct Path {
    pub id: usize,
    pub cost: u32,
    pub paths: Vec<Vec<usize>>,
    pub nexthops: Vec<Vec<usize>>,
    pub registered: bool,
}

impl Path {
    pub fn new(id: usize) -> (r: Self)
        ensures
            r.id == id,
            r.cost == 0,
            r.paths@ == Seq::<Vec<usize>>::empty(),
            r.nexthops@ == Seq::<Vec<usize>>::empty(),
            !r.registered,
    {
        Self { id, cost: 0, paths: Vec::new(), nexthops: Vec::new(), registered: false }
    }
}

/// Traversal options: whether to retain complete paths or only next-hop
/// pairs, the cap on retained equal-cost alternatives (`0` meaning
/// unbounded), and the flags selecting how a repair list is rendered
/// downstream (they do not affect path finding).
#[derive(Debug, Clone, Copy, PartialEq, Eq)]
pub struct SpfOpt {
    pub full_path: bool,
    pub path_max: usize,
    pub srv6: bool,
    pub srmpls: bool,
}

impl Default for SpfOpt {
    fn default() -> (r: Self)
        ensures
            !r.full_path,
            r.path_max == 0,
            !r.srv6,
            !r.srmpls,
    {
        Self { full_path: false, path_max: 0, srv6: false, srmpls: false }
    }
}

impl SpfOpt {
    pub fn new() -> (r: Self)
        ensures
            !r.full_path,
            r.path_max == 0,
            !r.srv6,
            !r.srmpls,
    {
        Self::default()
    }
}

/// The adjacency list a traversal in direction `dir` follows at node `v`.
pub open spec fn dir_adj(g: Seq<Node>, dir: Direction, v: int) -> Seq<Link> {
    match dir {
        Direction::Normal => g[v].olinks@,
        Direction::Reverse => g[v].ilinks@,
    }
}

/// The far endpoint of link `l` as seen by a traversal in direction `dir`.
pub open spec fn link_peer(l: Link, dir: Direction) -> usize {
    match dir {
        Direction::Normal => l.to,
        Direction::Reverse => l.from,
    }
}

/// Node `i` takes part in a traversal: it is present in the graph, not
/// disabled, and not the node whose failure is being simulated.
pub open spec fn avail(g: Seq<Node>, off: Option<usize>, i: int) -> bool {
    &&& 0 <= i < g.len()
    &&& !g[i].is_disabled
    &&& off != Some(i as usize)
}

/// Some link of `u`'s adjacency list in direction `dir` reaches `c` at
/// cost `w`.
pub open spec fn linked_w(g: Seq<Node>, dir: Direction, u: int, c: int, w: u32) -> bool {
    exists|k: int|
        0 <= k < dir_adj(g, dir, u).len() && link_peer(#[trigger] dir_adj(g, dir, u)[k], dir) == c
            && dir_adj(g, dir, u)[k].cost == w
}

/// Some link of `u`'s adjacency list in direction `dir` reaches `c`.
pub open spec fn linked(g: Seq<Node>, dir: Direction, u: int, c: int) -> bool {
    exists|w: u32| linked_w(g, dir, u, c, w)
}

/// `p` is a walk through the graph whose links sum (saturating) to
/// `total`: consecutive elements are joined by links of the traversed
/// adjacency lists.
pub open spec fn walk_ok(g: Seq<Node>, dir: Direction, p: Seq<usize>, total: u32) -> bool
    decreases p.len(),
{
    if p.len() == 0 {
        false
    } else if p.len() == 1 {
        total == 0
    } else {
        exists|t: u32, w: u32|
            #![auto]
            {
                &&& walk_ok(g, dir, p.drop_last(), t)
                &&& linked_w(g, dir, p[p.len() - 2] as int, p[p.len() - 1] as int, w)
                &&& total == t.saturating_add(w)
            }
    }
}

/// `p` is a complete route of cost `cost` from `root` to `dest`: a walk
/// whose hops past the root are all available and never revisit the root.
pub open spec fn path_ok(
    g: Seq<Node>,
    dir: Direction,
    off: Option<usize>,
    root: usize,
    dest: usize,
    cost: u32,
    p: Seq<usize>,
) -> bool {
    &&& p.len() >= 1
    &&& p[0] == root
    &&& p[p.len() - 1] == dest
    &&& walk_ok(g, dir, p, cost)
    &&& forall|j: int| 1 <= j < p.len() ==> avail(g, off, #[trigger] p[j] as int) && p[j] != root
}

/// A retained next-hop record: the root alone (the root's own seed), or a
/// `(root, first hop)` pair along an available link out of the root.
pub open spec fn nexthop_ok(
    g: Seq<Node>,
    dir: Direction,
    off: Option<usize>,
    root: usize,
    nh: Seq<usize>,
) -> bool {
    ||| (nh.len() == 1 && nh[0] == root)
    ||| (nh.len() == 2 && nh[0] == root && nh[1] != root && linked(g, dir, root as int, nh[1] as int)
        && avail(g, off, nh[1] as int))
}

/// Every retained `(root, first hop)` pair of `e` begins a route of
/// exactly `e`'s cost from the root to `e`'s node.
pub open spec fn rec_nexthops_tight(
    g: Seq<Node>,
    dir: Direction,
    off: Option<usize>,
    root: usize,
    e: Path,
) -> bool {
    forall|ni: int|
        0 <= ni < e.nexthops@.len() && (#[trigger] e.nexthops@[ni])@.len() == 2 ==> exists|
            p: Seq<usize>,
        |
            #![auto]
            path_ok(g, dir, off, root, e.id, e.cost, p) && p.len() >= 2 && p[1] == e.nexthops@[
                ni
            ]@[1]
}

/// The root's record is exactly its zero-cost seed.
pub open spec fn root_entry_ok(root: usize, e: Path) -> bool {
    &&& e.id == root
    &&& e.cost == 0
    &&& e.paths@.len() == 1
    &&& e.paths@[0]@ == seq![root]
    &&& e.nexthops@.len() == 1
    &&& e.nexthops@[0]@ == seq![root]
}

/// Every record of a traversal satisfies this: the root's record is its
/// seed, and any other record retains only complete routes of its own cost
/// from the root to itself, with the retention cap respected.
pub open spec fn entry_ok(
    g: Seq<Node>,
    dir: Direction,
    off: Option<usize>,
    root: usize,
    path_max: usize,
    e: Path,
) -> bool {
    &&& e.id < g.len()
    &&& e.id == root ==> root_entry_ok(root, e)
    &&& e.id != root ==> {
        &&& forall|pi: int|
            0 <= pi < e.paths@.len() ==> path_ok(
                g,
                dir,
                off,
                root,
                e.id,
                e.cost,
                (#[trigger] e.paths@[pi])@,
            ) && e.paths@[pi]@.len() >= 2
        &&& forall|ni: int|
            0 <= ni < e.nexthops@.len() ==> nexthop_ok(
                g,
                dir,
                off,
                root,
                (#[trigger] e.nexthops@[ni])@,
            ) && e.nexthops@[ni]@.len() == 2
        &&& path_max > 0 ==> e.paths@.len() <= path_max && e.nexthops@.len() <= path_max
    }
}

/// A settled entry additionally retains at least one route (at least one
/// full path in full-path mode, at least one next-hop pair otherwise).
pub open spec fn out_entry_ok(
    g: Seq<Node>,
    dir: Direction,
    off: Option<usize>,
    root: usize,
    full_path: bool,
    path_max: usize,
    e: Path,
) -> bool {
    &&& entry_ok(g, dir, off, root, path_max, e)
    &&& full_path ==> e.paths@.len() >= 1
    &&& !full_path ==> e.nexthops@.len() >= 1
}

/// Some entry of `t` is keyed by `id`.
pub open spec fn has_id(t: Seq<Path>, id: usize) -> bool {
    exists|k: int| 0 <= k < t.len() && (#[trigger] t[k]).id == id
}

/// No two entries of `t` share an id.
pub open spec fn ids_unique(t: Seq<Path>) -> bool {
    forall|i: int, j: int|
        0 <= i < j < t.len() ==> (#[trigger] t[i]).id != (#[trigger] t[j]).id
}

/// Entry costs never decrease along `t`: the settle order of the
/// traversal is cost-monotone.
pub open spec fn costs_monotone(t: Seq<Path>) -> bool {
    forall|i: int, j: int|
        0 <= i <= j < t.len() ==> #[trigger] t[i].cost <= #[trigger] t[j].cost
}

/// Entry ids strictly increase along `t`.
pub open spec fn table_sorted(t: Seq<Path>) -> bool {
    forall|i: int, j: int|
        0 <= i < j < t.len() ==> (#[trigger] t[i]).id < (#[trigger] t[j]).id
}

/// `t` is closed under one traversal step: every available link out of an
/// entry's node toward an available non-root peer leads to another entry.
/// Together with the per-entry properties this makes `t` cover everything
/// reachable from the root.
pub open spec fn table_closed(
    g: Seq<Node>,
    dir: Direction,
    off: Option<usize>,
    root: usize,
    t: Seq<Path>,
) -> bool {
    forall|k: int, li: int|
        0 <= k < t.len() && avail(g, off, t[k].id as int) && 0 <= li < dir_adj(
            g,
            dir,
            t[k].id as int,
        ).len() ==> {
            let peer = link_peer(#[trigger] dir_adj(g, dir, t[k].id as int)[li], dir);
            (avail(g, off, peer as int) && peer != root) ==> has_id(t, peer)
        }
}

/// How many entries of `s` are true.
spec fn count_true(s: Seq<bool>) -> nat
    decreases s.len(),
{
    if s.len() == 0 {
        0
    } else {
        count_true(s.drop_last()) + if s[s.len() - 1] {
            1nat
        } else {
            0nat
        }
    }
}

proof fn lemma_count_true_le(s: Seq<bool>)
    ensures
        count_true(s) <= s.len(),
    decreases s.len(),
{
    if s.len() > 0 {
        lemma_count_true_le(s.drop_last());
    }
}

proof fn lemma_count_true_update(s: Seq<bool>, i: int)
    requires
        0 <= i < s.len(),
        !s[i],
    ensures
        count_true(s.update(i, true)) == count_true(s) + 1,
    decreases s.len(),
{
    let u = s.update(i, true);
    if i == s.len() - 1 {
        assert(u.drop_last() =~= s.drop_last());
    } else {
        assert(u.drop_last() =~= s.drop_last().update(i, true));
        lemma_count_true_update(s.drop_last(), i);
    }
}

/// Copies a list of node ids.
fn copy_ids(v: &Vec<usize>) -> (r: Vec<usize>)
    ensures
        r@ == v@,
{
    let mut r: Vec<usize> = Vec::new();
    let mut i: usize = 0;
    while i < v.len()
        invariant
            i <= v@.len(),
            r@ == v@.subrange(0, i as int),
        decreases v@.len() - i,
    {
        r.push(v[i]);
        proof {
            assert(r@ =~= v@.subrange(0, i + 1));
        }
        i = i + 1;
    }
    proof {
        assert(r@ =~= v@);
    }
    r
}

/// Copies a traversal record.
fn copy_path(p: &Path) -> (r: Path)
    ensures
        path_like(*p, r),
{
    let mut paths: Vec<Vec<usize>> = Vec::new();
    let mut i: usize = 0;
    while i < p.paths.len()
        invariant
            i <= p.paths@.len(),
            paths@.len() == i,
            forall|j: int| 0 <= j < i ==> (#[trigger] paths@[j])@ == p.paths@[j]@,
        decreases p.paths@.len() - i,
    {
        paths.push(copy_ids(&p.paths[i]));
        i = i + 1;
    }
    let mut nexthops: Vec<Vec<usize>> = Vec::new();
    let mut k: usize = 0;
    while k < p.nexthops.len()
        invariant
            k <= p.nexthops@.len(),
            nexthops@.len() == k,
            forall|j: int| 0 <= j < k ==> (#[trigger] nexthops@[j])@ == p.nexthops@[j]@,
        decreases p.nexthops@.len() - k,
    {
        nexthops.push(copy_ids(&p.nexthops[k]));
        k = k + 1;
    }
    Path { id: p.id, cost: p.cost, paths, nexthops, registered: p.registered }
}

/// Whether `v` holds `x`.
pub(crate) fn contains_id(v: &Vec<usize>, x: usize) -> (r: bool)
    ensures
        r == v@.contains(x),
{
    let mut i: usize = 0;
    while i < v.len()
        invariant
            i <= v@.len(),
            forall|j: int| 0 <= j < i ==> v@[j] != x,
        decreases v@.len() - i,
    {
        if v[i] == x {
            return true;
        }
        i = i + 1;
    }
    false
}

/// Whether some element of `v` holds exactly the ids of `x`.
fn contains_idlist(v: &Vec<Vec<usize>>, x: &Vec<usize>) -> (r: bool)
    ensures
        r == exists|i: int| 0 <= i < v@.len() && (#[trigger] v@[i])@ == x@,
{
    let mut i: usize = 0;
    while i < v.len()
        invariant
            i <= v@.len(),
            forall|j: int| 0 <= j < i ==> (#[trigger] v@[j])@ != x@,
        decreases v@.len() - i,
    {
        if same_ids(&v[i], x) {
            return true;
        }
        i = i + 1;
    }
    false
}

/// Whether two id lists hold the same ids in the same order.
fn same_ids(a: &Vec<usize>, b: &Vec<usize>) -> (r: bool)
    ensures
        r == (a@ == b@),
{
    if a.len() != b.len() {
        return false;
    }
    let mut i: usize = 0;
    while i < a.len()
        invariant
            i <= a@.len(),
            a@.len() == b@.len(),
            forall|j: int| 0 <= j < i ==> a@[j] == b@[j],
        decreases a@.len() - i,
    {
        if a[i] != b[i] {
            return false;
        }
        i = i + 1;
    }
    proof {
        assert(a@ =~= b@);
    }
    true
}

/// The length of the adjacency list followed at `v`.
fn adj_len(g: &Graph, v: usize, dir: Direction) -> (r: usize)
    requires
        v < g@.len(),
    ensures
        r == dir_adj(g@, dir, v as int).len(),
{
    match dir {
        Direction::Normal => g[v].olinks.len(),
        Direction::Reverse => g[v].ilinks.len(),
    }
}

/// Link `k` of the adjacency list followed at `v`.
fn adj_link(g: &Graph, v: usize, dir: Direction, k: usize) -> (r: Link)
    requires
        v < g@.len(),
        k < dir_adj(g@, dir, v as int).len(),
    ensures
        r == dir_adj(g@, dir, v as int)[k as int],
{
    match dir {
        Direction::Normal => g[v].olinks[k],
        Direction::Reverse => g[v].ilinks[k],
    }
}

/// The far endpoint of `l` in direction `dir`.
fn peer_of(l: Link, dir: Direction) -> (r: usize)
    ensures
        r == link_peer(l, dir),
{
    match dir {
        Direction::Normal => l.to,
        Direction::Reverse => l.from,
    }
}

/// `a` settles no later than `b` under the `(cost, id)` frontier order.
spec fn key_le(recs: Seq<Path>, a: int, b: int) -> bool {
    recs[a].cost < recs[b].cost || (recs[a].cost == recs[b].cost && a <= b)
}

/// Removes from `frontier` the id that is minimal under the `(cost, id)`
/// order, the deterministic tie-break the traversal settles by.
fn pop_min(frontier: &mut Vec<usize>, records: &Vec<Path>) -> (v: usize)
    requires
        old(frontier)@.len() > 0,
        forall|j: int| 0 <= j < old(frontier)@.len() ==> #[trigger] old(frontier)@[j] < records@.len(),
        forall|i: int, j: int|
            0 <= i < j < old(frontier)@.len() ==> old(frontier)@[i] != old(frontier)@[j],
    ensures
        old(frontier)@.contains(v),
        v < records@.len(),
        final(frontier)@.len() == old(frontier)@.len() - 1,
        forall|j: int|
            0 <= j < final(frontier)@.len() ==> old(frontier)@.contains(#[trigger] final(frontier)@[j])
                && final(frontier)@[j] != v,
        forall|i: int, j: int|
            0 <= i < j < final(frontier)@.len() ==> final(frontier)@[i] != final(frontier)@[j],
        forall|e: usize|
            old(frontier)@.contains(e) && e != v ==> #[trigger] final(frontier)@.contains(e),
        forall|j: int|
            0 <= j < old(frontier)@.len() && old(frontier)@[j] != v ==> key_le(
                records@,
                v as int,
                #[trigger] old(frontier)@[j] as int,
            ),
{
    let mut best: usize = 0;
    let mut i: usize = 1;
    while i < frontier.len()
        invariant
            frontier@.len() > 0,
            best < i <= frontier@.len() || (best == 0 && i <= frontier@.len()),
            best < frontier@.len(),
            forall|j: int| 0 <= j < frontier@.len() ==> #[trigger] frontier@[j] < records@.len(),
            forall|j: int|
                0 <= j < i ==> key_le(
                    records@,
                    frontier@[best as int] as int,
                    #[trigger] frontier@[j] as int,
                ),
        decreases frontier@.len() - i,
    {
        let fc = frontier[i];
        let fb = frontier[best];
        if records[fc].cost < records[fb].cost
            || (records[fc].cost == records[fb].cost && fc < fb) {
            best = i;
        }
        i = i + 1;
    }
    let v = frontier.remove(best);
    proof {
        let of = old(frontier)@;
        assert(of[best as int] == v);
        assert(of.contains(v));
        assert forall|j: int| 0 <= j < frontier@.len() implies old(frontier)@.contains(
            #[trigger] frontier@[j],
        ) && frontier@[j] != v by {
            if j < best {
                assert(frontier@[j] == of[j]);
            } else {
                assert(frontier@[j] == of[j + 1]);
            }
        }
        assert forall|i2: int, j2: int| 0 <= i2 < j2 < frontier@.len() implies frontier@[i2]
            != frontier@[j2] by {
            let a = if i2 < best { i2 } else { i2 + 1 };
            let b = if j2 < best { j2 } else { j2 + 1 };
            assert(frontier@[i2] == of[a]);
            assert(frontier@[j2] == of[b]);
        }
        assert forall|e: usize| of.contains(e) && e != v implies frontier@.contains(e) by {
            let j = choose|j: int| 0 <= j < of.len() && of[j] == e;
            if j < best {
                assert(frontier@[j] == e);
            } else {
                assert(j > best);
                assert(frontier@[j - 1] == e);
            }
        }
    }
    v
}

/// Every link followed by a traversal in direction `dir` has a strictly
/// positive cost.  Under this hypothesis a cost of zero identifies the
/// root alone, so the traversal's costs are exact minima.
pub open spec fn positive_costs(g: Seq<Node>, dir: Direction) -> bool {
    forall|u: int, k: int|
        0 <= u < g.len() && 0 <= k < dir_adj(g, dir, u).len() ==> (#[trigger] dir_adj(
            g,
            dir,
            u,
        )[k]).cost >= 1
}

/// `paths` retains `p` as one of its entries.
pub open spec fn paths_has(paths: Seq<Vec<usize>>, p: Seq<usize>) -> bool {
    exists|qi: int| 0 <= qi < paths.len() && (#[trigger] paths[qi])@ == p
}

/// The traversal retains every shortest route: it keeps full paths,
/// its retention is uncapped, link costs are positive, and the root
/// takes part.
pub open spec fn retains_all(
    g: Seq<Node>,
    dir: Direction,
    off: Option<usize>,
    root: usize,
    full_path: bool,
    path_max: usize,
) -> bool {
    positive_costs(g, dir) && full_path && path_max == 0 && avail(g, off, root as int)
}

/// The first `upto` links of settled `id` have propagated its paths:
/// any available peer whose cost still sits exactly one unsaturated
/// step past `id` holds every path of `id` extended by itself.
spec fn retention_upto(
    g: Seq<Node>,
    dir: Direction,
    off: Option<usize>,
    root: usize,
    records: Seq<Path>,
    id: usize,
    upto: int,
) -> bool {
    forall|li: int|
        0 <= li < upto && li < dir_adj(g, dir, id as int).len() ==> {
            let peer = link_peer(#[trigger] dir_adj(g, dir, id as int)[li], dir);
            let step = records[id as int].cost.saturating_add(
                dir_adj(g, dir, id as int)[li].cost,
            );
            (avail(g, off, peer as int) && peer != root && records[peer as int].cost == step
                && step < u32::MAX) ==> forall|pi: int|
                0 <= pi < records[id as int].paths@.len() ==> paths_has(
                    records[peer as int].paths@,
                    (#[trigger] records[id as int].paths@[pi])@.push(peer),
                )
        }
}

/// The first `closed` settled entries have propagated their paths.
spec fn retention_closed(
    g: Seq<Node>,
    dir: Direction,
    off: Option<usize>,
    root: usize,
    records: Seq<Path>,
    out: Seq<Path>,
    closed: int,
) -> bool {
    forall|k: int|
        0 <= k < out.len() && k < closed && avail(g, off, (#[trigger] out[k]).id as int)
            ==> retention_upto(
            g,
            dir,
            off,
            root,
            records,
            out[k].id,
            dir_adj(g, dir, out[k].id as int).len() as int,
        )
}

/// Every settled node's record holds every route that attains its cost
/// (short of the saturation point).
spec fn settled_paths_complete(
    g: Seq<Node>,
    dir: Direction,
    off: Option<usize>,
    root: usize,
    records: Seq<Path>,
    settled: Seq<bool>,
) -> bool {
    forall|z: usize, cost: u32, p: Seq<usize>|
        z < g.len() && settled[z as int] && #[trigger] path_ok(g, dir, off, root, z, cost, p)
            && cost == records[z as int].cost && cost < u32::MAX ==> paths_has(
            records[z as int].paths@,
            p,
        )
}

/// Entry `e` retains every route that attains its cost (short of the
/// saturation point).
pub open spec fn entry_paths_complete(
    g: Seq<Node>,
    dir: Direction,
    off: Option<usize>,
    root: usize,
    e: Path,
) -> bool {
    forall|cost: u32, p: Seq<usize>|
        #[trigger] path_ok(g, dir, off, root, e.id, cost, p) && cost == e.cost && cost
            < u32::MAX ==> paths_has(e.paths@, p)
}

/// No two links of one adjacency list agree on both far endpoint and
/// cost.  Parallel equal-cost links make the traversal retain the same
/// route once per link; ruling them out makes retained route lists
/// duplicate-free.
pub open spec fn distinct_links(g: Seq<Node>, dir: Direction) -> bool {
    forall|u: int, k1: int, k2: int|
        #![trigger dir_adj(g, dir, u)[k1], dir_adj(g, dir, u)[k2]]
        0 <= u < g.len() && 0 <= k1 < k2 < dir_adj(g, dir, u).len() ==> !(link_peer(
            dir_adj(g, dir, u)[k1],
            dir,
        ) == link_peer(dir_adj(g, dir, u)[k2], dir) && dir_adj(g, dir, u)[k1].cost == dir_adj(
            g,
            dir,
            u,
        )[k2].cost)
}

/// No two retained routes of `e` are the same sequence.
pub open spec fn entry_paths_distinct(e: Path) -> bool {
    forall|a: int, b: int|
        0 <= a < b < e.paths@.len() ==> (#[trigger] e.paths@[a])@ != (#[trigger] e.paths@[b])@
}

/// The node one hop before the end of `p`.
pub open spec fn pen_of(p: Seq<usize>) -> int {
    p[p.len() - 2] as int
}

/// Every multi-hop retained route of `e` was extended out of a settled
/// node: its second-to-last node is settled.
spec fn entry_pens_settled(n: int, settled: Seq<bool>, e: Path) -> bool {
    forall|pi: int|
        0 <= pi < e.paths@.len() && (#[trigger] e.paths@[pi])@.len() >= 2 ==> 0 <= pen_of(
            e.paths@[pi]@,
        ) < n && settled[pen_of(e.paths@[pi]@)]
}

/// The first `upto` links of `id`'s adjacency list have been relaxed:
/// each available non-root peer they reach has a registered record and,
/// under positive link costs, a cost no worse than one step past `id`.
spec fn entry_closed_upto(
    g: Seq<Node>,
    dir: Direction,
    off: Option<usize>,
    root: usize,
    records: Seq<Path>,
    id: usize,
    upto: int,
) -> bool {
    forall|li: int|
        0 <= li < upto && li < dir_adj(g, dir, id as int).len() ==> {
            let peer = link_peer(#[trigger] dir_adj(g, dir, id as int)[li], dir);
            (avail(g, off, peer as int) && peer != root) ==> records[peer as int].registered
                && (positive_costs(g, dir) ==> records[peer as int].cost <= records[id as int]
                .cost.saturating_add(dir_adj(g, dir, id as int)[li].cost))
        }
}

/// The first `closed` settled entries have been fully relaxed.
spec fn closure_upto(
    g: Seq<Node>,
    dir: Direction,
    off: Option<usize>,
    root: usize,
    records: Seq<Path>,
    out: Seq<Path>,
    closed: int,
) -> bool {
    forall|k: int|
        0 <= k < out.len() && k < closed && avail(g, off, (#[trigger] out[k]).id as int)
            ==> entry_closed_upto(
            g,
            dir,
            off,
            root,
            records,
            out[k].id,
            dir_adj(g, dir, out[k].id as int).len() as int,
        )
}

/// Some route of some cost runs from `root` to `dest`.
pub open spec fn connected(
    g: Seq<Node>,
    dir: Direction,
    off: Option<usize>,
    root: usize,
    dest: usize,
) -> bool {
    exists|cost: u32, p: Seq<usize>|
        #![auto]
        path_ok(g, dir, off, root, dest, cost, p)
}

/// Every settled cost in `t` is exact: no route from the root to the
/// entry's node costs less.
pub open spec fn table_costs_minimal(
    g: Seq<Node>,
    dir: Direction,
    off: Option<usize>,
    root: usize,
    t: Seq<Path>,
) -> bool {
    forall|k: int, cost: u32, p: Seq<usize>|
        0 <= k < t.len() && #[trigger] path_ok(g, dir, off, root, t[k].id, cost, p) ==> t[
            k
        ].cost <= cost
}

/// Every node that some route from the root reaches has an entry in `t`.
pub open spec fn table_complete(
    g: Seq<Node>,
    dir: Direction,
    off: Option<usize>,
    root: usize,
    t: Seq<Path>,
) -> bool {
    forall|z: usize, cost: u32, p: Seq<usize>|
        #[trigger] path_ok(g, dir, off, root, z, cost, p) ==> has_id(t, z)
}

/// The working state of a traversal: what holds of the records, the
/// settled flags, the frontier and the settled output between any two
/// steps (with the first `closed` output entries fully relaxed).
spec fn engine_inv(
    g: Seq<Node>,
    dir: Direction,
    off: Option<usize>,
    root: usize,
    full_path: bool,
    path_max: usize,
    records: Seq<Path>,
    settled: Seq<bool>,
    frontier: Seq<usize>,
    out: Seq<Path>,
    closed: int,
) -> bool {
    let n = g.len();
    &&& root < n
    &&& records.len() == n
    &&& settled.len() == n
    &&& forall|i: int| 0 <= i < n ==> (#[trigger] records[i]).id == i
    &&& forall|i: int|
        0 <= i < n ==> entry_ok(g, dir, off, root, path_max, #[trigger] records[i])
    &&& forall|i: int|
        0 <= i < n && (#[trigger] records[i]).registered && i != root ==> ((full_path
            ==> records[i].paths@.len() >= 1) && (!full_path ==> records[i].nexthops@.len() >= 1))
    &&& forall|i: int|
        0 <= i < n && i != root && !(#[trigger] records[i]).registered ==> records[i].cost == 0
    &&& forall|i: int|
        0 <= i < n ==> rec_nexthops_tight(g, dir, off, root, #[trigger] records[i])
    &&& forall|i: int|
        0 <= i < n ==> entry_pens_settled(n as int, settled, #[trigger] records[i])
    &&& (positive_costs(g, dir) && distinct_links(g, dir)) ==> forall|i: int|
        0 <= i < n && (#[trigger] records[i]).cost < u32::MAX ==> entry_paths_distinct(
            records[i],
        )
    &&& records[root as int].registered
    &&& forall|j: int| 0 <= j < frontier.len() ==> #[trigger] frontier[j] < n
    &&& forall|j: int|
        0 <= j < frontier.len() ==> records[#[trigger] frontier[j] as int].registered
            && !settled[frontier[j] as int]
    &&& forall|i: int, j: int| 0 <= i < j < frontier.len() ==> frontier[i] != frontier[j]
    &&& forall|i: int| 0 <= i < n && #[trigger] settled[i] ==> records[i].registered
    &&& forall|i: int|
        0 <= i < n && (#[trigger] records[i]).registered && !settled[i] ==> frontier.contains(
            i as usize,
        )
    &&& forall|k: int|
        0 <= k < out.len() ==> out_entry_ok(g, dir, off, root, full_path, path_max, #[trigger] out[k])
    &&& forall|k: int|
        0 <= k < out.len() ==> (#[trigger] out[k]).id < n && settled[out[k].id as int]
    &&& forall|i: int| 0 <= i < n && #[trigger] settled[i] ==> has_id(out, i as usize)
    &&& ids_unique(out)
    &&& costs_monotone(out)
    &&& out.len() == 0 ==> frontier.len() == 1 && frontier[0] == root
    &&& out.len() > 0 ==> out[0].id == root
    &&& out.len() > 0 ==> forall|j: int|
        0 <= j < frontier.len() ==> records[#[trigger] frontier[j] as int].cost >= out[out.len()
            - 1].cost
    &&& forall|k: int|
        0 <= k < out.len() ==> records[(#[trigger] out[k]).id as int].cost == out[k].cost
    &&& positive_costs(g, dir) ==> forall|i: int|
        0 <= i < n && i != root && (#[trigger] records[i]).registered ==> records[i].cost >= 1
    &&& (positive_costs(g, dir) && avail(g, off, root as int)) ==> table_costs_minimal(
        g,
        dir,
        off,
        root,
        out,
    )
    &&& forall|k: int|
        0 <= k < out.len() ==> path_like(records[(#[trigger] out[k]).id as int], out[k])
    &&& retains_all(g, dir, off, root, full_path, path_max) ==> retention_closed(
        g,
        dir,
        off,
        root,
        records,
        out,
        closed,
    )
    &&& retains_all(g, dir, off, root, full_path, path_max) ==> settled_paths_complete(
        g,
        dir,
        off,
        root,
        records,
        settled,
    )
    &&& closure_upto(g, dir, off, root, records, out, closed)
}

/// Appending an available non-root node `c`, reached from `v` by a link
/// of cost `w`, to a route ending at `v` yields a route ending at `c`
/// whose cost is the saturating sum.
proof fn lemma_extend_path(
    g: Seq<Node>,
    dir: Direction,
    off: Option<usize>,
    root: usize,
    v: usize,
    c: usize,
    vcost: u32,
    w: u32,
    cand: u32,
    p: Seq<usize>,
    q: Seq<usize>,
)
    requires
        path_ok(g, dir, off, root, v, vcost, p),
        linked_w(g, dir, v as int, c as int, w),
        cand == vcost.saturating_add(w),
        avail(g, off, c as int),
        c != root,
        q == p.push(c),
    ensures
        path_ok(g, dir, off, root, c, cand, q),
        q.len() >= 2,
{
    assert(q.drop_last() =~= p);
    assert(q[q.len() - 1] == c);
    assert(q[q.len() - 2] == p[p.len() - 1]);
    assert(walk_ok(g, dir, q.drop_last(), vcost));
    assert(linked_w(g, dir, q[q.len() - 2] as int, q[q.len() - 1] as int, w));
    assert(walk_ok(g, dir, q, cand)) by {
        reveal_with_fuel(walk_ok, 2);
        assert(q.len() >= 2);
        assert(walk_ok(g, dir, q.drop_last(), vcost) && linked_w(
            g,
            dir,
            q[q.len() - 2] as int,
            q[q.len() - 1] as int,
            w,
        ) && cand == vcost.saturating_add(w));
    }
    assert forall|j: int| 1 <= j < q.len() implies avail(g, off, #[trigger] q[j] as int) && q[j]
        != root by {
        if j < q.len() - 1 {
            assert(q[j] == p[j]);
        }
    }
}

/// `b` carries the same record as `a`: equal scalars and element-wise
/// equal path and next-hop lists.
spec fn path_like(a: Path, b: Path) -> bool {
    &&& b.id == a.id
    &&& b.cost == a.cost
    &&& b.registered == a.registered
    &&& b.paths@.len() == a.paths@.len()
    &&& forall|i: int| 0 <= i < a.paths@.len() ==> (#[trigger] b.paths@[i])@ == a.paths@[i]@
    &&& b.nexthops@.len() == a.nexthops@.len()
    &&& forall|i: int| 0 <= i < a.nexthops@.len() ==> (#[trigger] b.nexthops@[i])@ == a.nexthops@[i]@
}

proof fn lemma_path_like_entry_ok(
    g: Seq<Node>,
    dir: Direction,
    off: Option<usize>,
    root: usize,
    path_max: usize,
    a: Path,
    b: Path,
)
    requires
        entry_ok(g, dir, off, root, path_max, a),
        path_like(a, b),
    ensures
        entry_ok(g, dir, off, root, path_max, b),
{
    if a.id != root {
        assert forall|pi: int| 0 <= pi < b.paths@.len() implies path_ok(
            g,
            dir,
            off,
            root,
            b.id,
            b.cost,
            (#[trigger] b.paths@[pi])@,
        ) && b.paths@[pi]@.len() >= 2 by {
            assert(b.paths@[pi]@ == a.paths@[pi]@);
            assert(path_ok(g, dir, off, root, a.id, a.cost, a.paths@[pi]@));
        }
        assert forall|ni: int| 0 <= ni < b.nexthops@.len() implies nexthop_ok(
            g,
            dir,
            off,
            root,
            (#[trigger] b.nexthops@[ni])@,
        ) && b.nexthops@[ni]@.len() == 2 by {
            assert(b.nexthops@[ni]@ == a.nexthops@[ni]@);
            assert(nexthop_ok(g, dir, off, root, a.nexthops@[ni]@));
        }
    }
}

/// Between steps of a traversal with positive link costs and an
/// available root, every route of cost `c` from the root to `z` passes
/// through the discovered region: either `z` is settled at a cost of at
/// most `c`, or some node on the route waits in the frontier at a cost
/// of at most `c`.
proof fn lemma_path_bound(
    g: Seq<Node>,
    dir: Direction,
    off: Option<usize>,
    root: usize,
    full_path: bool,
    path_max: usize,
    records: Seq<Path>,
    settled: Seq<bool>,
    frontier: Seq<usize>,
    out: Seq<Path>,
    z: usize,
    c: u32,
    p: Seq<usize>,
)
    requires
        engine_inv(
            g,
            dir,
            off,
            root,
            full_path,
            path_max,
            records,
            settled,
            frontier,
            out,
            out.len() as int,
        ),
        positive_costs(g, dir),
        avail(g, off, root as int),
        path_ok(g, dir, off, root, z, c, p),
    ensures
        (z < g.len() && settled[z as int] && records[z as int].cost <= c) || (exists|i: int|
            #![auto]
            0 <= i < p.len() && p[i] < g.len() && !settled[p[i] as int] && records[p[
                i
            ] as int].registered && records[p[i] as int].cost <= c),
    decreases p.len(),
{
    if p.len() == 1 {
        assert(z == root);
        assert(c == 0);
        assert(records[root as int].cost == 0);
        if !settled[root as int] {
            assert(p[0] == root && !settled[p[0] as int] && records[p[0] as int].registered
                && records[p[0] as int].cost <= c);
        }
    } else {
        let zp = p[p.len() - 2];
        let (t, w) = choose|t: u32, w: u32|
            #![auto]
            walk_ok(g, dir, p.drop_last(), t) && linked_w(g, dir, zp as int, z as int, w) && c
                == t.saturating_add(w);
        assert(path_ok(g, dir, off, root, zp, t, p.drop_last())) by {
            assert(p.drop_last()[0] == p[0]);
            assert(p.drop_last()[p.drop_last().len() - 1] == zp);
            assert forall|j: int| 1 <= j < p.drop_last().len() implies avail(
                g,
                off,
                #[trigger] p.drop_last()[j] as int,
            ) && p.drop_last()[j] != root by {
                assert(p.drop_last()[j] == p[j]);
            }
        }
        lemma_path_bound(
            g,
            dir,
            off,
            root,
            full_path,
            path_max,
            records,
            settled,
            frontier,
            out,
            zp,
            t,
            p.drop_last(),
        );
        assert(t <= c && w <= c);
        assert(avail(g, off, z as int) && z != root);
        if zp < g.len() && settled[zp as int] && records[zp as int].cost <= t {
            assert(avail(g, off, zp as int)) by {
                if p.len() - 2 == 0 {
                    assert(zp == root);
                } else {
                    assert(p[p.len() - 2] == zp);
                }
            }
            // an output index for zp lets the closure clause speak about its links
            let ko = choose|ko: int| 0 <= ko < out.len() && (#[trigger] out[ko]).id == zp;
            assert(entry_closed_upto(
                g,
                dir,
                off,
                root,
                records,
                zp,
                dir_adj(g, dir, zp as int).len() as int,
            ));
            let li = choose|li: int|
                0 <= li < dir_adj(g, dir, zp as int).len() && link_peer(
                    #[trigger] dir_adj(g, dir, zp as int)[li],
                    dir,
                ) == z as int && dir_adj(g, dir, zp as int)[li].cost == w;
            assert(records[z as int].registered && records[z as int].cost <= records[
                zp as int
            ].cost.saturating_add(w));
            assert(records[zp as int].cost.saturating_add(w) <= t.saturating_add(w));
            assert(records[z as int].cost <= c);
            if !settled[z as int] {
                assert(p[p.len() - 1] == z && !settled[p[p.len() - 1] as int] && records[p[
                    p.len() - 1
                ] as int].registered && records[p[p.len() - 1] as int].cost <= c);
            }
        } else {
            let i = choose|i: int|
                #![auto]
                0 <= i < p.drop_last().len() && p.drop_last()[i] < g.len() && !settled[
                    p.drop_last()[i] as int
                ] && records[p.drop_last()[i] as int].registered && records[p.drop_last()[
                    i
                ] as int].cost <= t;
            assert(p[i] == p.drop_last()[i]);
            assert(0 <= i < p.len() && p[i] < g.len() && !settled[p[i] as int] && records[p[
                i
            ] as int].registered && records[p[i] as int].cost <= c);
        }
    }
}

proof fn lemma_path_like_tight(
    g: Seq<Node>,
    dir: Direction,
    off: Option<usize>,
    root: usize,
    a: Path,
    b: Path,
)
    requires
        rec_nexthops_tight(g, dir, off, root, a),
        path_like(a, b),
    ensures
        rec_nexthops_tight(g, dir, off, root, b),
{
    assert forall|ni: int|
        0 <= ni < b.nexthops@.len() && (#[trigger] b.nexthops@[ni])@.len() == 2 implies exists|
        p: Seq<usize>,
    |
        #![auto]
        path_ok(g, dir, off, root, b.id, b.cost, p) && p.len() >= 2 && p[1] == b.nexthops@[
            ni
        ]@[1] by {
        assert(b.nexthops@[ni]@ == a.nexthops@[ni]@);
        let p = choose|p: Seq<usize>|
            #![auto]
            path_ok(g, dir, off, root, a.id, a.cost, p) && p.len() >= 2 && p[1] == a.nexthops@[
                ni
            ]@[1];
        assert(path_ok(g, dir, off, root, b.id, b.cost, p) && p.len() >= 2 && p[1]
            == b.nexthops@[ni]@[1]);
    }
}

/// With distinct links, an unsettled record cannot already hold a
/// route through `v`'s link `k` at the candidate cost: the earlier link
/// that produced it would have to repeat the same endpoint and cost.
proof fn lemma_no_reextension(
    g: Seq<Node>,
    dir: Direction,
    records: Seq<Path>,
    settled: Seq<bool>,
    v: usize,
    c: usize,
    k: int,
    cand: u32,
    qi: int,
)
    requires
        0 <= (c as int) < records.len(),
        (v as int) < records.len(),
        (v as int) < g.len(),
        !settled[c as int],
        v_extensions_linked(g, dir, records, settled, v, k),
        0 <= qi < records[c as int].paths@.len(),
        records[c as int].paths@[qi]@.len() >= 2,
        0 <= k < dir_adj(g, dir, v as int).len(),
        link_peer(dir_adj(g, dir, v as int)[k], dir) == c,
        positive_costs(g, dir),
        distinct_links(g, dir),
        cand < u32::MAX,
        records[c as int].cost == cand,
        cand == records[v as int].cost.saturating_add(dir_adj(g, dir, v as int)[k].cost),
    ensures
        pen_of(records[c as int].paths@[qi]@) != v as int,
{
    if pen_of(records[c as int].paths@[qi]@) != v as int {
        return ;
    }
    assert(exists|k2: int|
        #![auto]
        0 <= k2 < k && k2 < dir_adj(g, dir, v as int).len() && link_peer(
            dir_adj(g, dir, v as int)[k2],
            dir,
        ) as int == c as int && records[v as int].cost.saturating_add(
            dir_adj(g, dir, v as int)[k2].cost,
        ) == records[c as int].cost);
    let k2 = choose|k2: int|
        #![auto]
        0 <= k2 < k && k2 < dir_adj(g, dir, v as int).len() && link_peer(
            dir_adj(g, dir, v as int)[k2],
            dir,
        ) as int == c as int && records[v as int].cost.saturating_add(
            dir_adj(g, dir, v as int)[k2].cost,
        ) == records[c as int].cost;
    assert(records[v as int].cost + dir_adj(g, dir, v as int)[k].cost == cand);
    assert(records[v as int].cost + dir_adj(g, dir, v as int)[k2].cost == cand);
    assert(dir_adj(g, dir, v as int)[k2].cost == dir_adj(g, dir, v as int)[k].cost);
    assert(link_peer(dir_adj(g, dir, v as int)[k2], dir) == link_peer(
        dir_adj(g, dir, v as int)[k],
        dir,
    ));
    assert(k2 < k);
    assert(!(link_peer(dir_adj(g, dir, v as int)[k2], dir) == link_peer(
        dir_adj(g, dir, v as int)[k],
        dir,
    ) && dir_adj(g, dir, v as int)[k2].cost == dir_adj(g, dir, v as int)[k].cost));
}

/// Mid-relaxation bookkeeping: any unsettled record holding a route/// Mid-relaxation bookkeeping: any unsettled record holding a route
/// whose second-to-last node is `v` got it from one of `v`'s first `k`
/// links, at a cost still exactly one step past `v`.
spec fn v_extensions_linked(
    g: Seq<Node>,
    dir: Direction,
    records: Seq<Path>,
    settled: Seq<bool>,
    v: usize,
    k: int,
) -> bool {
    forall|c2: int, pi: int|
        0 <= c2 < records.len() && !settled[c2] && 0 <= pi < records[c2].paths@.len() && (
        #[trigger] records[c2].paths@[pi])@.len() >= 2 && pen_of(records[c2].paths@[pi]@)
            == v as int ==> exists|k2: int|
            #![auto]
            0 <= k2 < k && k2 < dir_adj(g, dir, v as int).len() && link_peer(
                dir_adj(g, dir, v as int)[k2],
                dir,
            ) as int == c2 && records[v as int].cost.saturating_add(
                dir_adj(g, dir, v as int)[k2].cost,
            ) == records[c2].cost
}

proof fn lemma_path_like_distinct(a: Path, b: Path)
    requires
        entry_paths_distinct(a),
        path_like(a, b),
    ensures
        entry_paths_distinct(b),
{
    assert forall|x: int, y: int| 0 <= x < y < b.paths@.len() implies (#[trigger] b.paths@[x])@
        != (#[trigger] b.paths@[y])@ by {
        assert(b.paths@[x]@ == a.paths@[x]@ && b.paths@[y]@ == a.paths@[y]@);
        assert(a.paths@[x]@ != a.paths@[y]@);
    }
}

proof fn lemma_path_like_pens(n: int, settled: Seq<bool>, a: Path, b: Path)
    requires
        entry_pens_settled(n, settled, a),
        path_like(a, b),
    ensures
        entry_pens_settled(n, settled, b),
{
    assert forall|pi: int|
        0 <= pi < b.paths@.len() && (#[trigger] b.paths@[pi])@.len() >= 2 implies 0 <= pen_of(
        b.paths@[pi]@,
    ) < n && settled[pen_of(b.paths@[pi]@)] by {
        assert(b.paths@[pi]@ == a.paths@[pi]@);
        assert(a.paths@[pi]@.len() >= 2);
    }
}

/// When `v` holds the minimal `(cost, id)` frontier key, its recorded
/// cost undercuts every route from the root to `v`.
proof fn lemma_settle_min(
    g: Seq<Node>,
    dir: Direction,
    off: Option<usize>,
    root: usize,
    full_path: bool,
    path_max: usize,
    records: Seq<Path>,
    settled0: Seq<bool>,
    frontier0: Seq<usize>,
    out0: Seq<Path>,
    v: usize,
)
    requires
        engine_inv(
            g,
            dir,
            off,
            root,
            full_path,
            path_max,
            records,
            settled0,
            frontier0,
            out0,
            out0.len() as int,
        ),
        frontier0.contains(v),
        v < records.len(),
        forall|j: int|
            0 <= j < frontier0.len() && frontier0[j] != v ==> key_le(
                records,
                v as int,
                #[trigger] frontier0[j] as int,
            ),
        positive_costs(g, dir),
        avail(g, off, root as int),
    ensures
        forall|cost: u32, p: Seq<usize>|
            #[trigger] path_ok(g, dir, off, root, v, cost, p) ==> records[v as int].cost
                <= cost,
{
    assert forall|cost: u32, p: Seq<usize>|
        #[trigger] path_ok(g, dir, off, root, v, cost, p) implies records[v as int].cost
        <= cost by {
        lemma_path_bound(
            g,
            dir,
            off,
            root,
            full_path,
            path_max,
            records,
            settled0,
            frontier0,
            out0,
            v,
            cost,
            p,
        );
        if !(settled0[v as int] && records[v as int].cost <= cost) {
            let i = choose|i: int|
                #![auto]
                0 <= i < p.len() && p[i] < g.len() && !settled0[p[i] as int] && records[p[
                    i
                ] as int].registered && records[p[i] as int].cost <= cost;
            assert(frontier0.contains(p[i]));
            if p[i] != v {
                let j = choose|j: int| 0 <= j < frontier0.len() && frontier0[j] == p[i];
                assert(key_le(records, v as int, p[i] as int));
            }
        }
    }
}

/// When `v` holds the minimal frontier key of an uncapped full-path
/// traversal, its record already retains every route that attains its
/// cost: the route's second-to-last node settled earlier at exactly one
/// link less, kept the route's prefix, and propagated it into `v`.
proof fn lemma_settle_retention(
    g: Seq<Node>,
    dir: Direction,
    off: Option<usize>,
    root: usize,
    full_path: bool,
    path_max: usize,
    records: Seq<Path>,
    settled0: Seq<bool>,
    frontier0: Seq<usize>,
    out0: Seq<Path>,
    v: usize,
)
    requires
        engine_inv(
            g,
            dir,
            off,
            root,
            full_path,
            path_max,
            records,
            settled0,
            frontier0,
            out0,
            out0.len() as int,
        ),
        frontier0.contains(v),
        v < records.len(),
        forall|j: int|
            0 <= j < frontier0.len() && frontier0[j] != v ==> key_le(
                records,
                v as int,
                #[trigger] frontier0[j] as int,
            ),
        retains_all(g, dir, off, root, full_path, path_max),
    ensures
        forall|cost: u32, p: Seq<usize>|
            #[trigger] path_ok(g, dir, off, root, v, cost, p) && cost == records[v as int].cost
                && cost < u32::MAX ==> paths_has(records[v as int].paths@, p),
{
    lemma_settle_min(
        g,
        dir,
        off,
        root,
        full_path,
        path_max,
        records,
        settled0,
        frontier0,
        out0,
        v,
    );
    assert forall|cost: u32, p: Seq<usize>|
        #[trigger] path_ok(g, dir, off, root, v, cost, p) && cost == records[v as int].cost
            && cost < u32::MAX implies paths_has(records[v as int].paths@, p) by {
        if p.len() == 1 {
            assert(v == root);
            assert(cost == 0);
            assert(root_entry_ok(root, records[root as int]));
            assert(records[root as int].paths@[0]@ == seq![root]);
            assert(p =~= seq![root]);
            assert(records[v as int].paths@[0]@ == p);
        } else {
            let (t, w) = choose|t: u32, w: u32|
                #![auto]
                walk_ok(g, dir, p.drop_last(), t) && linked_w(
                    g,
                    dir,
                    p[p.len() - 2] as int,
                    p[p.len() - 1] as int,
                    w,
                ) && cost == t.saturating_add(w);
            let zp = p[p.len() - 2];
            assert(p[p.len() - 1] == v);
            assert(path_ok(g, dir, off, root, zp, t, p.drop_last())) by {
                assert(p.drop_last()[0] == p[0]);
                assert(p.drop_last()[p.drop_last().len() - 1] == zp);
                assert forall|j: int| 1 <= j < p.drop_last().len() implies avail(
                    g,
                    off,
                    #[trigger] p.drop_last()[j] as int,
                ) && p.drop_last()[j] != root by {
                    assert(p.drop_last()[j] == p[j]);
                }
            }
            let li = choose|li: int|
                0 <= li < dir_adj(g, dir, zp as int).len() && link_peer(
                    #[trigger] dir_adj(g, dir, zp as int)[li],
                    dir,
                ) == v as int && dir_adj(g, dir, zp as int)[li].cost == w;
            assert(avail(g, off, zp as int)) by {
                if p.len() - 2 == 0 {
                    assert(zp == p[0]);
                } else {
                    assert(p[p.len() - 2] == zp);
                }
            }
            assert(w >= 1) by {
                assert(dir_adj(g, dir, zp as int)[li].cost >= 1);
            }
            assert(t < cost);
            lemma_path_bound(
                g,
                dir,
                off,
                root,
                full_path,
                path_max,
                records,
                settled0,
                frontier0,
                out0,
                zp,
                t,
                p.drop_last(),
            );
            if !(settled0[zp as int] && records[zp as int].cost <= t) {
                let i = choose|i: int|
                    #![auto]
                    0 <= i < p.drop_last().len() && p.drop_last()[i] < g.len() && !settled0[
                        p.drop_last()[i] as int
                    ] && records[p.drop_last()[i] as int].registered && records[p.drop_last()[
                        i
                    ] as int].cost <= t;
                assert(frontier0.contains(p.drop_last()[i]));
                if p.drop_last()[i] != v {
                    let j = choose|j: int|
                        0 <= j < frontier0.len() && frontier0[j] == p.drop_last()[i];
                    assert(key_le(records, v as int, p.drop_last()[i] as int));
                }
                assert(records[v as int].cost <= t);
                assert(false);
            }
            if records[zp as int].cost < t {
                let zrec = records[zp as int];
                assert(zrec.registered);
                assert(zrec.paths@.len() >= 1);
                let prefix0 = zrec.paths@[0]@;
                assert(path_ok(g, dir, off, root, zp, zrec.cost, prefix0)) by {
                    if zp == root {
                        assert(root_entry_ok(root, zrec));
                        assert(prefix0 =~= seq![root]);
                        assert(walk_ok(g, dir, prefix0, 0));
                    }
                }
                lemma_extend_path(
                    g,
                    dir,
                    off,
                    root,
                    zp,
                    v,
                    zrec.cost,
                    w,
                    zrec.cost.saturating_add(w),
                    prefix0,
                    prefix0.push(v),
                );
                assert(records[v as int].cost <= zrec.cost.saturating_add(w));
                assert(zrec.cost.saturating_add(w) < cost);
                assert(false);
            }
            assert(settled0[zp as int] && records[zp as int].cost == t);
            assert(t < u32::MAX);
            assert(settled_paths_complete(g, dir, off, root, records, settled0));
            assert(paths_has(records[zp as int].paths@, p.drop_last()));
            let qi = choose|qi: int|
                0 <= qi < records[zp as int].paths@.len() && (#[trigger] records[
                    zp as int
                ].paths@[qi])@ == p.drop_last();
            assert(has_id(out0, zp));
            let k2 = choose|k2: int| 0 <= k2 < out0.len() && (#[trigger] out0[k2]).id == zp;
            assert(retention_closed(g, dir, off, root, records, out0, out0.len() as int));
            assert(retention_upto(
                g,
                dir,
                off,
                root,
                records,
                zp,
                dir_adj(g, dir, zp as int).len() as int,
            ));
            assert(records[v as int].cost == records[zp as int].cost.saturating_add(
                dir_adj(g, dir, zp as int)[li].cost,
            ));
            assert(avail(g, off, v as int) && v != root);
            assert(paths_has(
                records[v as int].paths@,
                records[zp as int].paths@[qi]@.push(v),
            ));
            assert(records[zp as int].paths@[qi]@.push(v) =~= p);
        }
    }
}

/// Settling the popped frontier id `v` preserves the working-state
/// invariant, with the new output entry not yet relaxed.
proof fn lemma_settle_step(
    g: Seq<Node>,
    dir: Direction,
    off: Option<usize>,
    root: usize,
    full_path: bool,
    path_max: usize,
    records: Seq<Path>,
    settled0: Seq<bool>,
    frontier0: Seq<usize>,
    out0: Seq<Path>,
    frontier1: Seq<usize>,
    v: usize,
    vout: Path,
)
    requires
        engine_inv(
            g,
            dir,
            off,
            root,
            full_path,
            path_max,
            records,
            settled0,
            frontier0,
            out0,
            out0.len() as int,
        ),
        frontier0.contains(v),
        v < records.len(),
        frontier1.len() == frontier0.len() - 1,
        forall|j: int|
            0 <= j < frontier1.len() ==> frontier0.contains(#[trigger] frontier1[j])
                && frontier1[j] != v,
        forall|i: int, j: int| 0 <= i < j < frontier1.len() ==> frontier1[i] != frontier1[j],
        forall|e: usize|
            frontier0.contains(e) && e != v ==> #[trigger] frontier1.contains(e),
        forall|j: int|
            0 <= j < frontier0.len() && frontier0[j] != v ==> key_le(
                records,
                v as int,
                #[trigger] frontier0[j] as int,
            ),
        path_like(records[v as int], vout),
        (positive_costs(g, dir) && avail(g, off, root as int)) ==> forall|
            cost: u32,
            p: Seq<usize>,
        |
            #[trigger] path_ok(g, dir, off, root, v, cost, p) ==> records[v as int].cost
                <= cost,
        retains_all(g, dir, off, root, full_path, path_max) ==> forall|
            cost: u32,
            p: Seq<usize>,
        |
            #[trigger] path_ok(g, dir, off, root, v, cost, p) && cost == records[v as int].cost
                && cost < u32::MAX ==> paths_has(records[v as int].paths@, p),
    ensures
        engine_inv(
            g,
            dir,
            off,
            root,
            full_path,
            path_max,
            records,
            settled0.update(v as int, true),
            frontier1,
            out0.push(vout),
            out0.len() as int,
        ),
        !settled0[v as int],
        vout.id == v,
        vout.cost == records[v as int].cost,
        out0.len() == 0 ==> v == root,
{
    let n = g.len();
    let settled1 = settled0.update(v as int, true);
    let out1 = out0.push(vout);
    // a frontier index for v lets the frontier clauses speak about v
    let jv = choose|j: int| 0 <= j < frontier0.len() && frontier0[j] == v;
    assert(records[v as int].registered && !settled0[v as int]);
    if out0.len() == 0 {
        assert(frontier0[0] == v);
    }
    lemma_path_like_entry_ok(g, dir, off, root, path_max, records[v as int], vout);
    // output entry properties
    assert(out_entry_ok(g, dir, off, root, full_path, path_max, vout)) by {
        if v != root {
            assert(records[v as int].registered);
        }
    }
    assert forall|k: int| 0 <= k < out1.len() implies out_entry_ok(
        g,
        dir,
        off,
        root,
        full_path,
        path_max,
        #[trigger] out1[k],
    ) by {
        if k < out0.len() {
            assert(out1[k] == out0[k]);
        }
    }
    assert forall|k: int| 0 <= k < out1.len() implies (#[trigger] out1[k]).id < n
        && settled1[out1[k].id as int] by {
        if k < out0.len() {
            assert(out1[k] == out0[k]);
            assert(settled0[out0[k].id as int]);
        }
    }
    assert forall|i: int| 0 <= i < n && #[trigger] settled1[i] implies has_id(
        out1,
        i as usize,
    ) by {
        if i == v as int {
            assert(out1[out0.len() as int].id == i as usize);
        } else {
            assert(settled0[i]);
            let k = choose|k: int| 0 <= k < out0.len() && (#[trigger] out0[k]).id == i as usize;
            assert(out1[k].id == i as usize);
        }
    }
    assert(ids_unique(out1)) by {
        assert forall|i: int, j: int| 0 <= i < j < out1.len() implies (#[trigger] out1[i]).id
            != (#[trigger] out1[j]).id by {
            if j < out0.len() {
                assert(out1[i] == out0[i] && out1[j] == out0[j]);
            } else {
                assert(out1[i] == out0[i]);
                assert(settled0[out0[i].id as int]);
            }
        }
    }
    assert(costs_monotone(out1)) by {
        assert forall|i: int, j: int| 0 <= i <= j < out1.len() implies #[trigger] out1[i].cost
            <= #[trigger] out1[j].cost by {
            if j < out0.len() {
                assert(out1[i] == out0[i] && out1[j] == out0[j]);
            } else if i < out0.len() {
                assert(out1[i] == out0[i]);
                assert(out0[i].cost <= out0[out0.len() - 1].cost);
                assert(records[v as int].cost >= out0[out0.len() - 1].cost);
            }
        }
    }
    assert forall|i: int|
        0 <= i < n && (#[trigger] records[i]).registered && !settled1[i] implies frontier1
        .contains(i as usize) by {
        assert(!settled0[i]);
        assert(frontier0.contains(i as usize));
        assert(i != v as int);
    }
    if out1.len() > 0 {
        assert forall|j: int| 0 <= j < frontier1.len() implies records[#[trigger] frontier1[j] as int].cost
            >= out1[out1.len() - 1].cost by {
            let f = frontier1[j];
            assert(frontier0.contains(f));
            let jf = choose|j2: int| 0 <= j2 < frontier0.len() && frontier0[j2] == f;
            assert(key_le(records, v as int, f as int));
        }
    }
    assert forall|k: int|
        0 <= k < out1.len() implies records[(#[trigger] out1[k]).id as int].cost == out1[k].cost by {
        if k < out0.len() {
            assert(out1[k] == out0[k]);
        }
    }
    if positive_costs(g, dir) && avail(g, off, root as int) {
        assert forall|k: int, cost: u32, p: Seq<usize>|
            0 <= k < out1.len() && #[trigger] path_ok(g, dir, off, root, out1[k].id, cost, p)
            implies out1[k].cost <= cost by {
            if k < out0.len() {
                assert(out1[k] == out0[k]);
                assert(path_ok(g, dir, off, root, out0[k].id, cost, p));
            } else {
                assert(out1[k].id == v);
                assert(records[v as int].cost <= cost);
            }
        }
        assert(table_costs_minimal(g, dir, off, root, out1));
    }
    assert(closure_upto(g, dir, off, root, records, out1, out0.len() as int)) by {
        assert forall|k: int|
            0 <= k < out1.len() && k < out0.len() && avail(g, off, (#[trigger] out1[k]).id as int)
            implies entry_closed_upto(
            g,
            dir,
            off,
            root,
            records,
            out1[k].id,
            dir_adj(g, dir, out1[k].id as int).len() as int,
        ) by {
            assert(out1[k] == out0[k]);
        }
    }
    assert forall|k: int| 0 <= k < out1.len() implies path_like(
        records[(#[trigger] out1[k]).id as int],
        out1[k],
    ) by {
        if k < out0.len() {
            assert(out1[k] == out0[k]);
        }
    }
    if retains_all(g, dir, off, root, full_path, path_max) {
        assert(retention_closed(g, dir, off, root, records, out1, out0.len() as int)) by {
            assert forall|k: int|
                0 <= k < out1.len() && k < out0.len() && avail(
                    g,
                    off,
                    (#[trigger] out1[k]).id as int,
                ) implies retention_upto(
                g,
                dir,
                off,
                root,
                records,
                out1[k].id,
                dir_adj(g, dir, out1[k].id as int).len() as int,
            ) by {
                assert(out1[k] == out0[k]);
            }
        }
        assert forall|z: usize, cost: u32, p: Seq<usize>|
            z < g.len() && settled1[z as int] && #[trigger] path_ok(g, dir, off, root, z, cost, p)
                && cost == records[z as int].cost && cost < u32::MAX implies paths_has(
            records[z as int].paths@,
            p,
        ) by {
            if z != v {
                assert(settled0[z as int]);
            }
        }
        assert(settled_paths_complete(g, dir, off, root, records, settled1));
    }
}

/// Writing back the relaxed record of `c` (and registering it when it is
/// new) preserves the working-state invariant and advances the relaxation
/// of `v` by one link.
proof fn lemma_relax_step(
    g: Seq<Node>,
    dir: Direction,
    off: Option<usize>,
    root: usize,
    full_path: bool,
    path_max: usize,
    records0: Seq<Path>,
    settled: Seq<bool>,
    frontier0: Seq<usize>,
    out: Seq<Path>,
    v: usize,
    k: int,
    c: usize,
    crec: Path,
    registered_new: bool,
)
    requires
        engine_inv(
            g,
            dir,
            off,
            root,
            full_path,
            path_max,
            records0,
            settled,
            frontier0,
            out,
            out.len() - 1,
        ),
        out.len() >= 1,
        out[out.len() - 1].id == v,
        settled[v as int],
        avail(g, off, v as int),
        0 <= k < dir_adj(g, dir, v as int).len(),
        c == link_peer(dir_adj(g, dir, v as int)[k], dir),
        c != root,
        avail(g, off, c as int),
        !settled[c as int],
        entry_closed_upto(g, dir, off, root, records0, v, k),
        retains_all(g, dir, off, root, full_path, path_max) ==> retention_upto(
            g,
            dir,
            off,
            root,
            records0,
            v,
            k,
        ),
        crec.id == c,
        crec.registered,
        registered_new == !records0[c as int].registered,
        crec.cost >= out[out.len() - 1].cost,
        crec.cost <= records0[v as int].cost.saturating_add(dir_adj(g, dir, v as int)[k].cost),
        positive_costs(g, dir) ==> crec.cost >= 1,
        positive_costs(g, dir) ==> (records0[c as int].registered ==> crec.cost <= records0[
            c as int
        ].cost),
        entry_ok(g, dir, off, root, path_max, crec),
        rec_nexthops_tight(g, dir, off, root, crec),
        entry_pens_settled(g.len() as int, settled, crec),
        (positive_costs(g, dir) && distinct_links(g, dir)) ==> (crec.cost < u32::MAX
            ==> entry_paths_distinct(crec)),
        full_path ==> crec.paths@.len() >= 1,
        !full_path ==> crec.nexthops@.len() >= 1,
        retains_all(g, dir, off, root, full_path, path_max) ==> (records0[c as int].cost
            == crec.cost ==> records0[c as int].paths@.len() <= crec.paths@.len() && forall|
            pi: int,
        |
            0 <= pi < records0[c as int].paths@.len() ==> (#[trigger] crec.paths@[pi])@
                == records0[c as int].paths@[pi]@),
        retains_all(g, dir, off, root, full_path, path_max) ==> forall|pi: int|
            0 <= pi < records0[v as int].paths@.len() ==> paths_has(
                crec.paths@,
                (#[trigger] records0[v as int].paths@[pi])@.push(c),
            ),
    ensures
        engine_inv(
            g,
            dir,
            off,
            root,
            full_path,
            path_max,
            records0.update(c as int, crec),
            settled,
            if registered_new {
                frontier0.push(c)
            } else {
                frontier0
            },
            out,
            out.len() - 1,
        ),
        entry_closed_upto(g, dir, off, root, records0.update(c as int, crec), v, k + 1),
        retains_all(g, dir, off, root, full_path, path_max) ==> retention_upto(
            g,
            dir,
            off,
            root,
            records0.update(c as int, crec),
            v,
            k + 1,
        ),
{
    let n = g.len();
    let records1 = records0.update(c as int, crec);
    let frontier1 = if registered_new {
        frontier0.push(c)
    } else {
        frontier0
    };
    assert(0 <= c < n);
    if registered_new {
        assert forall|j: int| 0 <= j < frontier0.len() implies frontier0[j] != c by {
            assert(records0[#[trigger] frontier0[j] as int].registered);
        }
    }
    assert forall|i: int|
        0 <= i < n && (#[trigger] records1[i]).registered && !settled[i] implies frontier1
        .contains(i as usize) by {
        if i == c as int {
            if registered_new {
                assert(frontier1[frontier0.len() as int] == c);
            } else {
                assert(records0[i].registered);
                assert(frontier0.contains(i as usize));
            }
        } else {
            assert(records0[i].registered);
            assert(frontier0.contains(i as usize));
            let j = choose|j: int| 0 <= j < frontier0.len() && frontier0[j] == i as usize;
            assert(frontier1[j] == i as usize);
        }
    }
    assert forall|j: int| 0 <= j < frontier1.len() implies records1[#[trigger] frontier1[j] as int]
        .registered && !settled[frontier1[j] as int] by {
        if j < frontier0.len() {
            assert(records0[frontier0[j] as int].registered);
        }
    }
    assert(closure_upto(g, dir, off, root, records1, out, out.len() - 1)) by {
        assert forall|k2: int|
            0 <= k2 < out.len() && k2 < out.len() - 1 && avail(
                g,
                off,
                (#[trigger] out[k2]).id as int,
            ) implies entry_closed_upto(
            g,
            dir,
            off,
            root,
            records1,
            out[k2].id,
            dir_adj(g, dir, out[k2].id as int).len() as int,
        ) by {
            assert(entry_closed_upto(
                g,
                dir,
                off,
                root,
                records0,
                out[k2].id,
                dir_adj(g, dir, out[k2].id as int).len() as int,
            ));
            assert forall|li: int|
                0 <= li < dir_adj(g, dir, out[k2].id as int).len() implies {
                let peer = link_peer(#[trigger] dir_adj(g, dir, out[k2].id as int)[li], dir);
                (avail(g, off, peer as int) && peer != root) ==> records1[peer as int].registered
                    && (positive_costs(g, dir) ==> records1[peer as int].cost <= records1[out[
                    k2
                ].id as int].cost.saturating_add(dir_adj(g, dir, out[k2].id as int)[li].cost))
            } by {
                let peer = link_peer(dir_adj(g, dir, out[k2].id as int)[li], dir);
                if avail(g, off, peer as int) && peer != root {
                    assert(records0[peer as int].registered);
                    assert(out[k2].id != c) by {
                        assert(settled[out[k2].id as int]);
                    }
                    if positive_costs(g, dir) {
                        if peer == c {
                            assert(records1[peer as int].cost == crec.cost);
                            assert(crec.cost <= records0[c as int].cost);
                        }
                    }
                }
            }
        }
    }
    assert(entry_closed_upto(g, dir, off, root, records1, v, k + 1)) by {
        assert(v != c) by {
            assert(settled[v as int]);
        }
        assert forall|li: int|
            0 <= li < k + 1 && li < dir_adj(g, dir, v as int).len() implies {
            let peer = link_peer(#[trigger] dir_adj(g, dir, v as int)[li], dir);
            (avail(g, off, peer as int) && peer != root) ==> records1[peer as int].registered
                && (positive_costs(g, dir) ==> records1[peer as int].cost <= records1[v as int]
                .cost.saturating_add(dir_adj(g, dir, v as int)[li].cost))
        } by {
            let peer = link_peer(dir_adj(g, dir, v as int)[li], dir);
            if avail(g, off, peer as int) && peer != root {
                if li < k {
                    assert(records0[peer as int].registered);
                    if positive_costs(g, dir) && peer == c {
                        assert(records1[peer as int].cost == crec.cost);
                        assert(crec.cost <= records0[c as int].cost);
                    }
                } else {
                    assert(peer == c);
                    assert(records1[c as int].cost == crec.cost);
                    assert(records1[v as int].cost == records0[v as int].cost);
                }
            }
        }
    }
    assert forall|k2: int| 0 <= k2 < out.len() implies path_like(
        records1[(#[trigger] out[k2]).id as int],
        out[k2],
    ) by {
        assert(settled[out[k2].id as int]);
        assert(out[k2].id != c);
    }
    if retains_all(g, dir, off, root, full_path, path_max) {
        assert forall|z: usize, cost: u32, p: Seq<usize>|
            z < g.len() && settled[z as int] && #[trigger] path_ok(g, dir, off, root, z, cost, p)
                && cost == records1[z as int].cost && cost < u32::MAX implies paths_has(
            records1[z as int].paths@,
            p,
        ) by {
            assert(z as int != c as int);
            assert(records1[z as int] == records0[z as int]);
        }
        assert(settled_paths_complete(g, dir, off, root, records1, settled));
        assert(retention_closed(g, dir, off, root, records1, out, out.len() - 1)) by {
            assert forall|k2: int|
                0 <= k2 < out.len() && k2 < out.len() - 1 && avail(
                    g,
                    off,
                    (#[trigger] out[k2]).id as int,
                ) implies retention_upto(
                g,
                dir,
                off,
                root,
                records1,
                out[k2].id,
                dir_adj(g, dir, out[k2].id as int).len() as int,
            ) by {
                let u = out[k2].id;
                assert(settled[u as int]);
                assert(u != c);
                assert(records1[u as int] == records0[u as int]);
                assert(retention_upto(
                    g,
                    dir,
                    off,
                    root,
                    records0,
                    u,
                    dir_adj(g, dir, u as int).len() as int,
                ));
                assert(entry_closed_upto(
                    g,
                    dir,
                    off,
                    root,
                    records0,
                    u,
                    dir_adj(g, dir, u as int).len() as int,
                ));
                assert forall|li: int|
                    0 <= li < dir_adj(g, dir, u as int).len() implies {
                    let peer = link_peer(#[trigger] dir_adj(g, dir, u as int)[li], dir);
                    let step = records1[u as int].cost.saturating_add(
                        dir_adj(g, dir, u as int)[li].cost,
                    );
                    (avail(g, off, peer as int) && peer != root && records1[peer as int].cost
                        == step && step < u32::MAX) ==> forall|pi: int|
                        0 <= pi < records1[u as int].paths@.len() ==> paths_has(
                            records1[peer as int].paths@,
                            (#[trigger] records1[u as int].paths@[pi])@.push(peer),
                        )
                } by {
                    let peer = link_peer(dir_adj(g, dir, u as int)[li], dir);
                    let step = records1[u as int].cost.saturating_add(
                        dir_adj(g, dir, u as int)[li].cost,
                    );
                    if avail(g, off, peer as int) && peer != root && records1[peer as int].cost
                        == step && step < u32::MAX {
                        if peer == c {
                            assert(records0[peer as int].registered);
                            assert(records0[c as int].cost <= step);
                            assert(crec.cost <= records0[c as int].cost);
                            assert(crec.cost == records0[c as int].cost);
                            assert forall|pi: int|
                                0 <= pi < records1[u as int].paths@.len() implies paths_has(
                                records1[peer as int].paths@,
                                (#[trigger] records1[u as int].paths@[pi])@.push(peer),
                            ) by {
                                assert(paths_has(
                                    records0[c as int].paths@,
                                    records0[u as int].paths@[pi]@.push(peer),
                                ));
                                let qi = choose|qi: int|
                                    0 <= qi < records0[c as int].paths@.len() && (
                                    #[trigger] records0[c as int].paths@[qi])@ == records0[
                                        u as int
                                    ].paths@[pi]@.push(peer);
                                assert(crec.paths@[qi]@ == records0[c as int].paths@[qi]@);
                            }
                        }
                    }
                }
            }
        }
        assert(retention_upto(
            g,
            dir,
            off,
            root,
            records1,
            v,
            k + 1,
        )) by {
            assert(records1[v as int] == records0[v as int]);
            assert forall|li: int|
                0 <= li < k + 1 && li < dir_adj(g, dir, v as int).len() implies {
                let peer = link_peer(#[trigger] dir_adj(g, dir, v as int)[li], dir);
                let step = records1[v as int].cost.saturating_add(
                    dir_adj(g, dir, v as int)[li].cost,
                );
                (avail(g, off, peer as int) && peer != root && records1[peer as int].cost == step
                    && step < u32::MAX) ==> forall|pi: int|
                    0 <= pi < records1[v as int].paths@.len() ==> paths_has(
                        records1[peer as int].paths@,
                        (#[trigger] records1[v as int].paths@[pi])@.push(peer),
                    )
            } by {
                let peer = link_peer(dir_adj(g, dir, v as int)[li], dir);
                let step = records1[v as int].cost.saturating_add(
                    dir_adj(g, dir, v as int)[li].cost,
                );
                if avail(g, off, peer as int) && peer != root && records1[peer as int].cost
                    == step && step < u32::MAX {
                    if li == k {
                        assert(peer == c);
                        assert(records1[c as int].cost == crec.cost);
                        assert forall|pi: int|
                            0 <= pi < records1[v as int].paths@.len() implies paths_has(
                            records1[peer as int].paths@,
                            (#[trigger] records1[v as int].paths@[pi])@.push(peer),
                        ) by {
                            assert(paths_has(
                                crec.paths@,
                                records0[v as int].paths@[pi]@.push(c),
                            ));
                        }
                    } else {
                        if peer == c {
                            assert(records0[peer as int].registered);
                            assert(records0[c as int].cost <= step);
                            assert(crec.cost <= records0[c as int].cost);
                            assert(crec.cost == records0[c as int].cost);
                            assert forall|pi: int|
                                0 <= pi < records1[v as int].paths@.len() implies paths_has(
                                records1[peer as int].paths@,
                                (#[trigger] records1[v as int].paths@[pi])@.push(peer),
                            ) by {
                                assert(paths_has(
                                    records0[c as int].paths@,
                                    records0[v as int].paths@[pi]@.push(peer),
                                ));
                                let qi = choose|qi: int|
                                    0 <= qi < records0[c as int].paths@.len() && (
                                    #[trigger] records0[c as int].paths@[qi])@ == records0[
                                        v as int
                                    ].paths@[pi]@.push(peer);
                                assert(crec.paths@[qi]@ == records0[c as int].paths@[qi]@);
                            }
                        }
                    }
                }
            }
        }
    }
    if out.len() > 0 {
        assert forall|j: int| 0 <= j < frontier1.len() implies records1[#[trigger] frontier1[j] as int]
            .cost >= out[out.len() - 1].cost by {
            let f = frontier1[j];
            if f == c {
            } else {
                assert(j < frontier0.len() && frontier0[j] == f);
                assert(records0[f as int].cost >= out[out.len() - 1].cost);
            }
        }
    }
}

/// Runs the traversal from `root` and returns the settled records in
/// settle order: ascending `(cost, id)`.  Every returned record holds
/// only genuine routes of its own cost, the retention cap is respected,
/// the returned costs never decrease, and the result is closed under one
/// traversal step, so it covers everything reachable from the root.
/// `off`, when set, names a node whose failure is simulated: it is
/// treated exactly like a disabled node.
#[verifier::rlimit(100)]
pub fn spf_run(
    g: &Graph,
    root: usize,
    full_path: bool,
    path_max: usize,
    dir: Direction,
    off: Option<usize>,
) -> (out: Vec<Path>)
    requires
        root < g@.len(),
    ensures
        out@.len() >= 1,
        out@[0].id == root,
        forall|k: int|
            0 <= k < out@.len() ==> out_entry_ok(
                g@,
                dir,
                off,
                root,
                full_path,
                path_max,
                #[trigger] out@[k],
            ),
        ids_unique(out@),
        costs_monotone(out@),
        table_closed(g@, dir, off, root, out@),
        has_id(out@, root),
        !avail(g@, off, root as int) ==> out@.len() == 1,
        (positive_costs(g@, dir) && avail(g@, off, root as int)) ==> table_costs_minimal(
            g@,
            dir,
            off,
            root,
            out@,
        ) && table_complete(g@, dir, off, root, out@),
        retains_all(g@, dir, off, root, full_path, path_max) ==> forall|k: int|
            0 <= k < out@.len() ==> entry_paths_complete(g@, dir, off, root, #[trigger] out@[k]),
        forall|k: int|
            0 <= k < out@.len() ==> rec_nexthops_tight(g@, dir, off, root, #[trigger] out@[k]),
        (positive_costs(g@, dir) && distinct_links(g@, dir)) ==> forall|k: int|
            0 <= k < out@.len() && (#[trigger] out@[k]).cost < u32::MAX
                ==> entry_paths_distinct(out@[k]),
{
    let n = g.len();
    let mut records: Vec<Path> = Vec::new();
    let mut i: usize = 0;
    while i < n
        invariant
            i <= n,
            records@.len() == i,
            forall|j: int|
                0 <= j < i ==> (#[trigger] records@[j]).id == j && records@[j].cost == 0
                    && records@[j].paths@.len() == 0 && records@[j].nexthops@.len() == 0
                    && !records@[j].registered,
        decreases n - i,
    {
        records.push(Path::new(i));
        i = i + 1;
    }
    let mut settled: Vec<bool> = Vec::new();
    let mut s: usize = 0;
    while s < n
        invariant
            s <= n,
            settled@.len() == s,
            forall|j: int| 0 <= j < s ==> !(#[trigger] settled@[j]),
        decreases n - s,
    {
        settled.push(false);
        s = s + 1;
    }
    let mut rootrec = Path::new(root);
    let mut rp: Vec<usize> = Vec::new();
    rp.push(root);
    proof {
        assert(rp@ =~= seq![root]);
    }
    rootrec.paths.push(rp);
    let mut rn: Vec<usize> = Vec::new();
    rn.push(root);
    proof {
        assert(rn@ =~= seq![root]);
    }
    rootrec.nexthops.push(rn);
    rootrec.registered = true;
    records.set(root, rootrec);
    let mut frontier: Vec<usize> = Vec::new();
    frontier.push(root);
    let mut out: Vec<Path> = Vec::new();
    proof {
        assert(root_entry_ok(root, records@[root as int]));
        assert forall|j: int| 0 <= j < n implies entry_ok(
            g@,
            dir,
            off,
            root,
            path_max,
            #[trigger] records@[j],
        ) by {
            if j != root {
                assert(records@[j].paths@.len() == 0);
            }
        }
        assert(frontier@[0] == root && frontier@.len() == 1);
        assert forall|i: int|
            0 <= i < n && (#[trigger] records@[i]).registered && !settled@[i] implies frontier@
            .contains(i as usize) by {
            assert(records@[root as int].registered);
            if i != root {
                assert(!records@[i].registered);
            } else {
                assert(frontier@[0] == i as usize);
            }
        }
        assert(engine_inv(
            g@,
            dir,
            off,
            root,
            full_path,
            path_max,
            records@,
            settled@,
            frontier@,
            out@,
            out@.len() as int,
        ));
    }
    while frontier.len() > 0
        invariant
            n == g@.len(),
            records@.len() == n,
            engine_inv(
                g@,
                dir,
                off,
                root,
                full_path,
                path_max,
                records@,
                settled@,
                frontier@,
                out@,
                out@.len() as int,
            ),
            !avail(g@, off, root as int) ==> (out@.len() == 0 || (out@.len() == 1
                && frontier@.len() == 0)),
        decreases n - count_true(settled@),
    {
        proof {
            lemma_count_true_le(settled@);
        }
        let ghost frontier0 = frontier@;
        let ghost settled0 = settled@;
        let ghost out0 = out@;
        let v = pop_min(&mut frontier, &records);
        proof {
            assert(!settled@[v as int]) by {
                let j = choose|j: int| 0 <= j < frontier0.len() && frontier0[j] == v;
            }
            lemma_count_true_update(settled@, v as int);
            lemma_count_true_le(settled@.update(v as int, true));
        }
        proof {
            if positive_costs(g@, dir) && avail(g@, off, root as int) {
                lemma_settle_min(
                    g@,
                    dir,
                    off,
                    root,
                    full_path,
                    path_max,
                    records@,
                    settled0,
                    frontier0,
                    out0,
                    v,
                );
            }
            if retains_all(g@, dir, off, root, full_path, path_max) {
                lemma_settle_retention(
                    g@,
                    dir,
                    off,
                    root,
                    full_path,
                    path_max,
                    records@,
                    settled0,
                    frontier0,
                    out0,
                    v,
                );
            }
        }
        settled.set(v, true);
        let vout = copy_path(&records[v]);
        out.push(vout);
        proof {
            lemma_settle_step(
                g@,
                dir,
                off,
                root,
                full_path,
                path_max,
                records@,
                settled0,
                frontier0,
                out0,
                frontier@,
                v,
                out@[out@.len() - 1],
            );
        }
        let relax_off = match off {
            Some(x) => x == v,
            None => false,
        };
        if !relax_off && !g[v].is_disabled {
            assert(avail(g@, off, v as int));
            let vrec = copy_path(&records[v]);
            proof {
                lemma_path_like_entry_ok(
                    g@,
                    dir,
                    off,
                    root,
                    path_max,
                    records@[v as int],
                    vrec,
                );
                assert(out_entry_ok(g@, dir, off, root, full_path, path_max, vrec)) by {
                    assert(records@[v as int].registered);
                }
                lemma_path_like_tight(g@, dir, off, root, records@[v as int], vrec);
            }
            let vcost = vrec.cost;
            let deg = adj_len(g, v, dir);
            proof {
                assert(v_extensions_linked(g@, dir, records@, settled@, v, 0)) by {
                    assert forall|c2: int, pi: int|
                        0 <= c2 < records@.len() && !settled@[c2] && 0 <= pi < records@[
                            c2
                        ].paths@.len() && (#[trigger] records@[c2].paths@[pi])@.len() >= 2
                        implies pen_of(records@[c2].paths@[pi]@) != v as int by {
                        assert(entry_pens_settled(n as int, settled0, records@[c2]));
                        assert(settled0[pen_of(records@[c2].paths@[pi]@)]);
                        assert(!settled0[v as int]);
                    }
                }
            }
            let mut k: usize = 0;
            while k < deg
                invariant
                    n == g@.len(),
                    records@.len() == n,
                    root < n,
                    v < n,
                    k <= deg,
                    deg == dir_adj(g@, dir, v as int).len(),
                    avail(g@, off, v as int),
                    settled@[v as int],
                    out@.len() >= 1,
                    out@[out@.len() - 1].id == v,
                    vrec.id == v,
                    vrec.cost == vcost,
                    vcost == out@[out@.len() - 1].cost,
                    out_entry_ok(g@, dir, off, root, full_path, path_max, vrec),
                    path_like(records@[v as int], vrec),
                    rec_nexthops_tight(g@, dir, off, root, vrec),
                    engine_inv(
                        g@,
                        dir,
                        off,
                        root,
                        full_path,
                        path_max,
                        records@,
                        settled@,
                        frontier@,
                        out@,
                        out@.len() - 1,
                    ),
                    entry_closed_upto(g@, dir, off, root, records@, v, k as int),
                    v_extensions_linked(g@, dir, records@, settled@, v, k as int),
                    retains_all(g@, dir, off, root, full_path, path_max) ==> retention_upto(
                        g@,
                        dir,
                        off,
                        root,
                        records@,
                        v,
                        k as int,
                    ),
                decreases deg - k,
            {
                let l = adj_link(g, v, dir, k);
                let c = peer_of(l, dir);
                let c_off = match off {
                    Some(x) => x == c,
                    None => false,
                };
                if c < n && c != root && !g[c].is_disabled && !c_off {
                    assert(avail(g@, off, c as int));
                    if !settled[c] {
                        let cand = vcost.saturating_add(l.cost);
                        assert(cand >= vcost);
                        let ccost0 = records[c].cost;
                        if ccost0 != 0 && ccost0 < cand {
                            // an already better route; this link changes nothing
                            proof {
                                assert(records@[c as int].registered);
                                assert(entry_closed_upto(
                                    g@,
                                    dir,
                                    off,
                                    root,
                                    records@,
                                    v,
                                    k + 1,
                                ));
                            }
                        } else {
                            let ghost records0 = records@;
                            let ghost frontier_b = frontier@;
                            let mut crec = copy_path(&records[c]);
                            let ghost crec0 = crec;
                            proof {
                                lemma_path_like_entry_ok(
                                    g@,
                                    dir,
                                    off,
                                    root,
                                    path_max,
                                    records@[c as int],
                                    crec,
                                );
                            }
                            let reg0 = crec.registered;
                            let newbest = crec.cost == 0 || crec.cost > cand;
                            if newbest {
                                crec.cost = cand;
                                crec.paths.clear();
                                crec.nexthops.clear();
                            }
                            proof {
                                if !newbest {
                                    assert(records0[c as int].cost != 0);
                                    assert(records0[c as int].registered);
                                    assert(reg0);
                                    assert(crec == crec0);
                                    lemma_path_like_tight(
                                        g@,
                                        dir,
                                        off,
                                        root,
                                        records0[c as int],
                                        crec,
                                    );
                                } else {
                                    assert(crec.nexthops@.len() == 0);
                                }
                                assert(crec.cost == cand);
                                assert(rec_nexthops_tight(g@, dir, off, root, crec));
                            }
                            let ghost pre_ext = crec.paths@;
                            proof {
                                assert(entry_pens_settled(
                                    n as int,
                                    settled@,
                                    records@[c as int],
                                ));
                                if !newbest {
                                    assert(crec == crec0);
                                    lemma_path_like_pens(
                                        n as int,
                                        settled@,
                                        records0[c as int],
                                        crec,
                                    );
                                    assert forall|qi: int| 0 <= qi < pre_ext.len() implies (
                                    #[trigger] pre_ext[qi])@ == records@[c as int].paths@[
                                        qi
                                    ]@ by {
                                        assert(pre_ext[qi] == crec0.paths@[qi]);
                                    }
                                    if positive_costs(g@, dir) && distinct_links(g@, dir)
                                        && cand < u32::MAX {
                                        assert(records0[c as int].cost == cand);
                                        assert(entry_paths_distinct(records0[c as int]));
                                        lemma_path_like_distinct(records0[c as int], crec);
                                    }
                                } else {
                                    assert(crec.paths@.len() == 0);
                                }
                                if positive_costs(g@, dir) && distinct_links(g@, dir) && cand
                                    < u32::MAX {
                                    assert(records@[v as int].cost < u32::MAX) by {
                                        assert(vcost <= cand);
                                    }
                                    assert(entry_paths_distinct(records@[v as int]));
                                    lemma_path_like_distinct(records@[v as int], vrec);
                                }
                            }
                            if v == root {
                                proof {
                                    assert(vcost == 0) by {
                                        assert(root_entry_ok(root, records@[root as int]));
                                        assert(vrec.cost == records@[root as int].cost);
                                    }
                                }
                                if full_path {
                                    if path_max == 0 || crec.paths.len() < path_max {
                                        let mut np: Vec<usize> = Vec::new();
                                        np.push(root);
                                        np.push(c);
                                        proof {
                                            assert(np@ =~= seq![root].push(c));
                                            assert(path_ok(
                                                g@,
                                                dir,
                                                off,
                                                root,
                                                root,
                                                0,
                                                seq![root],
                                            ));
                                            lemma_extend_path(
                                                g@,
                                                dir,
                                                off,
                                                root,
                                                root,
                                                c,
                                                0,
                                                l.cost,
                                                cand,
                                                seq![root],
                                                np@,
                                            );
                                        }
                                        crec.paths.push(np);
                                        proof {
                                            assert(crec.paths@[crec.paths@.len() - 1]@
                                                == seq![root].push(c));
                                            assert(np@.len() == 2 && np@[0] == root);
                                            assert forall|pi2: int|
                                                0 <= pi2 < crec.paths@.len() && (
                                            #[trigger] crec.paths@[pi2])@.len() >= 2 implies 0
                                                <= pen_of(crec.paths@[pi2]@) < n as int
                                                && settled@[pen_of(crec.paths@[pi2]@)] by {
                                                if pi2 < pre_ext.len() {
                                                    assert(crec.paths@[pi2] == pre_ext[pi2]);
                                                    assert(entry_pens_settled(
                                                        n as int,
                                                        settled@,
                                                        records@[c as int],
                                                    ));
                                                    assert(pre_ext[pi2]@ == records@[
                                                        c as int
                                                    ].paths@[pi2]@);
                                                } else {
                                                    assert(crec.paths@[pi2]@ == np@);
                                                    assert(pen_of(np@) == root as int);
                                                }
                                            }
                                            assert(entry_pens_settled(
                                                n as int,
                                                settled@,
                                                crec,
                                            ));
                                            if positive_costs(g@, dir) && distinct_links(
                                                g@,
                                                dir,
                                            ) && cand < u32::MAX {
                                                assert forall|qi: int|
                                                    0 <= qi < pre_ext.len() implies (
                                                #[trigger] crec.paths@[qi])@ != np@ by {
                                                    assert(crec.paths@[qi] == pre_ext[qi]);
                                                    let o = pre_ext[qi]@;
                                                    assert(o == records@[c as int].paths@[
                                                        qi
                                                    ]@);
                                                    assert(o.len() >= 2) by {
                                                        assert(entry_ok(
                                                            g@,
                                                            dir,
                                                            off,
                                                            root,
                                                            path_max,
                                                            records@[c as int],
                                                        ));
                                                    }
                                                    if o.len() == 2 {
                                                        assert(o[0] == root) by {
                                                            assert(path_ok(
                                                                g@,
                                                                dir,
                                                                off,
                                                                root,
                                                                c,
                                                                records@[c as int].cost,
                                                                records@[c as int].paths@[
                                                                    qi
                                                                ]@,
                                                            ));
                                                        }
                                                        assert(pen_of(o) == root as int);
                                                        lemma_no_reextension(
                                                            g@,
                                                            dir,
                                                            records@,
                                                            settled@,
                                                            v,
                                                            c,
                                                            k as int,
                                                            cand,
                                                            qi,
                                                        );
                                                        assert(false);
                                                    }
                                                }
                                                assert(entry_paths_distinct(crec)) by {
                                                    assert forall|a: int, b: int|
                                                        0 <= a < b < crec.paths@.len() implies (
                                                    #[trigger] crec.paths@[a])@ != (
                                                    #[trigger] crec.paths@[b])@ by {
                                                        if b < pre_ext.len() {
                                                            assert(crec.paths@[a]
                                                                == pre_ext[a] && crec.paths@[
                                                                b
                                                            ] == pre_ext[b]);
                                                            assert(entry_paths_distinct(
                                                                records@[c as int],
                                                            ));
                                                            assert(crec.paths@[a]@
                                                                == records@[c as int].paths@[
                                                                a
                                                            ]@ && crec.paths@[b]@ == records@[
                                                                c as int
                                                            ].paths@[b]@);
                                                        } else {
                                                            assert(crec.paths@[b]@ == np@);
                                                        }
                                                    }
                                                }
                                            }
                                        }
                                    }
                                } else {
                                    if path_max == 0 || crec.nexthops.len() < path_max {
                                        let mut nh: Vec<usize> = Vec::new();
                                        nh.push(root);
                                        nh.push(c);
                                        proof {
                                            assert(nh@ =~= seq![root, c]);
                                            assert(linked_w(
                                                g@,
                                                dir,
                                                root as int,
                                                c as int,
                                                l.cost,
                                            ));
                                            assert(linked(g@, dir, root as int, c as int));
                                            assert(nexthop_ok(g@, dir, off, root, nh@));
                                            assert(path_ok(
                                                g@,
                                                dir,
                                                off,
                                                root,
                                                root,
                                                0,
                                                seq![root],
                                            ));
                                            lemma_extend_path(
                                                g@,
                                                dir,
                                                off,
                                                root,
                                                root,
                                                c,
                                                0,
                                                l.cost,
                                                cand,
                                                seq![root],
                                                seq![root].push(c),
                                            );
                                        }
                                        if !contains_idlist(&crec.nexthops, &nh) {
                                            let ghost nh_before = crec.nexthops@;
                                            crec.nexthops.push(nh);
                                            proof {
                                                assert forall|ni: int|
                                                    0 <= ni < crec.nexthops@.len() && (
                                                #[trigger] crec.nexthops@[ni])@.len() == 2
                                                    implies exists|p: Seq<usize>|
                                                    #![auto]
                                                    path_ok(
                                                        g@,
                                                        dir,
                                                        off,
                                                        root,
                                                        crec.id,
                                                        crec.cost,
                                                        p,
                                                    ) && p.len() >= 2 && p[1]
                                                        == crec.nexthops@[ni]@[1] by {
                                                    if ni < nh_before.len() {
                                                        assert(crec.nexthops@[ni]
                                                            == nh_before[ni]);
                                                        let p = choose|p: Seq<usize>|
                                                            #![auto]
                                                            path_ok(
                                                                g@,
                                                                dir,
                                                                off,
                                                                root,
                                                                crec.id,
                                                                crec.cost,
                                                                p,
                                                            ) && p.len() >= 2 && p[1]
                                                                == nh_before[ni]@[1];
                                                        assert(p[1] == crec.nexthops@[ni]@[1]);
                                                    } else {
                                                        let p = seq![root].push(c);
                                                        assert(path_ok(
                                                            g@,
                                                            dir,
                                                            off,
                                                            root,
                                                            crec.id,
                                                            crec.cost,
                                                            p,
                                                        ) && p.len() >= 2 && p[1]
                                                            == crec.nexthops@[ni]@[1]);
                                                    }
                                                }
                                                assert(rec_nexthops_tight(
                                                    g@,
                                                    dir,
                                                    off,
                                                    root,
                                                    crec,
                                                ));
                                            }
                                        }
                                    }
                                }
                            } else {
                                if full_path {
                                    let mut pi: usize = 0;
                                    while pi < vrec.paths.len()
                                        invariant
                                            pi <= vrec.paths@.len(),
                                            vrec.paths@.len() >= 1,
                                            vrec.id == v,
                                            v != root,
                                            c != root,
                                            n == g@.len(),
                                            c < n,
                                            v < n,
                                            records@ == records0,
                                            records@.len() == n,
                                            settled@[v as int],
                                            !settled@[c as int],
                                            vcost == records@[v as int].cost,
                                            k < dir_adj(g@, dir, v as int).len(),
                                            l == dir_adj(g@, dir, v as int)[k as int],
                                            link_peer(l, dir) == c,
                                            v_extensions_linked(
                                                g@,
                                                dir,
                                                records@,
                                                settled@,
                                                v,
                                                k as int,
                                            ),
                                            entry_pens_settled(
                                                n as int,
                                                settled@,
                                                records@[c as int],
                                            ),
                                            (positive_costs(g@, dir) && distinct_links(g@, dir)
                                                && cand < u32::MAX) ==> entry_paths_distinct(
                                                vrec,
                                            ),
                                            pre_ext.len() == 0 || (records@[c as int].cost
                                                == cand && pre_ext.len() == records@[
                                                c as int
                                            ].paths@.len() && forall|qi: int|
                                                0 <= qi < pre_ext.len() ==> (
                                                #[trigger] pre_ext[qi])@ == records@[
                                                    c as int
                                                ].paths@[qi]@),
                                            forall|qi: int|
                                                pre_ext.len() <= qi < crec.paths@.len()
                                                    ==> exists|pj: int|
                                                    #![auto]
                                                    0 <= pj < pi && (#[trigger] crec.paths@[
                                                        qi
                                                    ])@ == vrec.paths@[pj]@.push(c),
                                            entry_pens_settled(n as int, settled@, crec),
                                            (positive_costs(g@, dir) && distinct_links(g@, dir)
                                                && cand < u32::MAX) ==> entry_paths_distinct(
                                                crec,
                                            ),
                                            avail(g@, off, c as int),
                                            linked_w(g@, dir, v as int, c as int, l.cost),
                                            cand == vcost.saturating_add(l.cost),
                                            forall|pj: int|
                                                0 <= pj < vrec.paths@.len() ==> path_ok(
                                                    g@,
                                                    dir,
                                                    off,
                                                    root,
                                                    v,
                                                    vcost,
                                                    (#[trigger] vrec.paths@[pj])@,
                                                ),
                                            crec.id == c,
                                            crec.cost == cand,
                                            crec.registered == reg0,
                                            forall|qi: int|
                                                0 <= qi < crec.paths@.len() ==> path_ok(
                                                    g@,
                                                    dir,
                                                    off,
                                                    root,
                                                    c,
                                                    cand,
                                                    (#[trigger] crec.paths@[qi])@,
                                                ) && crec.paths@[qi]@.len() >= 2,
                                            path_max > 0 ==> crec.paths@.len() <= path_max,
                                            crec.paths@.len() >= 1 || pi == 0,
                                            crec.paths@.len() >= pre_ext.len(),
                                            forall|qi: int|
                                                0 <= qi < pre_ext.len() ==> #[trigger] crec.paths@[qi]
                                                    == pre_ext[qi],
                                            path_max == 0 ==> forall|pj: int|
                                                0 <= pj < pi ==> paths_has(
                                                    crec.paths@,
                                                    (#[trigger] vrec.paths@[pj])@.push(c),
                                                ),
                                            forall|ni: int|
                                                0 <= ni < crec.nexthops@.len() ==> nexthop_ok(
                                                    g@,
                                                    dir,
                                                    off,
                                                    root,
                                                    (#[trigger] crec.nexthops@[ni])@,
                                                ) && crec.nexthops@[ni]@.len() == 2,
                                            path_max > 0 ==> crec.nexthops@.len() <= path_max,
                                            rec_nexthops_tight(g@, dir, off, root, crec),
                                        decreases vrec.paths@.len() - pi,
                                    {
                                        if path_max == 0 || crec.paths.len() < path_max {
                                            let ghost cp_before = crec.paths@;
                                            let ghost crec_pre = crec;
                                            let mut np = copy_ids(&vrec.paths[pi]);
                                            np.push(c);
                                            proof {
                                                lemma_extend_path(
                                                    g@,
                                                    dir,
                                                    off,
                                                    root,
                                                    v,
                                                    c,
                                                    vcost,
                                                    l.cost,
                                                    cand,
                                                    vrec.paths@[pi as int]@,
                                                    np@,
                                                );
                                            }
                                            crec.paths.push(np);
                                            proof {
                                                assert(rec_nexthops_tight(
                                                    g@,
                                                    dir,
                                                    off,
                                                    root,
                                                    crec,
                                                )) by {
                                                    assert forall|ni2: int|
                                                        0 <= ni2 < crec.nexthops@.len() && (
                                                    #[trigger] crec.nexthops@[ni2])@.len() == 2
                                                        implies exists|p: Seq<usize>|
                                                        #![auto]
                                                        path_ok(
                                                            g@,
                                                            dir,
                                                            off,
                                                            root,
                                                            crec.id,
                                                            crec.cost,
                                                            p,
                                                        ) && p.len() >= 2 && p[1]
                                                            == crec.nexthops@[ni2]@[1] by {
                                                        assert(crec.nexthops@[ni2]
                                                            == crec_pre.nexthops@[ni2]);
                                                        let p = choose|p: Seq<usize>|
                                                            #![auto]
                                                            path_ok(
                                                                g@,
                                                                dir,
                                                                off,
                                                                root,
                                                                crec_pre.id,
                                                                crec_pre.cost,
                                                                p,
                                                            ) && p.len() >= 2 && p[1]
                                                                == crec_pre.nexthops@[ni2]@[1];
                                                        assert(path_ok(
                                                            g@,
                                                            dir,
                                                            off,
                                                            root,
                                                            crec.id,
                                                            crec.cost,
                                                            p,
                                                        ) && p.len() >= 2 && p[1]
                                                            == crec.nexthops@[ni2]@[1]);
                                                    }
                                                }
                                                assert(crec.paths@[crec.paths@.len() - 1]@
                                                    == vrec.paths@[pi as int]@.push(c));
                                                assert(np@.len() >= 2 && np@[np@.len() - 2]
                                                    == v) by {
                                                    assert(vrec.paths@[pi as int]@[
                                                        vrec.paths@[pi as int]@.len() - 1
                                                    ] == v);
                                                }
                                                assert forall|qi: int|
                                                    pre_ext.len() <= qi < crec.paths@.len()
                                                    implies exists|pj: int|
                                                    #![auto]
                                                    0 <= pj < pi + 1 && (#[trigger] crec.paths@[
                                                        qi
                                                    ])@ == vrec.paths@[pj]@.push(c) by {
                                                    if qi < cp_before.len() {
                                                        let pj = choose|pj: int|
                                                            #![auto]
                                                            0 <= pj < pi && cp_before[qi]@
                                                                == vrec.paths@[pj]@.push(c);
                                                        assert(crec.paths@[qi]
                                                            == cp_before[qi]);
                                                        assert(crec.paths@[qi]@
                                                            == vrec.paths@[pj]@.push(c));
                                                    } else {
                                                        assert(crec.paths@[qi]@
                                                            == vrec.paths@[pi as int]@.push(
                                                            c,
                                                        ));
                                                    }
                                                }
                                                assert(entry_pens_settled(
                                                    n as int,
                                                    settled@,
                                                    crec,
                                                )) by {
                                                    assert forall|pi2: int|
                                                        0 <= pi2 < crec.paths@.len() && (
                                                    #[trigger] crec.paths@[pi2])@.len() >= 2
                                                        implies 0 <= pen_of(crec.paths@[pi2]@)
                                                        < n && settled@[pen_of(
                                                        crec.paths@[pi2]@,
                                                    )] by {
                                                        if pi2 < cp_before.len() {
                                                            assert(crec.paths@[pi2]
                                                                == cp_before[pi2]);
                                                        } else {
                                                            assert(crec.paths@[pi2]@ == np@);
                                                        }
                                                    }
                                                }
                                                if positive_costs(g@, dir) && distinct_links(
                                                    g@,
                                                    dir,
                                                ) && cand < u32::MAX {
                                                    assert forall|qi: int|
                                                        0 <= qi < cp_before.len() implies (
                                                    #[trigger] crec.paths@[qi])@ != np@ by {
                                                        assert(crec.paths@[qi]
                                                            == cp_before[qi]);
                                                        if qi < pre_ext.len() {
                                                            let o = pre_ext[qi]@;
                                                            assert(o == records@[
                                                                c as int
                                                            ].paths@[qi]@);
                                                            assert(o.len() >= 2 && 0 <= pen_of(
                                                                o,
                                                            ) < n && settled@[pen_of(o)]) by {
                                                                assert(entry_pens_settled(
                                                                    n as int,
                                                                    settled@,
                                                                    records@[c as int],
                                                                ));
                                                                assert(records@[
                                                                    c as int
                                                                ].paths@[qi]@.len() >= 2);
                                                            }
                                                            assert(records@[
                                                                c as int
                                                            ].paths@[qi]@.len() >= 2);
                                                            lemma_no_reextension(
                                                                g@,
                                                                dir,
                                                                records@,
                                                                settled@,
                                                                v,
                                                                c,
                                                                k as int,
                                                                cand,
                                                                qi,
                                                            );
                                                            assert(pen_of(o) != v as int);
                                                            if o.len() == np@.len() {
                                                                assert(o[np@.len() - 2]
                                                                    != np@[np@.len() - 2]);
                                                            }
                                                        } else {
                                                            let pj = choose|pj: int|
                                                                #![auto]
                                                                0 <= pj < pi && cp_before[qi]@
                                                                    == vrec.paths@[pj]@.push(
                                                                    c,
                                                                );
                                                            if cp_before[qi]@ == np@ {
                                                                assert((vrec.paths@[pj]@.push(
                                                                    c,
                                                                )).drop_last()
                                                                    =~= vrec.paths@[pj]@);
                                                                assert((vrec.paths@[
                                                                    pi as int
                                                                ]@.push(c)).drop_last()
                                                                    =~= vrec.paths@[
                                                                    pi as int
                                                                ]@);
                                                                assert(vrec.paths@[pj]@
                                                                    == vrec.paths@[
                                                                    pi as int
                                                                ]@);
                                                                assert(false);
                                                            }
                                                        }
                                                    }
                                                    assert(entry_paths_distinct(crec)) by {
                                                        assert forall|a: int, b: int|
                                                            0 <= a < b < crec.paths@.len()
                                                            implies (#[trigger] crec.paths@[
                                                            a
                                                        ])@ != (#[trigger] crec.paths@[b])@ by {
                                                            if b < cp_before.len() {
                                                                assert(crec.paths@[a]
                                                                    == cp_before[a]
                                                                    && crec.paths@[b]
                                                                    == cp_before[b]);
                                                            } else {
                                                                assert(crec.paths@[b]@ == np@);
                                                            }
                                                        }
                                                    }
                                                }
                                                if path_max == 0 {
                                                    assert forall|pj: int|
                                                        0 <= pj < pi + 1 implies paths_has(
                                                        crec.paths@,
                                                        (#[trigger] vrec.paths@[pj])@.push(c),
                                                    ) by {
                                                        if pj < pi {
                                                            let qi = choose|qi: int|
                                                                0 <= qi < cp_before.len() && (
                                                                #[trigger] cp_before[qi])@
                                                                    == vrec.paths@[pj]@.push(c);
                                                            assert(crec.paths@[qi]
                                                                == cp_before[qi]);
                                                        } else {
                                                            assert(crec.paths@[crec.paths@.len()
                                                                - 1]@ == vrec.paths@[pj]@.push(
                                                                c,
                                                            ));
                                                        }
                                                    }
                                                }
                                            }
                                        }
                                        pi = pi + 1;
                                    }
                                } else {
                                    let mut ni: usize = 0;
                                    while ni < vrec.nexthops.len()
                                        invariant
                                            ni <= vrec.nexthops@.len(),
                                            vrec.nexthops@.len() >= 1,
                                            vrec.id == v,
                                            vrec.cost == vcost,
                                            v != root,
                                            c != root,
                                            c < g@.len(),
                                            avail(g@, off, c as int),
                                            linked_w(g@, dir, v as int, c as int, l.cost),
                                            cand == vcost.saturating_add(l.cost),
                                            rec_nexthops_tight(g@, dir, off, root, vrec),
                                            rec_nexthops_tight(g@, dir, off, root, crec),
                                            n == g@.len(),
                                            entry_pens_settled(n as int, settled@, crec),
                                            (positive_costs(g@, dir) && distinct_links(g@, dir)
                                                && cand < u32::MAX) ==> entry_paths_distinct(
                                                crec,
                                            ),
                                            forall|nj: int|
                                                0 <= nj < vrec.nexthops@.len() ==> nexthop_ok(
                                                    g@,
                                                    dir,
                                                    off,
                                                    root,
                                                    (#[trigger] vrec.nexthops@[nj])@,
                                                ) && vrec.nexthops@[nj]@.len() == 2,
                                            crec.id == c,
                                            crec.cost == cand,
                                            crec.registered == reg0,
                                            forall|nj: int|
                                                0 <= nj < crec.nexthops@.len() ==> nexthop_ok(
                                                    g@,
                                                    dir,
                                                    off,
                                                    root,
                                                    (#[trigger] crec.nexthops@[nj])@,
                                                ) && crec.nexthops@[nj]@.len() == 2,
                                            path_max > 0 ==> crec.nexthops@.len() <= path_max,
                                            crec.nexthops@.len() >= 1 || ni == 0,
                                            forall|qi: int|
                                                0 <= qi < crec.paths@.len() ==> path_ok(
                                                    g@,
                                                    dir,
                                                    off,
                                                    root,
                                                    c,
                                                    cand,
                                                    (#[trigger] crec.paths@[qi])@,
                                                ) && crec.paths@[qi]@.len() >= 2,
                                            path_max > 0 ==> crec.paths@.len() <= path_max,
                                        decreases vrec.nexthops@.len() - ni,
                                    {
                                        if path_max == 0 || crec.nexthops.len() < path_max {
                                            let nh = copy_ids(&vrec.nexthops[ni]);
                                            proof {
                                                assert(nh@ == vrec.nexthops@[ni as int]@);
                                                assert(nexthop_ok(g@, dir, off, root, nh@));
                                            }
                                            if !contains_idlist(&crec.nexthops, &nh) {
                                                let ghost nh_before = crec.nexthops@;
                                                proof {
                                                    assert(vrec.nexthops@[ni as int]@.len()
                                                        == 2);
                                                    let pv = choose|pv: Seq<usize>|
                                                        #![auto]
                                                        path_ok(g@, dir, off, root, v, vcost, pv)
                                                            && pv.len() >= 2 && pv[1]
                                                            == vrec.nexthops@[ni as int]@[1];
                                                    lemma_extend_path(
                                                        g@,
                                                        dir,
                                                        off,
                                                        root,
                                                        v,
                                                        c,
                                                        vcost,
                                                        l.cost,
                                                        cand,
                                                        pv,
                                                        pv.push(c),
                                                    );
                                                    assert(pv.push(c)[1] == pv[1]);
                                                }
                                                crec.nexthops.push(nh);
                                                proof {
                                                    let pv = choose|pv: Seq<usize>|
                                                        #![auto]
                                                        path_ok(g@, dir, off, root, v, vcost, pv)
                                                            && pv.len() >= 2 && pv[1]
                                                            == vrec.nexthops@[ni as int]@[1];
                                                    assert forall|ni2: int|
                                                        0 <= ni2 < crec.nexthops@.len() && (
                                                    #[trigger] crec.nexthops@[ni2])@.len() == 2
                                                        implies exists|p: Seq<usize>|
                                                        #![auto]
                                                        path_ok(
                                                            g@,
                                                            dir,
                                                            off,
                                                            root,
                                                            crec.id,
                                                            crec.cost,
                                                            p,
                                                        ) && p.len() >= 2 && p[1]
                                                            == crec.nexthops@[ni2]@[1] by {
                                                        if ni2 < nh_before.len() {
                                                            assert(crec.nexthops@[ni2]
                                                                == nh_before[ni2]);
                                                            let p = choose|p: Seq<usize>|
                                                                #![auto]
                                                                path_ok(
                                                                    g@,
                                                                    dir,
                                                                    off,
                                                                    root,
                                                                    crec.id,
                                                                    crec.cost,
                                                                    p,
                                                                ) && p.len() >= 2 && p[1]
                                                                    == nh_before[ni2]@[1];
                                                            assert(p[1] == crec.nexthops@[
                                                                ni2
                                                            ]@[1]);
                                                        } else {
                                                            assert(crec.nexthops@[ni2]@ == nh@);
                                                            assert(path_ok(
                                                                g@,
                                                                dir,
                                                                off,
                                                                root,
                                                                crec.id,
                                                                crec.cost,
                                                                pv.push(c),
                                                            ) && pv.push(c).len() >= 2
                                                                && pv.push(c)[1]
                                                                == crec.nexthops@[ni2]@[1]);
                                                        }
                                                    }
                                                    assert(rec_nexthops_tight(
                                                        g@,
                                                        dir,
                                                        off,
                                                        root,
                                                        crec,
                                                    ));
                                                }
                                            }
                                        }
                                        ni = ni + 1;
                                    }
                                }
                            }
                            let newreg = !crec.registered;
                            crec.registered = true;
                            proof {
                                assert(entry_ok(g@, dir, off, root, path_max, crec));
                                assert(full_path ==> crec.paths@.len() >= 1) by {
                                    if full_path && !newbest {
                                        assert(records0[c as int].registered);
                                    }
                                }
                                assert(!full_path ==> crec.nexthops@.len() >= 1) by {
                                    if !full_path && !newbest {
                                        assert(records0[c as int].registered);
                                    }
                                }
                                assert(crec.cost >= out@[out@.len() - 1].cost);
                                assert(entry_pens_settled(n as int, settled@, crec));
                                if positive_costs(g@, dir) && distinct_links(g@, dir)
                                    && crec.cost < u32::MAX {
                                    assert(entry_paths_distinct(crec));
                                }
                                if retains_all(g@, dir, off, root, full_path, path_max) {
                                    assert(dir_adj(g@, dir, v as int)[k as int].cost >= 1);
                                    if records0[c as int].cost == crec.cost {
                                        assert(!newbest) by {
                                            if newbest {
                                                if reg0 {
                                                    assert(records0[c as int].cost >= 1);
                                                } else {
                                                    assert(records0[c as int].cost == 0);
                                                    assert(cand >= 1);
                                                }
                                            }
                                        }
                                        assert(pre_ext == crec0.paths@);
                                        assert forall|pi2: int|
                                            0 <= pi2 < records0[c as int].paths@.len() implies (
                                        #[trigger] crec.paths@[pi2])@ == records0[
                                            c as int
                                        ].paths@[pi2]@ by {
                                            assert(crec.paths@[pi2] == pre_ext[pi2]);
                                            assert(crec0.paths@[pi2]@ == records0[
                                                c as int
                                            ].paths@[pi2]@);
                                        }
                                    }
                                    assert forall|pi2: int|
                                        0 <= pi2 < records0[v as int].paths@.len() implies
                                        paths_has(
                                        crec.paths@,
                                        (#[trigger] records0[v as int].paths@[pi2])@.push(c),
                                    ) by {
                                        assert(records0[v as int].paths@[pi2]@ == vrec.paths@[
                                            pi2
                                        ]@);
                                        if v == root {
                                            assert(root_entry_ok(root, records0[root as int]));
                                            assert(pi2 == 0);
                                            assert(records0[root as int].paths@[0]@
                                                == seq![root]);
                                            assert(crec.paths@[crec.paths@.len() - 1]@
                                                == seq![root].push(c));
                                            assert(crec.paths@[crec.paths@.len() - 1]@
                                                == records0[v as int].paths@[pi2]@.push(c));
                                        } else {
                                            assert(paths_has(
                                                crec.paths@,
                                                vrec.paths@[pi2]@.push(c),
                                            ));
                                        }
                                    }
                                }
                            }
                            let ghost crec_g = crec;
                            records.set(c, crec);
                            if newreg {
                                frontier.push(c);
                            }
                            proof {
                                lemma_relax_step(
                                    g@,
                                    dir,
                                    off,
                                    root,
                                    full_path,
                                    path_max,
                                    records0,
                                    settled@,
                                    frontier_b,
                                    out@,
                                    v,
                                    k as int,
                                    c,
                                    crec_g,
                                    newreg,
                                );
                            }
                        }
                    } else {
                        proof {
                            assert(records@[c as int].registered);
                            assert(entry_closed_upto(g@, dir, off, root, records@, v, k + 1));
                        }
                    }
                } else {
                    proof {
                        assert(entry_closed_upto(g@, dir, off, root, records@, v, k + 1)) by {
                            assert forall|li: int|
                                0 <= li < k + 1 && li < dir_adj(g@, dir, v as int).len() implies {
                                let peer = link_peer(
                                    #[trigger] dir_adj(g@, dir, v as int)[li],
                                    dir,
                                );
                                (avail(g@, off, peer as int) && peer != root)
                                    ==> records@[peer as int].registered
                            } by {
                                let peer = link_peer(dir_adj(g@, dir, v as int)[li], dir);
                                if li == k {
                                    assert(peer == c);
                                    if c_off {
                                        assert(!avail(g@, off, peer as int));
                                    }
                                }
                            }
                        }
                    }
                }
                k = k + 1;
            }
            proof {
                assert(closure_upto(
                    g@,
                    dir,
                    off,
                    root,
                    records@,
                    out@,
                    out@.len() as int,
                )) by {
                    assert forall|k2: int|
                        0 <= k2 < out@.len() && avail(g@, off, (#[trigger] out@[k2]).id as int)
                        implies entry_closed_upto(
                        g@,
                        dir,
                        off,
                        root,
                        records@,
                        out@[k2].id,
                        dir_adj(g@, dir, out@[k2].id as int).len() as int,
                    ) by {
                        if k2 == out@.len() - 1 {
                            assert(out@[k2].id == v);
                        }
                    }
                }
            }
        } else {
            proof {
                assert(!avail(g@, off, v as int));
                assert(closure_upto(
                    g@,
                    dir,
                    off,
                    root,
                    records@,
                    out@,
                    out@.len() as int,
                )) by {
                    assert forall|k2: int|
                        0 <= k2 < out@.len() && avail(g@, off, (#[trigger] out@[k2]).id as int)
                        implies entry_closed_upto(
                        g@,
                        dir,
                        off,
                        root,
                        records@,
                        out@[k2].id,
                        dir_adj(g@, dir, out@[k2].id as int).len() as int,
                    ) by {
                        assert(k2 < out@.len() - 1 || out@[k2].id == v);
                    }
                }
                if !avail(g@, off, root as int) {
                    assert(out0.len() == 0 || (out0.len() == 1 && frontier0.len() == 0));
                    assert(out0.len() == 0);
                    assert(v == root);
                    assert(frontier@.len() == 0);
                }
            }
        }
    }
    proof {
        assert(out@.len() >= 1);
        assert(table_closed(g@, dir, off, root, out@)) by {
            assert forall|k: int, li: int|
                0 <= k < out@.len() && avail(g@, off, out@[k].id as int) && 0 <= li < dir_adj(
                    g@,
                    dir,
                    out@[k].id as int,
                ).len() implies {
                let peer = link_peer(#[trigger] dir_adj(g@, dir, out@[k].id as int)[li], dir);
                (avail(g@, off, peer as int) && peer != root) ==> has_id(out@, peer)
            } by {
                let peer = link_peer(dir_adj(g@, dir, out@[k].id as int)[li], dir);
                if avail(g@, off, peer as int) && peer != root {
                    assert(records@[peer as int].registered);
                    assert(!frontier@.contains(peer));
                    assert(settled@[peer as int]);
                    assert(has_id(out@, peer));
                }
            }
        }
        assert(has_id(out@, root)) by {
            assert(out@[0].id == root);
        }
        assert forall|k: int| 0 <= k < out@.len() implies rec_nexthops_tight(
            g@,
            dir,
            off,
            root,
            #[trigger] out@[k],
        ) by {
            assert(path_like(records@[out@[k].id as int], out@[k]));
            lemma_path_like_tight(g@, dir, off, root, records@[out@[k].id as int], out@[k]);
        }
        if positive_costs(g@, dir) && distinct_links(g@, dir) {
            assert forall|k: int|
                0 <= k < out@.len() && (#[trigger] out@[k]).cost < u32::MAX implies
                entry_paths_distinct(out@[k]) by {
                assert(path_like(records@[out@[k].id as int], out@[k]));
                assert(records@[out@[k].id as int].cost == out@[k].cost);
                assert(entry_paths_distinct(records@[out@[k].id as int]));
                lemma_path_like_distinct(records@[out@[k].id as int], out@[k]);
            }
        }
        if retains_all(g@, dir, off, root, full_path, path_max) {
            assert forall|k: int| 0 <= k < out@.len() implies entry_paths_complete(
                g@,
                dir,
                off,
                root,
                #[trigger] out@[k],
            ) by {
                let e = out@[k];
                assert(path_like(records@[e.id as int], e));
                assert(settled@[e.id as int]);
                assert forall|cost: u32, p: Seq<usize>|
                    #[trigger] path_ok(g@, dir, off, root, e.id, cost, p) && cost == e.cost
                        && cost < u32::MAX implies paths_has(e.paths@, p) by {
                    assert(cost == records@[e.id as int].cost);
                    assert(paths_has(records@[e.id as int].paths@, p));
                    let qi = choose|qi: int|
                        0 <= qi < records@[e.id as int].paths@.len() && (#[trigger] records@[
                            e.id as int
                        ].paths@[qi])@ == p;
                    assert(e.paths@[qi]@ == records@[e.id as int].paths@[qi]@);
                }
            }
        }
        if positive_costs(g@, dir) && avail(g@, off, root as int) {
            assert forall|z: usize, cost: u32, p: Seq<usize>|
                #[trigger] path_ok(g@, dir, off, root, z, cost, p) implies has_id(out@, z) by {
                lemma_path_bound(
                    g@,
                    dir,
                    off,
                    root,
                    full_path,
                    path_max,
                    records@,
                    settled@,
                    frontier@,
                    out@,
                    z,
                    cost,
                    p,
                );
                if !(z < g@.len() && settled@[z as int] && records@[z as int].cost <= cost) {
                    let i = choose|i: int|
                        #![auto]
                        0 <= i < p.len() && p[i] < g@.len() && !settled@[p[i] as int]
                            && records@[p[i] as int].registered && records@[p[
                            i
                        ] as int].cost <= cost;
                    assert(frontier@.contains(p[i]));
                    assert(false);
                }
                assert(has_id(out@, z));
            }
            assert(table_complete(g@, dir, off, root, out@));
        }
    }
    out
}

/// The full contract of an id-indexed traversal result.
pub open spec fn spf_table_ok(
    g: Seq<Node>,
    dir: Direction,
    off: Option<usize>,
    root: usize,
    full_path: bool,
    path_max: usize,
    t: Seq<Path>,
) -> bool {
    &&& forall|k: int|
        0 <= k < t.len() ==> out_entry_ok(g, dir, off, root, full_path, path_max, #[trigger] t[k])
    &&& table_sorted(t)
    &&& table_closed(g, dir, off, root, t)
    &&& has_id(t, root)
    &&& !avail(g, off, root as int) ==> t.len() == 1
    &&& (positive_costs(g, dir) && avail(g, off, root as int)) ==> table_costs_minimal(
        g,
        dir,
        off,
        root,
        t,
    ) && table_complete(g, dir, off, root, t)
    &&& retains_all(g, dir, off, root, full_path, path_max) ==> forall|k: int|
        0 <= k < t.len() ==> entry_paths_complete(g, dir, off, root, #[trigger] t[k])
    &&& forall|k: int|
        0 <= k < t.len() ==> rec_nexthops_tight(g, dir, off, root, #[trigger] t[k])
    &&& (positive_costs(g, dir) && distinct_links(g, dir)) ==> forall|k: int|
        0 <= k < t.len() && (#[trigger] t[k]).cost < u32::MAX ==> entry_paths_distinct(t[k])
}

/// Two id-sorted tables keyed by the same ids are keyed pointwise by
/// the same ids.
proof fn lemma_sorted_same_ids(t1: Seq<Path>, t2: Seq<Path>)
    requires
        table_sorted(t1),
        table_sorted(t2),
        forall|id: usize| has_id(t1, id) <==> has_id(t2, id),
    ensures
        t1.len() == t2.len(),
        forall|k: int| 0 <= k < t1.len() ==> (#[trigger] t1[k]).id == t2[k].id,
    decreases t1.len(),
{
    if t1.len() == 0 {
        if t2.len() > 0 {
            assert(has_id(t2, t2[0].id));
            assert(has_id(t1, t2[0].id));
            assert(false);
        }
    } else if t2.len() == 0 {
        assert(has_id(t1, t1[0].id));
        assert(has_id(t2, t1[0].id));
        assert(false);
    } else {
        assert(t1[0].id == t2[0].id) by {
            assert(has_id(t1, t1[0].id));
            assert(has_id(t2, t1[0].id));
            let j2 = choose|j2: int| 0 <= j2 < t2.len() && (#[trigger] t2[j2]).id == t1[0].id;
            assert(t2[0].id <= t2[j2].id);
            assert(has_id(t2, t2[0].id));
            assert(has_id(t1, t2[0].id));
            let j1 = choose|j1: int| 0 <= j1 < t1.len() && (#[trigger] t1[j1]).id == t2[0].id;
            assert(t1[0].id <= t1[j1].id);
        }
        let s1 = t1.subrange(1, t1.len() as int);
        let s2 = t2.subrange(1, t2.len() as int);
        assert forall|id: usize| has_id(s1, id) implies has_id(s2, id) by {
            let k = choose|k: int| 0 <= k < s1.len() && (#[trigger] s1[k]).id == id;
            assert(s1[k] == t1[k + 1]);
            assert(id > t1[0].id);
            assert(has_id(t1, id));
            assert(has_id(t2, id));
            let j2 = choose|j2: int| 0 <= j2 < t2.len() && (#[trigger] t2[j2]).id == id;
            assert(j2 > 0) by {
                assert(t2[0].id == t1[0].id);
            }
            assert(s2[j2 - 1].id == id);
        }
        assert forall|id: usize| has_id(s2, id) implies has_id(s1, id) by {
            let k = choose|k: int| 0 <= k < s2.len() && (#[trigger] s2[k]).id == id;
            assert(s2[k] == t2[k + 1]);
            assert(id > t2[0].id);
            assert(has_id(t2, id));
            assert(has_id(t1, id));
            let j1 = choose|j1: int| 0 <= j1 < t1.len() && (#[trigger] t1[j1]).id == id;
            assert(j1 > 0);
            assert(s1[j1 - 1].id == id);
        }
        assert(table_sorted(s1)) by {
            assert forall|i: int, j: int| 0 <= i < j < s1.len() implies (#[trigger] s1[i]).id
                < (#[trigger] s1[j]).id by {
                assert(s1[i] == t1[i + 1] && s1[j] == t1[j + 1]);
            }
        }
        assert(table_sorted(s2)) by {
            assert forall|i: int, j: int| 0 <= i < j < s2.len() implies (#[trigger] s2[i]).id
                < (#[trigger] s2[j]).id by {
                assert(s2[i] == t2[i + 1] && s2[j] == t2[j + 1]);
            }
        }
        lemma_sorted_same_ids(s1, s2);
        assert forall|k: int| 0 <= k < t1.len() implies (#[trigger] t1[k]).id == t2[k].id by {
            if k > 0 {
                assert(s1[k - 1] == t1[k] && s2[k - 1] == t2[k]);
                assert(s1[k - 1].id == s2[k - 1].id);
            }
        }
    }
}

/// Determinism of the traversal on settled nodes and costs: any two
/// full-path results that satisfy the traversal contract for the same
/// graph, direction, simulated failure and root — whatever their
/// retention caps — settle exactly the same nodes at exactly the same
/// costs.
pub proof fn spf_tables_agree(
    g: Seq<Node>,
    dir: Direction,
    off: Option<usize>,
    root: usize,
    pm1: usize,
    pm2: usize,
    t1: Seq<Path>,
    t2: Seq<Path>,
)
    requires
        positive_costs(g, dir),
        avail(g, off, root as int),
        spf_table_ok(g, dir, off, root, true, pm1, t1),
        spf_table_ok(g, dir, off, root, true, pm2, t2),
    ensures
        t1.len() == t2.len(),
        forall|k: int|
            0 <= k < t1.len() ==> (#[trigger] t1[k]).id == t2[k].id && t1[k].cost == t2[
                k
            ].cost,
{
    assert forall|id: usize| has_id(t1, id) implies has_id(t2, id) by {
        lemma_table_entry_reaches(g, dir, off, root, pm1, t1, id);
        let (cost, p) = choose|cost: u32, p: Seq<usize>|
            #![auto]
            path_ok(g, dir, off, root, id, cost, p);
        assert(table_complete(g, dir, off, root, t2));
    }
    assert forall|id: usize| has_id(t2, id) implies has_id(t1, id) by {
        lemma_table_entry_reaches(g, dir, off, root, pm2, t2, id);
        let (cost, p) = choose|cost: u32, p: Seq<usize>|
            #![auto]
            path_ok(g, dir, off, root, id, cost, p);
        assert(table_complete(g, dir, off, root, t1));
    }
    lemma_sorted_same_ids(t1, t2);
    assert forall|k: int| 0 <= k < t1.len() implies (#[trigger] t1[k]).id == t2[k].id && t1[
        k
    ].cost == t2[k].cost by {
        let id = t1[k].id;
        lemma_entry_cost_tight(g, dir, off, root, pm1, t1, k);
        lemma_entry_cost_tight(g, dir, off, root, pm2, t2, k);
        let (c1, p1) = choose|c1: u32, p1: Seq<usize>|
            #![auto]
            path_ok(g, dir, off, root, t1[k].id, c1, p1) && c1 == t1[k].cost;
        let (c2, p2) = choose|c2: u32, p2: Seq<usize>|
            #![auto]
            path_ok(g, dir, off, root, t2[k].id, c2, p2) && c2 == t2[k].cost;
        assert(table_costs_minimal(g, dir, off, root, t1));
        assert(table_costs_minimal(g, dir, off, root, t2));
        assert(path_ok(g, dir, off, root, t1[k].id, c2, p2));
        assert(path_ok(g, dir, off, root, t2[k].id, c1, p1));
    }
}

/// Every retained route of a full-path table entry is itself a
/// shortest route: it runs from the root to the entry's node at the
/// entry's cost, and no route at all costs less.
pub proof fn spf_paths_are_shortest(
    g: Seq<Node>,
    dir: Direction,
    off: Option<usize>,
    root: usize,
    path_max: usize,
    t: Seq<Path>,
    k: int,
    pi: int,
)
    requires
        positive_costs(g, dir),
        avail(g, off, root as int),
        spf_table_ok(g, dir, off, root, true, path_max, t),
        0 <= k < t.len(),
        t[k].id != root,
        0 <= pi < t[k].paths@.len(),
    ensures
        path_ok(g, dir, off, root, t[k].id, t[k].cost, t[k].paths@[pi]@),
        forall|c2: u32, p2: Seq<usize>|
            #[trigger] path_ok(g, dir, off, root, t[k].id, c2, p2) ==> t[k].cost <= c2,
{
    assert(out_entry_ok(g, dir, off, root, true, path_max, t[k]));
    assert(table_costs_minimal(g, dir, off, root, t));
}

/// A full-path table settles exactly the reachable nodes: a node has
/// an entry if and only if some route runs to it from the root.
pub proof fn spf_settles_exactly_reachable(
    g: Seq<Node>,
    dir: Direction,
    off: Option<usize>,
    root: usize,
    path_max: usize,
    t: Seq<Path>,
    id: usize,
)
    requires
        positive_costs(g, dir),
        avail(g, off, root as int),
        spf_table_ok(g, dir, off, root, true, path_max, t),
    ensures
        has_id(t, id) <==> connected(g, dir, off, root, id),
{
    if has_id(t, id) {
        lemma_table_entry_reaches(g, dir, off, root, path_max, t, id);
    }
    if connected(g, dir, off, root, id) {
        let (cost, p) = choose|cost: u32, p: Seq<usize>|
            #![auto]
            path_ok(g, dir, off, root, id, cost, p);
        assert(table_complete(g, dir, off, root, t));
    }
}

/// Determinism of the retained routes: in two uncapped full-path
/// results for the same inputs, every route retained by one is retained
/// by the other (short of the saturation point), because each table
/// keeps exactly the routes that attain its exact costs.
pub proof fn spf_tables_same_paths(
    g: Seq<Node>,
    dir: Direction,
    off: Option<usize>,
    root: usize,
    t1: Seq<Path>,
    t2: Seq<Path>,
    k: int,
    pi: int,
)
    requires
        retains_all(g, dir, off, root, true, 0),
        spf_table_ok(g, dir, off, root, true, 0, t1),
        spf_table_ok(g, dir, off, root, true, 0, t2),
        0 <= k < t1.len(),
        t1[k].cost < u32::MAX,
        0 <= pi < t1[k].paths@.len(),
    ensures
        k < t2.len() && t2[k].id == t1[k].id && t2[k].cost == t1[k].cost,
        paths_has(t2[k].paths@, t1[k].paths@[pi]@),
{
    spf_tables_agree(g, dir, off, root, 0, 0, t1, t2);
    assert(out_entry_ok(g, dir, off, root, true, 0, t1[k]));
    assert(out_entry_ok(g, dir, off, root, true, 0, t2[k]));
    if t1[k].id == root {
        assert(root_entry_ok(root, t1[k]));
        assert(root_entry_ok(root, t2[k]));
        assert(pi == 0);
        assert(t2[k].paths@[0]@ == t1[k].paths@[pi]@);
    } else {
        assert(path_ok(g, dir, off, root, t1[k].id, t1[k].cost, t1[k].paths@[pi]@));
        assert(entry_paths_complete(g, dir, off, root, t2[k]));
        assert(path_ok(g, dir, off, root, t2[k].id, t2[k].cost, t1[k].paths@[pi]@));
    }
}

/// A full-path table entry witnesses a route from the root to its id.
proof fn lemma_table_entry_reaches(
    g: Seq<Node>,
    dir: Direction,
    off: Option<usize>,
    root: usize,
    path_max: usize,
    t: Seq<Path>,
    id: usize,
)
    requires
        avail(g, off, root as int),
        spf_table_ok(g, dir, off, root, true, path_max, t),
        has_id(t, id),
    ensures
        exists|cost: u32, p: Seq<usize>|
            #![auto]
            path_ok(g, dir, off, root, id, cost, p),
{
    let k = choose|k: int| 0 <= k < t.len() && (#[trigger] t[k]).id == id;
    lemma_entry_cost_tight(g, dir, off, root, path_max, t, k);
}

/// A full-path table entry retains a route of exactly its own cost.
proof fn lemma_entry_cost_tight(
    g: Seq<Node>,
    dir: Direction,
    off: Option<usize>,
    root: usize,
    path_max: usize,
    t: Seq<Path>,
    k: int,
)
    requires
        avail(g, off, root as int),
        spf_table_ok(g, dir, off, root, true, path_max, t),
        0 <= k < t.len(),
    ensures
        exists|cost: u32, p: Seq<usize>|
            #![auto]
            path_ok(g, dir, off, root, t[k].id, cost, p) && cost == t[k].cost,
{
    let e = t[k];
    assert(out_entry_ok(g, dir, off, root, true, path_max, e));
    if e.id == root {
        assert(root_entry_ok(root, e));
        assert(e.paths@[0]@ == seq![root]);
        let p = e.paths@[0]@;
        assert(path_ok(g, dir, off, root, root, 0, p)) by {
            assert(p.len() == 1);
            assert(p[0] == root);
            assert(walk_ok(g, dir, p, 0));
        }
        assert(path_ok(g, dir, off, root, e.id, 0, p) && 0 == e.cost);
    } else {
        assert(e.paths@.len() >= 1);
        assert(path_ok(g, dir, off, root, e.id, e.cost, e.paths@[0]@));
        assert(path_ok(g, dir, off, root, t[k].id, e.cost, e.paths@[0]@) && e.cost == t[
            k
        ].cost);
    }
}

/// Finds the position of the entry keyed by `id`, if any.
pub(crate) fn find_id(t: &Vec<Path>, id: usize) -> (r: Option<usize>)
    ensures
        match r {
            Some(j) => j < t@.len() && t@[j as int].id == id,
            None => !has_id(t@, id),
        },
{
    let mut j: usize = 0;
    while j < t.len()
        invariant
            j <= t@.len(),
            forall|k: int| 0 <= k < j ==> (#[trigger] t@[k]).id != id,
        decreases t@.len() - j,
    {
        if t[j].id == id {
            return Some(j);
        }
        j = j + 1;
    }
    None
}

/// `e` is one of the entries of `t`.
spec fn elem_of(e: Path, t: Seq<Path>) -> bool {
    exists|j: int| 0 <= j < t.len() && e == #[trigger] t[j]
}

/// Reorders the settle-ordered records into ascending id order.
fn sort_by_id(out: Vec<Path>, n: usize) -> (r: Vec<Path>)
    requires
        forall|j: int| 0 <= j < out@.len() ==> (#[trigger] out@[j]).id < n,
        ids_unique(out@),
    ensures
        table_sorted(r@),
        r@.len() == out@.len(),
        forall|k: int| 0 <= k < r@.len() ==> elem_of(#[trigger] r@[k], out@),
        forall|j: int| 0 <= j < out@.len() ==> elem_of(#[trigger] out@[j], r@),
{
    let ghost out0 = out@;
    let mut src = out;
    let mut r: Vec<Path> = Vec::new();
    let mut id: usize = 0;
    proof {
        assert forall|j: int| 0 <= j < src@.len() implies elem_of(#[trigger] src@[j], out0) by {
            assert(src@[j] == out0[j]);
        }
        assert forall|j0: int| 0 <= j0 < out0.len() implies elem_of(#[trigger] out0[j0], r@)
            || elem_of(out0[j0], src@) by {
            assert(out0[j0] == src@[j0]);
        }
    }
    while id < n
        invariant
            id <= n,
            r@.len() + src@.len() == out0.len(),
            forall|j: int| 0 <= j < src@.len() ==> elem_of(#[trigger] src@[j], out0),
            forall|i: int, j: int|
                0 <= i < j < src@.len() ==> (#[trigger] src@[i]).id != (#[trigger] src@[j]).id,
            forall|j: int| 0 <= j < src@.len() ==> (#[trigger] src@[j]).id < n,
            forall|j: int| 0 <= j < src@.len() ==> (#[trigger] src@[j]).id >= id,
            forall|k: int| 0 <= k < r@.len() ==> elem_of(#[trigger] r@[k], out0),
            forall|k: int| 0 <= k < r@.len() ==> (#[trigger] r@[k]).id < id,
            table_sorted(r@),
            forall|j0: int|
                0 <= j0 < out0.len() ==> elem_of(#[trigger] out0[j0], r@) || elem_of(
                    out0[j0],
                    src@,
                ),
        decreases n - id,
    {
        let found = find_id(&src, id);
        match found {
            Some(j) => {
                let ghost src0 = src@;
                let e = src.swap_remove(j);
                proof {
                    assert(e == src0[j as int]);
                    assert forall|j2: int| 0 <= j2 < src@.len() implies elem_of(
                        #[trigger] src@[j2],
                        out0,
                    ) && src@[j2].id < n && src@[j2].id > id by {
                        let a: int = if j2 == j {
                            src0.len() - 1
                        } else {
                            j2
                        };
                        assert(src@[j2] == src0[a]);
                        assert(elem_of(src0[a], out0));
                        assert(src0[a].id >= id);
                        if src0[a].id == id {
                            assert(a != j ==> src0[a].id != src0[j as int].id);
                        }
                    }
                    assert forall|i2: int, j2: int| 0 <= i2 < j2 < src@.len() implies (
                    #[trigger] src@[i2]).id != (#[trigger] src@[j2]).id by {
                        let a: int = if i2 == j {
                            src0.len() - 1
                        } else {
                            i2
                        };
                        let b: int = if j2 == j {
                            src0.len() - 1
                        } else {
                            j2
                        };
                        assert(src@[i2] == src0[a]);
                        assert(src@[j2] == src0[b]);
                    }
                }
                let ghost r0 = r@;
                r.push(e);
                proof {
                    assert forall|k: int| 0 <= k < r@.len() implies elem_of(
                        #[trigger] r@[k],
                        out0,
                    ) by {
                        if k < r0.len() {
                            assert(r@[k] == r0[k]);
                            assert(elem_of(r0[k], out0));
                        } else {
                            assert(r@[k] == src0[j as int]);
                            assert(elem_of(src0[j as int], out0));
                        }
                    }
                    assert forall|j0: int| 0 <= j0 < out0.len() implies elem_of(
                        #[trigger] out0[j0],
                        r@,
                    ) || elem_of(out0[j0], src@) by {
                        if elem_of(out0[j0], r0) {
                            let k = choose|k: int| 0 <= k < r0.len() && out0[j0] == r0[k];
                            assert(out0[j0] == r@[k]);
                        } else if elem_of(out0[j0], src0) {
                            let j2 = choose|j2: int|
                                0 <= j2 < src0.len() && out0[j0] == src0[j2];
                            if j2 == j {
                                assert(out0[j0] == r@[r@.len() - 1]);
                            } else if j2 == src0.len() - 1 {
                                assert(out0[j0] == src@[j as int]);
                            } else {
                                assert(out0[j0] == src@[j2]);
                            }
                        }
                    }
                }
            },
            None => {
                proof {
                    assert forall|j2: int| 0 <= j2 < src@.len() implies (#[trigger] src@[j2]).id
                        > id by {
                        assert(src@[j2].id != id);
                    }
                }
            },
        }
        id = id + 1;
    }
    proof {
        assert(src@.len() == 0) by {
            if src@.len() > 0 {
                assert(src@[0].id < n);
            }
        }
        assert forall|j0: int| 0 <= j0 < out0.len() implies elem_of(
            #[trigger] out0[j0],
            r@,
        ) by {
            if elem_of(out0[j0], src@) {
                let j2 = choose|j2: int| 0 <= j2 < src@.len() && out0[j0] == src@[j2];
                assert(false);
            }
        }
    }
    r
}

/// Forward shortest-path computation from `root`: every node reachable
/// from the root over enabled nodes appears, keyed by id in ascending
/// order, with its discovered cost and its retained equal-cost routes
/// (full paths when `full_path` is set, `(root, first hop)` pairs
/// otherwise), at most `path_max` of them when `path_max > 0`.  A `root`
/// that is not in the graph yields an empty result.  Under strictly
/// positive link costs the settled nodes are exactly the reachable ones
/// and every settled cost is minimal.
pub fn spf(graph: &Graph, root: usize, full_path: bool, path_max: usize) -> (r: Vec<Path>)
    ensures
        root < graph@.len() ==> spf_table_ok(
            graph@,
            Direction::Normal,
            None,
            root,
            full_path,
            path_max,
            r@,
        ),
        root >= graph@.len() ==> r@.len() == 0,
{
    spf_dir(graph, root, full_path, path_max, Direction::Normal)
}

/// Reverse shortest-path computation toward `root`: identical to `spf`
/// but walking incoming links, so each retained route, read from `root`
/// outward, is a forward route into `root` reversed.
pub fn spf_reverse(graph: &Graph, root: usize, full_path: bool, path_max: usize) -> (r: Vec<
    Path,
>)
    ensures
        root < graph@.len() ==> spf_table_ok(
            graph@,
            Direction::Reverse,
            None,
            root,
            full_path,
            path_max,
            r@,
        ),
        root >= graph@.len() ==> r@.len() == 0,
{
    spf_dir(graph, root, full_path, path_max, Direction::Reverse)
}

/// The id-sorted reordering of a traversal's settle-ordered output
/// satisfies the id-indexed table contract.
proof fn lemma_sorted_table_ok(
    g: Seq<Node>,
    dir: Direction,
    off: Option<usize>,
    root: usize,
    full_path: bool,
    path_max: usize,
    out0: Seq<Path>,
    r: Seq<Path>,
)
    requires
        out0.len() >= 1,
        out0[0].id == root,
        forall|k: int|
            0 <= k < out0.len() ==> out_entry_ok(
                g,
                dir,
                off,
                root,
                full_path,
                path_max,
                #[trigger] out0[k],
            ),
        table_closed(g, dir, off, root, out0),
        table_sorted(r),
        r.len() == out0.len(),
        forall|k: int| 0 <= k < r.len() ==> elem_of(#[trigger] r[k], out0),
        forall|j: int| 0 <= j < out0.len() ==> elem_of(#[trigger] out0[j], r),
        !avail(g, off, root as int) ==> out0.len() == 1,
        (positive_costs(g, dir) && avail(g, off, root as int)) ==> table_costs_minimal(
            g,
            dir,
            off,
            root,
            out0,
        ) && table_complete(g, dir, off, root, out0),
        retains_all(g, dir, off, root, full_path, path_max) ==> forall|k: int|
            0 <= k < out0.len() ==> entry_paths_complete(g, dir, off, root, #[trigger] out0[k]),
        forall|k: int|
            0 <= k < out0.len() ==> rec_nexthops_tight(g, dir, off, root, #[trigger] out0[k]),
        (positive_costs(g, dir) && distinct_links(g, dir)) ==> forall|k: int|
            0 <= k < out0.len() && (#[trigger] out0[k]).cost < u32::MAX
                ==> entry_paths_distinct(out0[k]),
    ensures
        spf_table_ok(g, dir, off, root, full_path, path_max, r),
{
    if positive_costs(g, dir) && distinct_links(g, dir) {
        assert forall|k: int|
            0 <= k < r.len() && (#[trigger] r[k]).cost < u32::MAX implies entry_paths_distinct(
            r[k],
        ) by {
            let j = choose|j: int| 0 <= j < out0.len() && r[k] == out0[j];
            assert(entry_paths_distinct(out0[j]));
        }
    }
    assert forall|k: int| 0 <= k < r.len() implies rec_nexthops_tight(
        g,
        dir,
        off,
        root,
        #[trigger] r[k],
    ) by {
        let j = choose|j: int| 0 <= j < out0.len() && r[k] == out0[j];
        assert(rec_nexthops_tight(g, dir, off, root, out0[j]));
    }
    if retains_all(g, dir, off, root, full_path, path_max) {
        assert forall|k: int| 0 <= k < r.len() implies entry_paths_complete(
            g,
            dir,
            off,
            root,
            #[trigger] r[k],
        ) by {
            let j = choose|j: int| 0 <= j < out0.len() && r[k] == out0[j];
            assert(entry_paths_complete(g, dir, off, root, out0[j]));
        }
    }
    if positive_costs(g, dir) && avail(g, off, root as int) {
        assert forall|k: int, cost: u32, p: Seq<usize>|
            0 <= k < r.len() && #[trigger] path_ok(g, dir, off, root, r[k].id, cost, p)
            implies r[k].cost <= cost by {
            let j = choose|j: int| 0 <= j < out0.len() && r[k] == out0[j];
            assert(path_ok(g, dir, off, root, out0[j].id, cost, p));
        }
        assert(table_costs_minimal(g, dir, off, root, r));
    }
    assert forall|k: int| 0 <= k < r.len() implies out_entry_ok(
        g,
        dir,
        off,
        root,
        full_path,
        path_max,
        #[trigger] r[k],
    ) by {
        let j = choose|j: int| 0 <= j < out0.len() && r[k] == out0[j];
        assert(out_entry_ok(g, dir, off, root, full_path, path_max, out0[j]));
    }
    assert forall|id: usize| has_id(out0, id) implies has_id(r, id) by {
        let j = choose|j: int| 0 <= j < out0.len() && (#[trigger] out0[j]).id == id;
        let k = choose|k: int| 0 <= k < r.len() && out0[j] == r[k];
        assert(r[k].id == id);
    }
    assert(table_closed(g, dir, off, root, r)) by {
        assert forall|k: int, li: int|
            0 <= k < r.len() && avail(g, off, r[k].id as int) && 0 <= li < dir_adj(
                g,
                dir,
                r[k].id as int,
            ).len() implies {
            let peer = link_peer(#[trigger] dir_adj(g, dir, r[k].id as int)[li], dir);
            (avail(g, off, peer as int) && peer != root) ==> has_id(r, peer)
        } by {
            let j = choose|j: int| 0 <= j < out0.len() && r[k] == out0[j];
            let peer = link_peer(dir_adj(g, dir, r[k].id as int)[li], dir);
            assert(out0[j].id == r[k].id);
            if avail(g, off, peer as int) && peer != root {
                assert(has_id(out0, peer));
            }
        }
    }
    assert(has_id(r, root)) by {
        assert(has_id(out0, root)) by {
            assert(out0[0].id == root);
        }
    }
    if positive_costs(g, dir) && avail(g, off, root as int) {
        assert forall|z: usize, cost: u32, p: Seq<usize>|
            #[trigger] path_ok(g, dir, off, root, z, cost, p) implies has_id(r, z) by {
            assert(has_id(out0, z));
        }
        assert(table_complete(g, dir, off, root, r));
    }
}

/// The direction-parameterized entry point shared by `spf` and
/// `spf_reverse`, also usable with a simulated failure (`off`).
pub fn spf_dir_off(
    graph: &Graph,
    root: usize,
    full_path: bool,
    path_max: usize,
    dir: Direction,
    off: Option<usize>,
) -> (r: Vec<Path>)
    ensures
        root < graph@.len() ==> spf_table_ok(graph@, dir, off, root, full_path, path_max, r@),
        root >= graph@.len() ==> r@.len() == 0,
{
    if root >= graph.len() {
        return Vec::new();
    }
    let out = spf_run(graph, root, full_path, path_max, dir, off);
    let ghost out0 = out@;
    let r = sort_by_id(out, graph.len());
    proof {
        lemma_sorted_table_ok(graph@, dir, off, root, full_path, path_max, out0, r@);
    }
    r
}

/// The direction-parameterized entry point without a simulated failure.
pub fn spf_dir(
    graph: &Graph,
    root: usize,
    full_path: bool,
    path_max: usize,
    dir: Direction,
) -> (r: Vec<Path>)
    ensures
        root < graph@.len() ==> spf_table_ok(graph@, dir, None, root, full_path, path_max, r@),
        root >= graph@.len() ==> r@.len() == 0,
{
    spf_dir_off(graph, root, full_path, path_max, dir, None)
}

/// Looks up the record of node `id` in a traversal result.
pub fn spf_get<'a>(table: &'a Vec<Path>, id: usize) -> (r: Option<&'a Path>)
    ensures
        match r {
            Some(e) => e.id == id && exists|k: int| 0 <= k < table@.len() && table@[k] == *e,
            None => !has_id(table@, id),
        },
{
    let found = find_id(table, id);
    match found {
        Some(j) => {
            let e = &table[j];
            proof {
                assert(table@[j as int] == *e);
            }
            Some(e)
        },
        None => None,
    }
}

} // verus!
