//! The street graph: nearest-node snapping and shortest-path walking distance.
use vstd::prelude::*;
use crate::geometry::{GeoPoint, sq_dist, straight_dist, straight_distance, squared_distance};

verus! {

/// The largest value a distance can take; longer sums saturate here.
pub open spec fn cap(x: int) -> int {
    if x > u64::MAX as int { u64::MAX as int } else { x }
}

/// An undirected street span between two nodes.
#[derive(Clone, Debug)]
pub struct GraphEdge {
    pub a: usize,
    pub b: usize,
    /// Summed length of the geometry's segments, in meters.
    pub length: u64,
    /// The ordered points of the span, from node `a` to node `b`.
    pub geometry: Vec<GeoPoint>,
}

/// A step of a walk: an edge index, traversed from `a` to `b` when the flag is set.
pub type Step = (int, bool);

pub open spec fn step_from(edges: Seq<GraphEdge>, st: Step) -> int {
    if st.1 { edges[st.0].a as int } else { edges[st.0].b as int }
}

pub open spec fn step_to(edges: Seq<GraphEdge>, st: Step) -> int {
    if st.1 { edges[st.0].b as int } else { edges[st.0].a as int }
}

/// Where a walk that starts at `s` ends.
pub open spec fn walk_end(edges: Seq<GraphEdge>, s: int, w: Seq<Step>) -> int {
    if w.len() == 0 { s } else { step_to(edges, w.last()) }
}

/// `w` is a walk over `edges` that starts at `s`.
pub open spec fn walk_ok(edges: Seq<GraphEdge>, s: int, w: Seq<Step>) -> bool
    decreases w.len(),
{
    if w.len() == 0 {
        true
    } else {
        walk_ok(edges, s, w.drop_last()) && 0 <= w.last().0 < edges.len()
            && step_from(edges, w.last()) == walk_end(edges, s, w.drop_last())
    }
}

/// Summed length of the edges of a walk.
pub open spec fn walk_len(edges: Seq<GraphEdge>, w: Seq<Step>) -> int
    decreases w.len(),
{
    if w.len() == 0 {
        0
    } else {
        walk_len(edges, w.drop_last()) + edges[w.last().0].length
    }
}

/// `w` is a walk from `s` to `v`.
pub open spec fn walk_between(edges: Seq<GraphEdge>, s: int, v: int, w: Seq<Step>) -> bool {
    walk_ok(edges, s, w) && walk_end(edges, s, w) == v
}

/// Some walk from `s` to `v` has (capped) length `d`.
pub open spec fn witnessed(edges: Seq<GraphEdge>, s: int, v: int, d: int) -> bool {
    exists|w: Seq<Step>| #[trigger] walk_between(edges, s, v, w) && cap(walk_len(edges, w)) == d
}

/// `d` is the least (capped) length of a walk from `s` to `v`.
pub open spec fn is_shortest(edges: Seq<GraphEdge>, s: int, v: int, d: int) -> bool {
    &&& witnessed(edges, s, v, d)
    &&& forall|w: Seq<Step>| #[trigger] walk_between(edges, s, v, w) ==> d <= cap(walk_len(edges, w))
}

/// Shortest-path length from `s` to `v`, or `None` when no walk connects them.
pub open spec fn path_dist(edges: Seq<GraphEdge>, s: int, v: int) -> Option<int> {
    if exists|d: int| is_shortest(edges, s, v, d) {
        Some(choose|d: int| is_shortest(edges, s, v, d))
    } else {
        None
    }
}

/// Two shortest lengths agree.
pub proof fn lemma_shortest_unique(edges: Seq<GraphEdge>, s: int, v: int, d1: int, d2: int)
    requires
        is_shortest(edges, s, v, d1),
        is_shortest(edges, s, v, d2),
    ensures
        d1 == d2,
{
    let w1 = choose|w: Seq<Step>| #[trigger] walk_between(edges, s, v, w) && cap(walk_len(edges, w)) == d1;
    let w2 = choose|w: Seq<Step>| #[trigger] walk_between(edges, s, v, w) && cap(walk_len(edges, w)) == d2;
    assert(d1 <= cap(walk_len(edges, w2)));
    assert(d2 <= cap(walk_len(edges, w1)));
}

/// A shortest length that has been found is the one `path_dist` names.
pub proof fn lemma_path_dist_is(edges: Seq<GraphEdge>, s: int, v: int, d: int)
    requires
        is_shortest(edges, s, v, d),
    ensures
        path_dist(edges, s, v) == Some(d),
{
    let c = choose|d: int| is_shortest(edges, s, v, d);
    lemma_shortest_unique(edges, s, v, c, d);
}

/// Saturating addition on distances.
pub open spec fn sat_add(x: int, y: int) -> int {
    cap(x + y)
}

/// Every edge is relaxed in `r`: reaching one end bounds the other.
pub open spec fn edge_closed(edges: Seq<GraphEdge>, r: Seq<Option<u64>>, k: int) -> bool {
    let e = edges[k];
    &&& (r[e.a as int] is Some ==> r[e.b as int] is Some && r[e.b as int]->0 <= sat_add(
        r[e.a as int]->0 as int,
        e.length as int,
    ))
    &&& (r[e.b as int] is Some ==> r[e.a as int] is Some && r[e.a as int]->0 <= sat_add(
        r[e.b as int]->0 as int,
        e.length as int,
    ))
}

/// Every finite entry of `r` is the capped length of some walk from `s`.
pub open spec fn all_witnessed(edges: Seq<GraphEdge>, s: int, r: Seq<Option<u64>>) -> bool {
    forall|v: int| 0 <= v < r.len() && #[trigger] r[v] is Some ==> witnessed(edges, s, v, r[v]->0 as int)
}

/// Potential of a distance table: unreached nodes count one more than any distance.
pub open spec fn entry_pot(o: Option<u64>) -> int {
    match o {
        Some(d) => d as int,
        None => u64::MAX as int + 1,
    }
}

pub open spec fn pot(r: Seq<Option<u64>>) -> int
    decreases r.len(),
{
    if r.len() == 0 { 0 } else { pot(r.drop_last()) + entry_pot(r.last()) }
}

proof fn lemma_pot_update(r: Seq<Option<u64>>, i: int, x: Option<u64>)
    requires
        0 <= i < r.len(),
    ensures
        pot(r.update(i, x)) == pot(r) - entry_pot(r[i]) + entry_pot(x),
    decreases r.len(),
{
    let u = r.update(i, x);
    if i == r.len() - 1 {
        assert(u.drop_last() == r.drop_last());
    } else {
        assert(u.drop_last() == r.drop_last().update(i, x));
        lemma_pot_update(r.drop_last(), i, x);
    }
}

proof fn lemma_pot_nonneg(r: Seq<Option<u64>>)
    ensures
        pot(r) >= 0,
    decreases r.len(),
{
    if r.len() > 0 {
        lemma_pot_nonneg(r.drop_last());
    }
}

/// Extending a witnessed walk by one step witnesses the saturated sum.
proof fn lemma_extend(edges: Seq<GraphEdge>, s: int, u: int, du: int, st: Step)
    requires
        witnessed(edges, s, u, du),
        0 <= st.0 < edges.len(),
        step_from(edges, st) == u,
    ensures
        witnessed(edges, s, step_to(edges, st), sat_add(du, edges[st.0].length as int)),
{
    let w = choose|w: Seq<Step>| #[trigger] walk_between(edges, s, u, w) && cap(walk_len(edges, w)) == du;
    let w2 = w.push(st);
    assert(w2.drop_last() == w);
    lemma_walk_len_nonneg(edges, w);
    assert(walk_between(edges, s, step_to(edges, st), w2));
}

proof fn lemma_walk_len_nonneg(edges: Seq<GraphEdge>, w: Seq<Step>)
    ensures
        walk_len(edges, w) >= 0,
    decreases w.len(),
{
    if w.len() > 0 {
        lemma_walk_len_nonneg(edges, w.drop_last());
    }
}

/// In a relaxed table every walk from the source reaches a finite entry no longer than the walk.
proof fn lemma_closed_bounds(edges: Seq<GraphEdge>, n: int, s: int, r: Seq<Option<u64>>, w: Seq<Step>)
    requires
        r.len() == n,
        forall|k: int| 0 <= k < edges.len() ==> #[trigger] edges[k].links(n),
        forall|k: int| 0 <= k < edges.len() ==> #[trigger] edge_closed(edges, r, k),
        0 <= s < n,
        r[s] == Some(0u64),
        walk_ok(edges, s, w),
    ensures
        0 <= walk_end(edges, s, w) < n,
        r[walk_end(edges, s, w)] is Some,
        r[walk_end(edges, s, w)]->0 <= cap(walk_len(edges, w)),
    decreases w.len(),
{
    if w.len() > 0 {
        let w0 = w.drop_last();
        lemma_closed_bounds(edges, n, s, r, w0);
        lemma_walk_len_nonneg(edges, w0);
        assert(edge_closed(edges, r, w.last().0));
        assert(edges[w.last().0].links(n));
    }
}

impl GraphEdge {
    pub open spec fn links(&self, n: int) -> bool {
        self.a < n && self.b < n
    }
}

/// A street network: nodes addressed by index and undirected weighted edges.
pub struct StreetGraph {
    pub nodes: Vec<GeoPoint>,
    pub edges: Vec<GraphEdge>,
}

/// Index of the first node among the first `n` that is closest to `p`.
pub open spec fn nearest_prefix(nodes: Seq<GeoPoint>, p: GeoPoint, n: int) -> int
    decreases n,
{
    if n <= 1 {
        0
    } else {
        let k = nearest_prefix(nodes, p, n - 1);
        if sq_dist(p, nodes[n - 1]) < sq_dist(p, nodes[k]) { n - 1 } else { k }
    }
}

/// The node closest to `p`, the lowest index winning a tie; `None` on an empty graph.
pub open spec fn nearest_spec(nodes: Seq<GeoPoint>, p: GeoPoint) -> Option<int> {
    if nodes.len() == 0 { None } else { Some(nearest_prefix(nodes, p, nodes.len() as int)) }
}

/// Network distance between two points: shortest path between the nodes they snap to,
/// plus both snap distances, saturating; `None` when no path connects them.
pub open spec fn net_dist(nodes: Seq<GeoPoint>, edges: Seq<GraphEdge>, a: GeoPoint, b: GeoPoint) -> Option<int> {
    match (nearest_spec(nodes, a), nearest_spec(nodes, b)) {
        (Some(na), Some(nb)) => match path_dist(edges, na, nb) {
            Some(d) => Some(sat_add(sat_add(d, straight_dist(a, nodes[na]) as int), straight_dist(b, nodes[nb]) as int)),
            None => None,
        },
        _ => None,
    }
}

proof fn lemma_nearest_prefix_bounds(nodes: Seq<GeoPoint>, p: GeoPoint, n: int)
    requires
        1 <= n <= nodes.len(),
    ensures
        0 <= nearest_prefix(nodes, p, n) < n,
        forall|i: int| 0 <= i < n ==> sq_dist(p, nodes[nearest_prefix(nodes, p, n)]) <= #[trigger] sq_dist(p, nodes[i]),
    decreases n,
{
    if n > 1 {
        lemma_nearest_prefix_bounds(nodes, p, n - 1);
    }
}

impl StreetGraph {
    pub open spec fn wf(&self) -> bool {
        forall|k: int| 0 <= k < self.edges@.len() ==> #[trigger] self.edges@[k].links(self.nodes@.len() as int)
    }

    /// The node closest to `p` by straight-line distance, lowest index on a tie;
    /// `None` only when the graph has no nodes.
    pub fn nearest_node(&self, p: GeoPoint) -> (r: Option<usize>)
        ensures
            r is None <==> self.nodes@.len() == 0,
            r matches Some(k) ==> k < self.nodes@.len() && nearest_spec(self.nodes@, p) == Some(k as int),
            r matches Some(k) ==> forall|i: int| 0 <= i < self.nodes@.len()
                ==> sq_dist(p, self.nodes@[k as int]) <= #[trigger] sq_dist(p, self.nodes@[i]),
    {
        if self.nodes.len() == 0 {
            return None;
        }
        let mut best: usize = 0;
        let mut best_sq: u128 = squared_distance(p, self.nodes[0]);
        let mut i: usize = 1;
        while i < self.nodes.len()
            invariant
                1 <= i <= self.nodes@.len(),
                best as int == nearest_prefix(self.nodes@, p, i as int),
                best < i,
                best_sq == sq_dist(p, self.nodes@[best as int]),
            decreases self.nodes@.len() - i,
        {
            let d = squared_distance(p, self.nodes[i]);
            if d < best_sq {
                best = i;
                best_sq = d;
            }
            i += 1;
        }
        proof {
            lemma_nearest_prefix_bounds(self.nodes@, p, self.nodes@.len() as int);
        }
        Some(best)
    }

    /// Shortest (capped) walk length from node `s` to every node; `None` where unreachable.
    pub fn shortest_from(&self, s: usize) -> (r: Vec<Option<u64>>)
        requires
            self.wf(),
            s < self.nodes@.len(),
        ensures
            r@.len() == self.nodes@.len(),
            forall|v: int| 0 <= v < r@.len() ==> (#[trigger] r@[v] matches Some(d) ==> is_shortest(self.edges@, s as int, v, d as int)),
            forall|v: int| 0 <= v < r@.len() ==> (#[trigger] r@[v] is None ==> forall|w: Seq<Step>| !walk_between(self.edges@, s as int, v, w)),
    {
        let n = self.nodes.len();
        let ghost edges = self.edges@;
        let mut r: Vec<Option<u64>> = Vec::new();
        let mut i: usize = 0;
        while i < n
            invariant
                i <= n,
                n == self.nodes@.len(),
                r@.len() == i,
                forall|v: int| 0 <= v < i ==> #[trigger] r@[v] is None,
            decreases n - i,
        {
            r.push(None);
            i += 1;
        }
        r.set(s, Some(0u64));
        proof {
            let w0 = Seq::<Step>::empty();
            assert(walk_between(edges, s as int, s as int, w0));
        }
        let mut changed = true;
        while changed
            invariant
                self.wf(),
                edges == self.edges@,
                n == self.nodes@.len(),
                s < n,
                r@.len() == n,
                r@[s as int] == Some(0u64),
                all_witnessed(edges, s as int, r@),
                !changed ==> forall|k: int| 0 <= k < edges.len() ==> #[trigger] edge_closed(edges, r@, k),
            decreases pot(r@) + if changed { 1int } else { 0int },
        {
            let ghost start = r@;
            changed = false;
            let mut j: usize = 0;
            while j < self.edges.len()
                invariant
                    self.wf(),
                    edges == self.edges@,
                    n == self.nodes@.len(),
                    s < n,
                    j <= edges.len(),
                    r@.len() == n,
                    r@[s as int] == Some(0u64),
                    all_witnessed(edges, s as int, r@),
                    !changed ==> r@ == start,
                    changed ==> pot(r@) < pot(start),
                    pot(r@) <= pot(start),
                    !changed ==> forall|k: int| 0 <= k < j ==> #[trigger] edge_closed(edges, r@, k),
                decreases edges.len() - j,
            {
                let a = self.edges[j].a;
                let b = self.edges[j].b;
                let len = self.edges[j].length;
                assert(self.edges@[j as int].links(n as int));
                self.relax(&mut r, a, b, len, Ghost((j as int, true)), &mut changed);
                self.relax(&mut r, b, a, len, Ghost((j as int, false)), &mut changed);
                j += 1;
            }
            proof {
                lemma_pot_nonneg(r@);
            }
        }
        proof {
            assert forall|v: int| 0 <= v < r@.len() && #[trigger] r@[v] is Some implies is_shortest(edges, s as int, v, r@[v]->0 as int) by {
                assert(witnessed(edges, s as int, v, r@[v]->0 as int));
                assert forall|w: Seq<Step>| #[trigger] walk_between(edges, s as int, v, w) implies r@[v]->0 <= cap(walk_len(edges, w)) by {
                    lemma_closed_bounds(edges, n as int, s as int, r@, w);
                }
            }
            assert forall|v: int, w: Seq<Step>| 0 <= v < r@.len() && #[trigger] r@[v] is None implies !#[trigger] walk_between(edges, s as int, v, w) by {
                if walk_ok(edges, s as int, w) {
                    lemma_closed_bounds(edges, n as int, s as int, r@, w);
                }
            }
        }
        r
    }

    /// Relaxes the step `st` from `u` to `v`: lowers the entry of `v` when the walk through
    /// `u` is shorter, and records whether it did.
    fn relax(&self, r: &mut Vec<Option<u64>>, u: usize, v: usize, len: u64, st: Ghost<Step>, changed: &mut bool)
        requires
            u < old(r)@.len(),
            v < old(r)@.len(),
            0 <= st@.0 < self.edges@.len(),
            step_from(self.edges@, st@) == u,
            step_to(self.edges@, st@) == v,
            self.edges@[st@.0].length == len,
        ensures
            final(r)@.len() == old(r)@.len(),
            forall|s: int| all_witnessed(self.edges@, s, old(r)@) ==> all_witnessed(self.edges@, s, final(r)@),
            forall|x: int| 0 <= x < old(r)@.len() && x != v ==> final(r)@[x] == old(r)@[x],
            pot(final(r)@) <= pot(old(r)@),
            final(r)@ != old(r)@ ==> pot(final(r)@) < pot(old(r)@) && *final(changed),
            final(r)@ == old(r)@ ==> *final(changed) == *old(changed),
            final(r)@[u as int] is Some ==> final(r)@[v as int] is Some
                && final(r)@[v as int]->0 <= sat_add(final(r)@[u as int]->0 as int, len as int),
            old(r)@[v as int] is Some ==> final(r)@[v as int] is Some && final(r)@[v as int]->0 <= old(r)@[v as int]->0,
    {
        if let Some(du) = r[u] {
            let nd: u64 = if du <= u64::MAX - len { du + len } else { u64::MAX };
            let better = match r[v] {
                Some(dv) => nd < dv,
                None => true,
            };
            if better {
                proof {
                    lemma_pot_update(r@, v as int, Some(nd));
                    assert forall|s: int| all_witnessed(self.edges@, s, old(r)@) implies all_witnessed(self.edges@, s, old(r)@.update(v as int, Some(nd))) by {
                        assert(old(r)@[u as int] is Some);
                        lemma_extend(self.edges@, s, u as int, du as int, st@);
                    }
                }
                r.set(v, Some(nd));
                *changed = true;
            }
        }
    }
}


/// An exec distance read as an integer one.
pub open spec fn opt_int(o: Option<u64>) -> Option<int> {
    match o {
        Some(d) => Some(d as int),
        None => None,
    }
}

/// With no walk between two nodes there is no shortest length.
proof fn lemma_path_dist_none(edges: Seq<GraphEdge>, s: int, v: int)
    requires
        forall|w: Seq<Step>| !walk_between(edges, s, v, w),
    ensures
        path_dist(edges, s, v) is None,
{
    if exists|d: int| is_shortest(edges, s, v, d) {
        let d = choose|d: int| is_shortest(edges, s, v, d);
        assert(witnessed(edges, s, v, d));
    }
}

/// A point standing exactly on the node it snaps to is at network distance zero from itself.
pub proof fn lemma_distance_to_self(g: StreetGraph, a: GeoPoint)
    requires
        g.wf(),
        nearest_spec(g.nodes@, a) matches Some(k) && g.nodes@[k] == a,
    ensures
        net_dist(g.nodes@, g.edges@, a, a) == Some(0int),
{
    let k = nearest_spec(g.nodes@, a)->0;
    let edges = g.edges@;
    let w0 = Seq::<Step>::empty();
    assert(walk_between(edges, k, k, w0));
    assert forall|w: Seq<Step>| #[trigger] walk_between(edges, k, k, w) implies 0 <= cap(walk_len(edges, w)) by {
        lemma_walk_len_nonneg(edges, w);
    }
    assert(is_shortest(edges, k, k, 0));
    lemma_path_dist_is(edges, k, k, 0);
    assert(sq_dist(a, a) == 0);
    crate::geometry::lemma_floor_sqrt_is(0, 0);
}

impl StreetGraph {
    /// Network distances from `a` to each target, computed with a single shortest-path
    /// expansion from the node nearest to `a`.
    pub fn distances_from(&self, a: GeoPoint, targets: &Vec<GeoPoint>) -> (r: Vec<Option<u64>>)
        requires
            self.wf(),
        ensures
            r@.len() == targets@.len(),
            forall|i: int| 0 <= i < targets@.len() ==> opt_int(#[trigger] r@[i]) == net_dist(self.nodes@, self.edges@, a, targets@[i]),
    {
        let mut r: Vec<Option<u64>> = Vec::new();
        let na = match self.nearest_node(a) {
            Some(k) => k,
            None => {
                let mut i: usize = 0;
                while i < targets.len()
                    invariant
                        i <= targets@.len(),
                        r@.len() == i,
                        self.nodes@.len() == 0,
                        forall|k: int| 0 <= k < i ==> opt_int(#[trigger] r@[k]) == net_dist(self.nodes@, self.edges@, a, targets@[k]),
                    decreases targets@.len() - i,
                {
                    r.push(None);
                    i += 1;
                }
                return r;
            }
        };
        let snap_a = straight_distance(a, self.nodes[na]);
        let table = self.shortest_from(na);
        let mut i: usize = 0;
        while i < targets.len()
            invariant
                self.wf(),
                i <= targets@.len(),
                r@.len() == i,
                na < self.nodes@.len(),
                nearest_spec(self.nodes@, a) == Some(na as int),
                snap_a == straight_dist(a, self.nodes@[na as int]),
                table@.len() == self.nodes@.len(),
                forall|v: int| 0 <= v < table@.len() ==> (#[trigger] table@[v] matches Some(d) ==> is_shortest(self.edges@, na as int, v, d as int)),
                forall|v: int| 0 <= v < table@.len() ==> (#[trigger] table@[v] is None ==> forall|w: Seq<Step>| !walk_between(self.edges@, na as int, v, w)),
                forall|k: int| 0 <= k < i ==> opt_int(#[trigger] r@[k]) == net_dist(self.nodes@, self.edges@, a, targets@[k]),
            decreases targets@.len() - i,
        {
            let t = targets[i];
            let nb = match self.nearest_node(t) {
                Some(k) => k,
                None => 0,
            };
            let snap_b = straight_distance(t, self.nodes[nb]);
            let o = match table[nb] {
                Some(d) => {
                    proof {
                        lemma_path_dist_is(self.edges@, na as int, nb as int, d as int);
                    }
                    let d1: u64 = if d <= u64::MAX - snap_a { d + snap_a } else { u64::MAX };
                    let d2: u64 = if d1 <= u64::MAX - snap_b { d1 + snap_b } else { u64::MAX };
                    Some(d2)
                },
                None => {
                    proof {
                        lemma_path_dist_none(self.edges@, na as int, nb as int);
                    }
                    None
                },
            };
            r.push(o);
            i += 1;
        }
        r
    }

    /// Network distance between two points; `None` when no path connects them
    /// or the graph is empty.
    pub fn distance(&self, a: GeoPoint, b: GeoPoint) -> (r: Option<u64>)
        requires
            self.wf(),
        ensures
            opt_int(r) == net_dist(self.nodes@, self.edges@, a, b),
    {
        let targets = vec![b];
        let r = self.distances_from(a, &targets);
        r[0]
    }
}

/// The same edge, walked the other way.
pub open spec fn flip(st: Step) -> Step {
    (st.0, !st.1)
}

/// A walk traversed backwards.
pub open spec fn rev_walk(w: Seq<Step>) -> Seq<Step>
    decreases w.len(),
{
    if w.len() == 0 { w } else { seq![flip(w.last())] + rev_walk(w.drop_last()) }
}

proof fn lemma_prepend(edges: Seq<GraphEdge>, s: int, st: Step, w: Seq<Step>)
    requires
        0 <= st.0 < edges.len(),
        step_from(edges, st) == s,
        walk_ok(edges, step_to(edges, st), w),
    ensures
        walk_ok(edges, s, seq![st] + w),
        walk_end(edges, s, seq![st] + w) == walk_end(edges, step_to(edges, st), w),
        walk_len(edges, seq![st] + w) == edges[st.0].length + walk_len(edges, w),
    decreases w.len(),
{
    let p = seq![st] + w;
    if w.len() == 0 {
        assert(p.drop_last() =~= Seq::<Step>::empty());
        assert(walk_ok(edges, s, p.drop_last()));
        assert(walk_len(edges, p.drop_last()) == 0);
    } else {
        assert(p.drop_last() =~= seq![st] + w.drop_last());
        lemma_prepend(edges, s, st, w.drop_last());
        assert(p.last() == w.last());
    }
}

proof fn lemma_rev_walk(edges: Seq<GraphEdge>, s: int, w: Seq<Step>)
    requires
        walk_ok(edges, s, w),
    ensures
        walk_ok(edges, walk_end(edges, s, w), rev_walk(w)),
        walk_end(edges, walk_end(edges, s, w), rev_walk(w)) == s,
        walk_len(edges, rev_walk(w)) == walk_len(edges, w),
    decreases w.len(),
{
    if w.len() > 0 {
        let w0 = w.drop_last();
        lemma_rev_walk(edges, s, w0);
        lemma_prepend(edges, walk_end(edges, s, w), flip(w.last()), rev_walk(w0));
    }
}

proof fn lemma_shortest_flip(edges: Seq<GraphEdge>, u: int, v: int, d: int)
    requires
        is_shortest(edges, u, v, d),
    ensures
        is_shortest(edges, v, u, d),
{
    let w = choose|w: Seq<Step>| #[trigger] walk_between(edges, u, v, w) && cap(walk_len(edges, w)) == d;
    lemma_rev_walk(edges, u, w);
    assert(walk_between(edges, v, u, rev_walk(w)));
    assert forall|w2: Seq<Step>| #[trigger] walk_between(edges, v, u, w2) implies d <= cap(walk_len(edges, w2)) by {
        lemma_rev_walk(edges, v, w2);
        assert(walk_between(edges, u, v, rev_walk(w2)));
    }
}

/// Shortest-path length does not depend on the direction of travel.
pub proof fn lemma_path_dist_symmetric(edges: Seq<GraphEdge>, u: int, v: int)
    ensures
        path_dist(edges, u, v) == path_dist(edges, v, u),
{
    if exists|d: int| is_shortest(edges, u, v, d) {
        let d = choose|d: int| is_shortest(edges, u, v, d);
        lemma_shortest_flip(edges, u, v, d);
        lemma_path_dist_is(edges, u, v, d);
        lemma_path_dist_is(edges, v, u, d);
    } else if exists|d: int| is_shortest(edges, v, u, d) {
        let d = choose|d: int| is_shortest(edges, v, u, d);
        lemma_shortest_flip(edges, v, u, d);
    }
}

/// Network distance is symmetric: from `a` to `b` as from `b` to `a`.
pub proof fn lemma_distance_symmetric(g: StreetGraph, a: GeoPoint, b: GeoPoint)
    ensures
        net_dist(g.nodes@, g.edges@, a, b) == net_dist(g.nodes@, g.edges@, b, a),
{
    let nodes = g.nodes@;
    let edges = g.edges@;
    if nodes.len() > 0 {
        let na = nearest_spec(nodes, a)->0;
        let nb = nearest_spec(nodes, b)->0;
        lemma_path_dist_symmetric(edges, na, nb);
        if let Some(d) = path_dist(edges, na, nb) {
            let c = choose|d: int| is_shortest(edges, na, nb, d);
            let w = choose|w: Seq<Step>| #[trigger] walk_between(edges, na, nb, w) && cap(walk_len(edges, w)) == c;
            lemma_walk_len_nonneg(edges, w);
            assert(d >= 0);
        }
    }
}

} // verus!
