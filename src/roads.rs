//! Building the street graph out of tagged way geometry.
use vstd::prelude::*;
use crate::geometry::{GeoPoint, straight_dist, straight_distance};
use crate::graph::{GraphEdge, StreetGraph, cap};

verus! {

/// A tagged way geometry: an ordered polyline, and whether it is a road.
#[derive(Clone, Debug)]
pub struct Way {
    pub road: bool,
    pub points: Vec<GeoPoint>,
}

/// Vertex `i` of way `w` exists and lies on a road.
pub open spec fn road_vertex(ways: Seq<Way>, w: int, i: int) -> bool {
    0 <= w < ways.len() && ways[w].road && 0 <= i < ways[w].points@.len()
}

/// Another road vertex stands at the same place as vertex `i` of way `w`.
pub open spec fn shared_at(ways: Seq<Way>, w: int, i: int) -> bool {
    exists|w2: int, i2: int| #[trigger] road_vertex(ways, w2, i2) && (w2 != w || i2 != i)
        && ways[w2].points@[i2] == ways[w].points@[i]
}

/// Vertex `i` of way `w` is a way's endpoint or is shared with another road vertex.
pub open spec fn node_at(ways: Seq<Way>, w: int, i: int) -> bool {
    road_vertex(ways, w, i) && (i == 0 || i == ways[w].points@.len() - 1 || shared_at(ways, w, i))
}

/// A graph node stands at `p`.
pub open spec fn is_node_point(ways: Seq<Way>, p: GeoPoint) -> bool {
    exists|w: int, i: int| #[trigger] node_at(ways, w, i) && ways[w].points@[i] == p
}

/// Summed straight-line length of a polyline, saturating.
pub open spec fn poly_len(pts: Seq<GeoPoint>) -> int
    decreases pts.len(),
{
    if pts.len() <= 1 {
        0
    } else {
        cap(poly_len(pts.drop_last()) + straight_dist(pts[pts.len() - 2], pts.last()))
    }
}

/// `e` runs along a stretch of one road between two nodes, with no node inside it,
/// and its length is that of its geometry.
pub open spec fn edge_ok(ways: Seq<Way>, nodes: Seq<GeoPoint>, e: GraphEdge) -> bool {
    let geo = e.geometry@;
    &&& geo.len() >= 2
    &&& exists|w: int, s: int| #[trigger] road_vertex(ways, w, s) && s + geo.len() <= ways[w].points@.len()
        && geo == ways[w].points@.subrange(s, s + geo.len())
    &&& e.a < nodes.len() && e.b < nodes.len()
    &&& nodes[e.a as int] == geo[0]
    &&& nodes[e.b as int] == geo.last()
    &&& e.length == poly_len(geo)
    &&& forall|t: int| 0 < t < geo.len() - 1 ==> !nodes.contains(#[trigger] geo[t])
}

/// `e` runs along way `w` from its vertex `s`, through the segment that ends at vertex `i`.
pub open spec fn edge_spans(ways: Seq<Way>, e: GraphEdge, w: int, s: int, i: int) -> bool {
    let geo = e.geometry@;
    &&& 0 <= s < i < s + geo.len()
    &&& s + geo.len() <= ways[w].points@.len()
    &&& geo == ways[w].points@.subrange(s, s + geo.len())
}

/// The segment of way `w` that ends at its vertex `i` lies on one of the edges.
pub open spec fn seg_covered(ways: Seq<Way>, edges: Seq<GraphEdge>, w: int, i: int) -> bool {
    exists|k: int, s: int| 0 <= k < edges.len() && #[trigger] edge_spans(ways, edges[k], w, s, i)
}

/// Coverage of a segment survives adding edges.
proof fn lemma_covered_grows(ways: Seq<Way>, edges: Seq<GraphEdge>, e: GraphEdge, w: int, i: int)
    requires
        seg_covered(ways, edges, w, i),
    ensures
        seg_covered(ways, edges.push(e), w, i),
{
    let (k, s) = choose|k: int, s: int| 0 <= k < edges.len() && #[trigger] edge_spans(ways, edges[k], w, s, i);
    assert(edges.push(e)[k] == edges[k]);
    assert(edge_spans(ways, edges.push(e)[k], w, s, i));
}

/// Whether another road vertex stands where vertex `i` of way `w` does.
fn shared_vertex(ways: &Vec<Way>, w: usize, i: usize) -> (r: bool)
    requires
        road_vertex(ways@, w as int, i as int),
    ensures
        r == shared_at(ways@, w as int, i as int),
{
    let p = ways[w].points[i];
    let mut w2: usize = 0;
    while w2 < ways.len()
        invariant
            road_vertex(ways@, w as int, i as int),
            p == ways@[w as int].points@[i as int],
            w2 <= ways@.len(),
            forall|w3: int, i3: int| 0 <= w3 < w2 && #[trigger] road_vertex(ways@, w3, i3) && (w3 != w || i3 != i)
                ==> ways@[w3].points@[i3] != p,
        decreases ways@.len() - w2,
    {
        if ways[w2].road {
            let mut i2: usize = 0;
            while i2 < ways[w2].points.len()
                invariant
                    road_vertex(ways@, w as int, i as int),
                    p == ways@[w as int].points@[i as int],
                    w2 < ways@.len(),
                    ways@[w2 as int].road,
                    i2 <= ways@[w2 as int].points@.len(),
                    forall|w3: int, i3: int| 0 <= w3 < w2 && #[trigger] road_vertex(ways@, w3, i3) && (w3 != w || i3 != i)
                        ==> ways@[w3].points@[i3] != p,
                    forall|i3: int| 0 <= i3 < i2 && (w2 != w || i3 != i) ==> #[trigger] ways@[w2 as int].points@[i3] != p,
                decreases ways@[w2 as int].points@.len() - i2,
            {
                if (w2 != w || i2 != i) && ways[w2].points[i2] == p {
                    assert(road_vertex(ways@, w2 as int, i2 as int));
                    return true;
                }
                i2 += 1;
            }
        }
        w2 += 1;
    }
    false
}

/// Position of `p` in `nodes`, if it is there.
fn index_of(nodes: &Vec<GeoPoint>, p: GeoPoint) -> (r: Option<usize>)
    ensures
        r matches Some(k) ==> k < nodes@.len() && nodes@[k as int] == p,
        r is None ==> !nodes@.contains(p),
{
    let mut k: usize = 0;
    while k < nodes.len()
        invariant
            k <= nodes@.len(),
            forall|x: int| 0 <= x < k ==> nodes@[x] != p,
        decreases nodes@.len() - k,
    {
        if nodes[k] == p {
            return Some(k);
        }
        k += 1;
    }
    None
}

/// The distinct places where graph nodes stand: road endpoints and shared road vertices.
fn collect_nodes(ways: &Vec<Way>) -> (r: Vec<GeoPoint>)
    ensures
        forall|a: int, b: int| 0 <= a < b < r@.len() ==> r@[a] != r@[b],
        forall|k: int| 0 <= k < r@.len() ==> is_node_point(ways@, #[trigger] r@[k]),
        forall|w: int, i: int| #[trigger] node_at(ways@, w, i) ==> r@.contains(ways@[w].points@[i]),
{
    let mut nodes: Vec<GeoPoint> = Vec::new();
    let mut w: usize = 0;
    while w < ways.len()
        invariant
            w <= ways@.len(),
            forall|a: int, b: int| 0 <= a < b < nodes@.len() ==> nodes@[a] != nodes@[b],
            forall|k: int| 0 <= k < nodes@.len() ==> is_node_point(ways@, #[trigger] nodes@[k]),
            forall|w3: int, i3: int| 0 <= w3 < w && #[trigger] node_at(ways@, w3, i3) ==> nodes@.contains(ways@[w3].points@[i3]),
        decreases ways@.len() - w,
    {
        if ways[w].road {
            let n = ways[w].points.len();
            let mut i: usize = 0;
            while i < n
                invariant
                    w < ways@.len(),
                    ways@[w as int].road,
                    n == ways@[w as int].points@.len(),
                    i <= n,
                    forall|a: int, b: int| 0 <= a < b < nodes@.len() ==> nodes@[a] != nodes@[b],
                    forall|k: int| 0 <= k < nodes@.len() ==> is_node_point(ways@, #[trigger] nodes@[k]),
                    forall|w3: int, i3: int| 0 <= w3 < w && #[trigger] node_at(ways@, w3, i3) ==> nodes@.contains(ways@[w3].points@[i3]),
                    forall|i3: int| 0 <= i3 < i && #[trigger] node_at(ways@, w as int, i3) ==> nodes@.contains(ways@[w as int].points@[i3]),
                decreases n - i,
            {
                assert(road_vertex(ways@, w as int, i as int));
                let p = ways[w].points[i];
                let is_node = i == 0 || i == n - 1 || shared_vertex(ways, w, i);
                if is_node {
                    assert(node_at(ways@, w as int, i as int));
                    assert(is_node_point(ways@, p));
                    match index_of(&nodes, p) {
                        Some(_) => {},
                        None => {
                            let ghost old_nodes = nodes@;
                            nodes.push(p);
                            assert forall|x: GeoPoint| old_nodes.contains(x) implies nodes@.contains(x) by {
                                let y = choose|y: int| 0 <= y < old_nodes.len() && old_nodes[y] == x;
                                assert(nodes@[y] == x);
                            }
                            assert(nodes@[old_nodes.len() as int] == p);
                        },
                    }
                    assert(nodes@.contains(p));
                }
                i += 1;
            }
        }
        w += 1;
    }
    nodes
}

/// Builds the street graph of the road ways: a node at every road endpoint and at every
/// place shared by two road vertices, an edge for each stretch of road between two nodes.
/// Ways that are not roads are ignored.
pub fn from_ways(ways: &Vec<Way>) -> (r: StreetGraph)
    ensures
        r.wf(),
        forall|a: int, b: int| 0 <= a < b < r.nodes@.len() ==> r.nodes@[a] != r.nodes@[b],
        forall|k: int| 0 <= k < r.nodes@.len() ==> is_node_point(ways@, #[trigger] r.nodes@[k]),
        forall|w: int, i: int| #[trigger] node_at(ways@, w, i) ==> r.nodes@.contains(ways@[w].points@[i]),
        forall|k: int| 0 <= k < r.edges@.len() ==> edge_ok(ways@, r.nodes@, #[trigger] r.edges@[k]),
        forall|w: int, i: int| #[trigger] road_vertex(ways@, w, i) && i >= 1 ==> seg_covered(ways@, r.edges@, w, i),
{
    let nodes = collect_nodes(ways);
    let mut edges: Vec<GraphEdge> = Vec::new();
    let mut w: usize = 0;
    while w < ways.len()
        invariant
            w <= ways@.len(),
            forall|w3: int, i3: int| #[trigger] node_at(ways@, w3, i3) ==> nodes@.contains(ways@[w3].points@[i3]),
            forall|k: int| 0 <= k < edges@.len() ==> edge_ok(ways@, nodes@, #[trigger] edges@[k]),
            forall|w3: int, i3: int| 0 <= w3 < w && #[trigger] road_vertex(ways@, w3, i3) && i3 >= 1 ==> seg_covered(ways@, edges@, w3, i3),
        decreases ways@.len() - w,
    {
        let n = ways[w].points.len();
        if ways[w].road && n > 0 {
            let pts = &ways[w].points;
            assert(node_at(ways@, w as int, 0));
            let mut sa: usize = match index_of(&nodes, pts[0]) {
                Some(k) => k,
                None => 0,
            };
            let mut start: usize = 0;
            let mut geom: Vec<GeoPoint> = Vec::new();
            geom.push(pts[0]);
            let mut acc: u64 = 0;
            let mut i: usize = 1;
            assert(geom@ == pts@.subrange(0, 1));
            while i < n
                invariant
                    w < ways@.len(),
                    ways@[w as int].road,
                    pts@ == ways@[w as int].points@,
                    n == pts@.len(),
                    forall|w3: int, i3: int| #[trigger] node_at(ways@, w3, i3) ==> nodes@.contains(ways@[w3].points@[i3]),
                    forall|k: int| 0 <= k < edges@.len() ==> edge_ok(ways@, nodes@, #[trigger] edges@[k]),
                    1 <= i <= n,
                    start < i,
                    geom@ == pts@.subrange(start as int, i as int),
                    acc == poly_len(geom@),
                    sa < nodes@.len(),
                    nodes@[sa as int] == pts@[start as int],
                    forall|t: int| start < t < i ==> !nodes@.contains(#[trigger] pts@[t]),
                    forall|w3: int, i3: int| 0 <= w3 < w && #[trigger] road_vertex(ways@, w3, i3) && i3 >= 1 ==> seg_covered(ways@, edges@, w3, i3),
                    forall|t: int| 1 <= t <= start ==> seg_covered(ways@, edges@, w as int, t),
                decreases n - i,
            {
                let d = straight_distance(pts[i - 1], pts[i]);
                let ghost g0 = geom@;
                geom.push(pts[i]);
                acc = if acc <= u64::MAX - d { acc + d } else { u64::MAX };
                proof {
                    assert(geom@ == pts@.subrange(start as int, i + 1));
                    assert(geom@.drop_last() == g0);
                    assert(geom@[geom@.len() - 2] == pts@[i - 1]);
                }
                match index_of(&nodes, pts[i]) {
                    Some(k) => {
                        let e = GraphEdge { a: sa, b: k, length: acc, geometry: geom };
                        proof {
                            assert(road_vertex(ways@, w as int, start as int));
                            assert forall|t: int| 0 < t < e.geometry@.len() - 1 implies !nodes@.contains(#[trigger] e.geometry@[t]) by {
                                assert(e.geometry@[t] == pts@[start + t]);
                            }
                            assert(edge_ok(ways@, nodes@, e));
                        }
                        let ghost old_edges = edges@;
                        edges.push(e);
                        proof {
                            assert forall|w3: int, i3: int| 0 <= w3 < w && #[trigger] road_vertex(ways@, w3, i3) && i3 >= 1
                                implies seg_covered(ways@, edges@, w3, i3) by {
                                lemma_covered_grows(ways@, old_edges, e, w3, i3);
                            }
                            assert forall|t: int| 1 <= t <= i implies seg_covered(ways@, edges@, w as int, t) by {
                                if t <= start {
                                    lemma_covered_grows(ways@, old_edges, e, w as int, t);
                                } else {
                                    assert(edges@[old_edges.len() as int] == e);
                                    assert(edge_spans(ways@, edges@[old_edges.len() as int], w as int, start as int, t));
                                }
                            }
                        }
                        sa = k;
                        start = i;
                        geom = Vec::new();
                        geom.push(pts[i]);
                        acc = 0;
                        assert(geom@ == pts@.subrange(i as int, i + 1));
                    },
                    None => {},
                }
                i += 1;
            }
            proof {
                assert(node_at(ways@, w as int, n - 1));
                assert(nodes@.contains(pts@[n - 1]));
                assert(start == n - 1);
            }
        }
        w += 1;
    }
    let r = StreetGraph { nodes, edges };
    assert forall|k: int| 0 <= k < r.edges@.len() implies #[trigger] r.edges@[k].links(r.nodes@.len() as int) by {
        assert(edge_ok(ways@, r.nodes@, r.edges@[k]));
    }
    r
}

} // verus!
