//! Choosing the point on a route where a new station covers the most new weight.
use vstd::prelude::*;
use crate::geometry::{GeoPoint, straight_dist, straight_distance};
use crate::graph::StreetGraph;
use crate::layers::Centroid;
use crate::coverage::{ids_of, Method, Routing, Station, StationCoverage, is_coverage, row_major, map_total, lemma_map_total, reach_row, in_range, metric, any_in, spread, first_nearest,
    lemma_relative_conserves, lemma_absolute_single, reach_table_for};

verus! {

/// Identifier given to the station under evaluation.
pub const CANDIDATE_ID: u64 = 0xffff_ffff_ffff_ffff;

/// The existing stations with a candidate station at `p` added last.
pub open spec fn with_candidate(stations: Seq<Station>, p: GeoPoint) -> Seq<Station> {
    stations.push(Station { id: CANDIDATE_ID, point: p })
}

/// Summed weight of the first `n` centroids that some station reaches.
pub open spec fn covered_weight(g: StreetGraph, routing: Routing, radius: u64, stations: Seq<Station>, cs: Seq<Centroid>, n: int) -> int
    decreases n,
{
    if n <= 0 {
        0
    } else {
        covered_weight(g, routing, radius, stations, cs, n - 1)
            + if any_in(reach_row(g, routing, radius, stations, cs[n - 1].point)) { cs[n - 1].weight as int } else { 0 }
    }
}

/// Summed weight that the coverage engine hands out over the first `n` centroids.
pub open spec fn engine_total(g: StreetGraph, routing: Routing, radius: u64, method: Method, stations: Seq<Station>, cs: Seq<Centroid>, n: int) -> int {
    row_major(g, routing, radius, method, stations, cs, n, stations.len() as int)
}

/// Weight newly covered by adding a station at `p`.
pub open spec fn marginal(g: StreetGraph, routing: Routing, radius: u64, stations: Seq<Station>, cs: Seq<Centroid>, p: GeoPoint) -> int {
    covered_weight(g, routing, radius, with_candidate(stations, p), cs, cs.len() as int)
        - covered_weight(g, routing, radius, stations, cs, cs.len() as int)
}

/// `p` lies within `search` (straight line) of some centroid.
pub open spec fn near_centroid(cs: Seq<Centroid>, p: GeoPoint, search: u64) -> bool {
    exists|i: int| 0 <= i < cs.len() && straight_dist(p, #[trigger] cs[i].point) <= search
}

/// The chosen point on the route and the weight it newly covers.
#[derive(Clone, Copy, Debug, PartialEq, Eq, Structural)]
pub struct OptimalStationResult {
    pub point: GeoPoint,
    /// Position of the point in the route.
    pub index: usize,
    pub gain: u128,
    pub method: Method,
    pub routing: Routing,
}

/// Why no station could be proposed.
#[derive(Clone, Copy, Debug, PartialEq, Eq, Structural)]
pub enum PlacementError {
    /// The route has no points.
    EmptyRoute,
    /// No route point lies within the search radius of a centroid.
    NoCandidate,
}

proof fn lemma_spread_absolute(ds: Seq<Option<u64>>, ids: Seq<u64>, w: int, n: int)
    requires
        0 <= n <= ds.len(),
    ensures
        spread(Method::Absolute, ds, ids, w, n) == if 0 <= first_nearest(ds, ds.len() as int) < n { w } else { 0 },
    decreases n,
{
    if n > 0 {
        lemma_spread_absolute(ds, ids, w, n - 1);
    }
}

proof fn lemma_spread_unreached(method: Method, ds: Seq<Option<u64>>, ids: Seq<u64>, w: int, n: int)
    requires
        0 <= n <= ds.len(),
        !any_in(ds),
    ensures
        spread(method, ds, ids, w, n) == 0,
    decreases n,
{
    if n > 0 {
        lemma_spread_unreached(method, ds, ids, w, n - 1);
        let j = n - 1;
        if first_nearest(ds, ds.len() as int) == j {
            crate::coverage::lemma_first_nearest_some(ds);
        }
        assert(ds[j] is None);
    }
}

/// The weight the coverage engine hands out is the weight of the centroids some station reaches.
pub proof fn lemma_engine_total(g: StreetGraph, routing: Routing, radius: u64, method: Method, stations: Seq<Station>, cs: Seq<Centroid>, n: int)
    requires
        0 <= n <= cs.len(),
    ensures
        engine_total(g, routing, radius, method, stations, cs, n) == covered_weight(g, routing, radius, stations, cs, n),
    decreases n,
{
    if n > 0 {
        lemma_engine_total(g, routing, radius, method, stations, cs, n - 1);
        let c = cs[n - 1];
        let ds = reach_row(g, routing, radius, stations, c.point);
        if any_in(ds) {
            let b = choose|b: int| 0 <= b < ds.len() && #[trigger] ds[b] is Some;
            assert(reach_row(g, routing, radius, stations, c.point)[b] is Some);
            match method {
                Method::Relative => lemma_relative_conserves(g, routing, radius, stations, c),
                Method::Absolute => {
                    lemma_absolute_single(g, routing, radius, stations, c);
                    lemma_spread_absolute(ds, ids_of(stations), c.weight as int, ds.len() as int);
                },
            }
        } else {
            lemma_spread_unreached(method, ds, ids_of(stations), c.weight as int, ds.len() as int);
        }
    }
}

/// The marginal gain of a candidate is the difference between the weight the coverage
/// engine hands out with the candidate added and without it, under either method.
pub proof fn lemma_gain_is_engine_difference(
    g: StreetGraph,
    routing: Routing,
    radius: u64,
    method: Method,
    stations: Seq<Station>,
    cs: Seq<Centroid>,
    p: GeoPoint,
)
    ensures
        marginal(g, routing, radius, stations, cs, p) == engine_total(g, routing, radius, method, with_candidate(stations, p), cs, cs.len() as int)
            - engine_total(g, routing, radius, method, stations, cs, cs.len() as int),
{
    lemma_engine_total(g, routing, radius, method, with_candidate(stations, p), cs, cs.len() as int);
    lemma_engine_total(g, routing, radius, method, stations, cs, cs.len() as int);
}

/// The marginal gain of a candidate is the summed station totals of the coverage map with the
/// candidate added, less those of the map without it.
pub proof fn lemma_gain_is_map_difference(
    g: StreetGraph,
    routing: Routing,
    radius: u64,
    method: Method,
    stations: Seq<Station>,
    cs: Seq<Centroid>,
    p: GeoPoint,
    without: Seq<StationCoverage>,
    with: Seq<StationCoverage>,
)
    requires
        is_coverage(g, routing, radius, method, stations, cs, without),
        is_coverage(g, routing, radius, method, with_candidate(stations, p), cs, with),
    ensures
        marginal(g, routing, radius, stations, cs, p) == map_total(with, with.len() as int) - map_total(without, without.len() as int),
{
    lemma_map_total(g, routing, radius, method, stations, cs, without);
    lemma_map_total(g, routing, radius, method, with_candidate(stations, p), cs, with);
    lemma_gain_is_engine_difference(g, routing, radius, method, stations, cs, p);
}

/// The row of a point with a station added is the old row with the new station's entry appended.
proof fn lemma_row_with(g: StreetGraph, routing: Routing, radius: u64, stations: Seq<Station>, p: GeoPoint, q: GeoPoint)
    ensures
        any_in(reach_row(g, routing, radius, with_candidate(stations, p), q))
            == (any_in(reach_row(g, routing, radius, stations, q)) || in_range(metric(g, routing, p, q), radius) is Some),
{
    let old_row = reach_row(g, routing, radius, stations, q);
    let new_row = reach_row(g, routing, radius, with_candidate(stations, p), q);
    assert(new_row =~= old_row.push(in_range(metric(g, routing, p, q), radius)));
    if any_in(new_row) {
        let b = choose|b: int| 0 <= b < new_row.len() && #[trigger] new_row[b] is Some;
        if b < old_row.len() {
            assert(old_row[b] is Some);
        }
    }
    if any_in(old_row) {
        let b = choose|b: int| 0 <= b < old_row.len() && #[trigger] old_row[b] is Some;
        assert(new_row[b] is Some);
    }
    if in_range(metric(g, routing, p, q), radius) is Some {
        assert(new_row[old_row.len() as int] is Some);
    }
}

/// Weight of the first `n` centroids reached by a station at `p` and by no existing one.
pub open spec fn fresh_weight(g: StreetGraph, routing: Routing, radius: u64, stations: Seq<Station>, cs: Seq<Centroid>, p: GeoPoint, n: int) -> int
    decreases n,
{
    if n <= 0 {
        0
    } else {
        fresh_weight(g, routing, radius, stations, cs, p, n - 1) + if !any_in(reach_row(g, routing, radius, stations, cs[n - 1].point))
            && in_range(metric(g, routing, p, cs[n - 1].point), radius) is Some {
            cs[n - 1].weight as int
        } else {
            0
        }
    }
}

proof fn lemma_fresh_is_marginal(g: StreetGraph, routing: Routing, radius: u64, stations: Seq<Station>, cs: Seq<Centroid>, p: GeoPoint, n: int)
    requires
        0 <= n <= cs.len(),
    ensures
        fresh_weight(g, routing, radius, stations, cs, p, n) == covered_weight(g, routing, radius, with_candidate(stations, p), cs, n)
            - covered_weight(g, routing, radius, stations, cs, n),
    decreases n,
{
    if n > 0 {
        lemma_fresh_is_marginal(g, routing, radius, stations, cs, p, n - 1);
        lemma_row_with(g, routing, radius, stations, p, cs[n - 1].point);
    }
}

/// `r` is the answer for placing a station on `route`: an error exactly when the route is empty
/// or no point of it is within `search` of a centroid; otherwise the route point within `search`
/// of a centroid whose marginal gain is largest, the earliest on a tie.
pub open spec fn is_placement(
    route: Seq<GeoPoint>,
    search: u64,
    cs: Seq<Centroid>,
    stations: Seq<Station>,
    method: Method,
    routing: Routing,
    radius: u64,
    g: StreetGraph,
    r: Result<OptimalStationResult, PlacementError>,
) -> bool {
    &&& (r == Err::<OptimalStationResult, PlacementError>(PlacementError::EmptyRoute) <==> route.len() == 0)
    &&& (r == Err::<OptimalStationResult, PlacementError>(PlacementError::NoCandidate) <==> (route.len() > 0
        && forall|k: int| 0 <= k < route.len() ==> !near_centroid(cs, #[trigger] route[k], search)))
    &&& (r matches Ok(res) ==> {
        &&& res.index < route.len()
        &&& res.point == route[res.index as int]
        &&& res.method == method
        &&& res.routing == routing
        &&& near_centroid(cs, res.point, search)
        &&& res.gain == marginal(g, routing, radius, stations, cs, res.point)
        &&& forall|k: int| 0 <= k < route.len() && near_centroid(cs, #[trigger] route[k], search)
            ==> marginal(g, routing, radius, stations, cs, route[k]) <= res.gain
        &&& forall|k: int| 0 <= k < res.index && near_centroid(cs, #[trigger] route[k], search)
            ==> marginal(g, routing, radius, stations, cs, route[k]) < res.gain
    })
}

/// Whether some centroid lies within `search` of `p` in a straight line.
fn near_any(centroids: &Vec<Centroid>, p: GeoPoint, search: u64) -> (r: bool)
    ensures
        r == near_centroid(centroids@, p, search),
{
    let mut i: usize = 0;
    while i < centroids.len()
        invariant
            i <= centroids@.len(),
            forall|k: int| 0 <= k < i ==> straight_dist(p, #[trigger] centroids@[k].point) > search,
        decreases centroids@.len() - i,
    {
        if straight_distance(p, centroids[i].point) <= search {
            return true;
        }
        i += 1;
    }
    false
}

/// Whether each centroid is reached by some existing station.
fn reached_flags(g: &StreetGraph, routing: Routing, radius: u64, stations: &Vec<Station>, points: &Vec<GeoPoint>) -> (r: Vec<bool>)
    requires
        g.wf(),
    ensures
        r@.len() == points@.len(),
        forall|i: int| 0 <= i < points@.len() ==> #[trigger] r@[i] == any_in(reach_row(*g, routing, radius, stations@, points@[i])),
{
    let np = points.len();
    let mut flags: Vec<bool> = Vec::new();
    let mut i: usize = 0;
    while i < np
        invariant
            np == points@.len(),
            i <= np,
            flags@.len() == i,
            forall|k: int| 0 <= k < i ==> #[trigger] flags@[k] == false,
        decreases np - i,
    {
        flags.push(false);
        i += 1;
    }
    let mut j: usize = 0;
    while j < stations.len()
        invariant
            g.wf(),
            np == points@.len(),
            flags@.len() == np,
            j <= stations@.len(),
            forall|k: int| 0 <= k < np ==> #[trigger] flags@[k] == exists|b: int| 0 <= b < j
                && #[trigger] in_range(metric(*g, routing, stations@[b].point, points@[k]), radius) is Some,
        decreases stations@.len() - j,
    {
        let row = reach_table_for(g, routing, radius, stations[j], points);
        let mut i: usize = 0;
        while i < np
            invariant
                np == points@.len(),
                flags@.len() == np,
                j < stations@.len(),
                row@.len() == np,
                i <= np,
                forall|k: int| 0 <= k < np ==> #[trigger] row@[k] == in_range(metric(*g, routing, stations@[j as int].point, points@[k]), radius),
                forall|k: int| 0 <= k < i ==> #[trigger] flags@[k] == exists|b: int| 0 <= b < j + 1
                    && #[trigger] in_range(metric(*g, routing, stations@[b].point, points@[k]), radius) is Some,
                forall|k: int| i <= k < np ==> #[trigger] flags@[k] == exists|b: int| 0 <= b < j
                    && #[trigger] in_range(metric(*g, routing, stations@[b].point, points@[k]), radius) is Some,
            decreases np - i,
        {
            let f = flags[i] || row[i].is_some();
            proof {
                let ex_new = exists|b: int| 0 <= b < j + 1
                    && #[trigger] in_range(metric(*g, routing, stations@[b].point, points@[i as int]), radius) is Some;
                if flags@[i as int] {
                    let b = choose|b: int| 0 <= b < j
                        && #[trigger] in_range(metric(*g, routing, stations@[b].point, points@[i as int]), radius) is Some;
                    assert(ex_new);
                }
                if row@[i as int] is Some {
                    assert(in_range(metric(*g, routing, stations@[j as int].point, points@[i as int]), radius) is Some);
                    assert(ex_new);
                }
                if ex_new {
                    let b = choose|b: int| 0 <= b < j + 1
                        && #[trigger] in_range(metric(*g, routing, stations@[b].point, points@[i as int]), radius) is Some;
                    if b < j {
                        assert(flags@[i as int]);
                    }
                }
            }
            flags.set(i, f);
            i += 1;
        }
        j += 1;
    }
    proof {
        assert forall|i: int| 0 <= i < points@.len() implies #[trigger] flags@[i] == any_in(reach_row(*g, routing, radius, stations@, points@[i])) by {
            let row = reach_row(*g, routing, radius, stations@, points@[i]);
            if flags@[i] {
                let b = choose|b: int| 0 <= b < stations@.len()
                    && #[trigger] in_range(metric(*g, routing, stations@[b].point, points@[i]), radius) is Some;
                assert(row[b] is Some);
            }
            if any_in(row) {
                let b = choose|b: int| 0 <= b < row.len() && #[trigger] row[b] is Some;
                assert(in_range(metric(*g, routing, stations@[b].point, points@[i]), radius) is Some);
            }
        }
    }
    flags
}

/// The route point, within `search` of some centroid, whose addition as a station newly
/// covers the most weight; the earliest such point on a tie.
pub fn find_optimal_station(
    route: &Vec<GeoPoint>,
    search: u64,
    centroids: &Vec<Centroid>,
    stations: &Vec<Station>,
    method: Method,
    routing: Routing,
    radius: u64,
    g: &StreetGraph,
) -> (r: Result<OptimalStationResult, PlacementError>)
    requires
        g.wf(),
    ensures
        is_placement(route@, search, centroids@, stations@, method, routing, radius, *g, r),
{
    if route.len() == 0 {
        return Err(PlacementError::EmptyRoute);
    }
    let nc = centroids.len();
    let mut points: Vec<GeoPoint> = Vec::new();
    let mut i: usize = 0;
    while i < nc
        invariant
            nc == centroids@.len(),
            i <= nc,
            points@.len() == i,
            forall|k: int| 0 <= k < i ==> #[trigger] points@[k] == centroids@[k].point,
        decreases nc - i,
    {
        points.push(centroids[i].point);
        i += 1;
    }
    let reached = reached_flags(g, routing, radius, stations, &points);
    let mut best: Option<OptimalStationResult> = None;
    let mut k: usize = 0;
    while k < route.len()
        invariant
            g.wf(),
            nc == centroids@.len(),
            points@.len() == nc,
            forall|x: int| 0 <= x < nc ==> #[trigger] points@[x] == centroids@[x].point,
            reached@.len() == nc,
            forall|x: int| 0 <= x < nc ==> #[trigger] reached@[x] == any_in(reach_row(*g, routing, radius, stations@, points@[x])),
            k <= route@.len(),
            best is None <==> forall|x: int| 0 <= x < k ==> !near_centroid(centroids@, #[trigger] route@[x], search),
            best matches Some(res) ==> {
                &&& res.index < k
                &&& res.point == route@[res.index as int]
                &&& res.method == method
                &&& res.routing == routing
                &&& near_centroid(centroids@, res.point, search)
                &&& res.gain == marginal(*g, routing, radius, stations@, centroids@, res.point)
                &&& forall|x: int| 0 <= x < k && near_centroid(centroids@, #[trigger] route@[x], search)
                    ==> marginal(*g, routing, radius, stations@, centroids@, route@[x]) <= res.gain
                &&& forall|x: int| 0 <= x < res.index && near_centroid(centroids@, #[trigger] route@[x], search)
                    ==> marginal(*g, routing, radius, stations@, centroids@, route@[x]) < res.gain
            },
        decreases route@.len() - k,
    {
        let p = route[k];
        if near_any(centroids, p, search) {
            let gain = fresh_gain(g, routing, radius, stations, centroids, &points, &reached, p);
            let take = match best {
                Some(b) => gain > b.gain,
                None => true,
            };
            if take {
                best = Some(OptimalStationResult { point: p, index: k, gain, method, routing });
            }
        }
        k += 1;
    }
    match best {
        Some(b) => Ok(b),
        None => Err(PlacementError::NoCandidate),
    }
}

/// Weight of the centroids a station at `p` reaches and no existing station does.
fn fresh_gain(
    g: &StreetGraph,
    routing: Routing,
    radius: u64,
    stations: &Vec<Station>,
    centroids: &Vec<Centroid>,
    points: &Vec<GeoPoint>,
    reached: &Vec<bool>,
    p: GeoPoint,
) -> (r: u128)
    requires
        g.wf(),
        points@.len() == centroids@.len(),
        forall|x: int| 0 <= x < centroids@.len() ==> #[trigger] points@[x] == centroids@[x].point,
        reached@.len() == centroids@.len(),
        forall|x: int| 0 <= x < centroids@.len() ==> #[trigger] reached@[x] == any_in(reach_row(*g, routing, radius, stations@, points@[x])),
    ensures
        r == marginal(*g, routing, radius, stations@, centroids@, p),
{
    let cand = Station { id: CANDIDATE_ID, point: p };
    let row = reach_table_for(g, routing, radius, cand, points);
    let nc = centroids.len();
    let mut total: u128 = 0;
    let mut i: usize = 0;
    while i < nc
        invariant
            nc == centroids@.len(),
            points@.len() == nc,
            forall|x: int| 0 <= x < nc ==> #[trigger] points@[x] == centroids@[x].point,
            reached@.len() == nc,
            forall|x: int| 0 <= x < nc ==> #[trigger] reached@[x] == any_in(reach_row(*g, routing, radius, stations@, points@[x])),
            row@.len() == nc,
            forall|x: int| 0 <= x < nc ==> #[trigger] row@[x] == in_range(metric(*g, routing, p, points@[x]), radius),
            i <= nc,
            total == fresh_weight(*g, routing, radius, stations@, centroids@, p, i as int),
            total <= i * (u64::MAX as int),
        decreases nc - i,
    {
        assert(points@[i as int] == centroids@[i as int].point);
        if !reached[i] && row[i].is_some() {
            assert((i + 1) * (u64::MAX as int) <= u128::MAX) by (nonlinear_arith)
                requires i < nc, nc <= usize::MAX;
            total = total + centroids[i].weight as u128;
        }
        i += 1;
    }
    proof {
        lemma_fresh_is_marginal(*g, routing, radius, stations@, centroids@, p, nc as int);
    }
    total
}

} // verus!
