//! Coverage of centroids by stations under an allocation method and a routing metric.
use vstd::prelude::*;
use crate::geometry::{GeoPoint, straight_dist, straight_distance};
use crate::graph::{StreetGraph, net_dist, opt_int};
use crate::layers::Centroid;

verus! {

/// How a centroid's weight is shared among the stations that reach it.
#[derive(Clone, Copy, Debug, PartialEq, Eq, Structural)]
pub enum Method {
    /// Split among the stations in range in proportion to the inverse of their distance;
    /// where some stand at distance zero, among those alone.
    Relative,
    /// Given whole to the nearest station in range.
    Absolute,
}

/// Which metric measures the way from a station to a centroid.
#[derive(Clone, Copy, Debug, PartialEq, Eq, Structural)]
pub enum Routing {
    /// Shortest path over the street graph.
    Osm,
    /// Straight line.
    Direct,
}

/// Scale of the inverse-distance factors: `SCALE / d` is never zero for a positive `u64` distance.
pub const SCALE: u128 = 0x1_0000_0000_0000_0000;

/// Some station stands at distance zero.
pub open spec fn has_zero(ds: Seq<Option<u64>>) -> bool {
    exists|j: int| 0 <= j < ds.len() && #[trigger] ds[j] == Some(0u64)
}

/// Weight factor of entry `j`: `SCALE / d`, inverse to its distance `d`; where some station
/// stands at distance zero, one for each such station and zero for the others; zero out of range.
pub open spec fn factor(ds: Seq<Option<u64>>, j: int) -> int {
    match ds[j] {
        None => 0,
        Some(d) => if has_zero(ds) {
            if d == 0 { 1 } else { 0 }
        } else {
            SCALE as int / d as int
        },
    }
}

/// Sum of the factors of the first `n` entries.
pub open spec fn fsum(ds: Seq<Option<u64>>, n: int) -> int
    decreases n,
{
    if n <= 0 { 0 } else { fsum(ds, n - 1) + factor(ds, n - 1) }
}

/// Floored proportional share of a station with factor `f` out of `total`.
pub open spec fn floor_share(w: int, f: int, total: int) -> int {
    w * f / total
}

/// Sum of the floored shares of the first `n` entries.
pub open spec fn qsum(ds: Seq<Option<u64>>, w: int, total: int, n: int) -> int
    decreases n,
{
    if n <= 0 {
        0
    } else {
        qsum(ds, w, total, n - 1) + if factor(ds, n - 1) > 0 { floor_share(w, factor(ds, n - 1), total) } else { 0 }
    }
}

/// The in-range entry among the first `n` that receives the rounding remainder: the nearest,
/// then the one with the smallest station id, then the lowest index; -1 when none is in range.
pub open spec fn receiver(ds: Seq<Option<u64>>, ids: Seq<u64>, n: int) -> int
    decreases n,
{
    if n <= 0 {
        -1
    } else {
        let b = receiver(ds, ids, n - 1);
        if ds[n - 1] is Some && (b < 0 || ds[n - 1]->0 < ds[b]->0 || (ds[n - 1]->0 == ds[b]->0 && ids[n - 1] < ids[b])) {
            n - 1
        } else {
            b
        }
    }
}

/// Index of the nearest in-range entry among the first `n`, the lowest index on a tie, or -1.
pub open spec fn first_nearest(ds: Seq<Option<u64>>, n: int) -> int
    decreases n,
{
    if n <= 0 {
        -1
    } else {
        let b = first_nearest(ds, n - 1);
        if ds[n - 1] is Some && (b < 0 || ds[n - 1]->0 < ds[b]->0) { n - 1 } else { b }
    }
}

/// The share of entry `j` of a centroid of weight `w`, given the in-range distances `ds` and
/// the stations' ids: `None` where the station is not attributed the centroid.
pub open spec fn share_of(method: Method, ds: Seq<Option<u64>>, ids: Seq<u64>, w: int, j: int) -> Option<int> {
    match method {
        Method::Absolute => if j == first_nearest(ds, ds.len() as int) { Some(w) } else { None },
        Method::Relative => if factor(ds, j) <= 0 {
            None
        } else {
            let total = fsum(ds, ds.len() as int);
            let q = floor_share(w, factor(ds, j), total);
            if j == receiver(ds, ids, ds.len() as int) {
                Some(q + (w - qsum(ds, w, total, ds.len() as int)))
            } else {
                Some(q)
            }
        },
    }
}

/// Sum of the attributed shares among the first `n`.
pub open spec fn share_total(r: Seq<Option<u64>>, n: int) -> int
    decreases n,
{
    if n <= 0 {
        0
    } else {
        share_total(r, n - 1) + match r[n - 1] {
            Some(x) => x as int,
            None => 0,
        }
    }
}

/// Some entry of `ds` is in range.
pub open spec fn any_in(ds: Seq<Option<u64>>) -> bool {
    exists|j: int| 0 <= j < ds.len() && #[trigger] ds[j] is Some
}

proof fn lemma_receiver(ds: Seq<Option<u64>>, ids: Seq<u64>, n: int)
    requires
        0 <= n <= ds.len(),
    ensures
        -1 <= receiver(ds, ids, n) < n,
        receiver(ds, ids, n) >= 0 ==> ds[receiver(ds, ids, n)] is Some,
        receiver(ds, ids, n) < 0 ==> forall|k: int| 0 <= k < n ==> #[trigger] ds[k] is None,
        forall|k: int| 0 <= k < n && #[trigger] ds[k] is Some ==> ds[receiver(ds, ids, n)]->0 <= ds[k]->0,
    decreases n,
{
    if n > 0 {
        lemma_receiver(ds, ids, n - 1);
    }
}

proof fn lemma_first_nearest(ds: Seq<Option<u64>>, n: int)
    requires
        0 <= n <= ds.len(),
    ensures
        -1 <= first_nearest(ds, n) < n,
        first_nearest(ds, n) >= 0 ==> ds[first_nearest(ds, n)] is Some,
        first_nearest(ds, n) < 0 ==> forall|k: int| 0 <= k < n ==> #[trigger] ds[k] is None,
        forall|k: int| 0 <= k < n && #[trigger] ds[k] is Some ==> ds[first_nearest(ds, n)]->0 <= ds[k]->0,
        forall|k: int| 0 <= k < first_nearest(ds, n) && #[trigger] ds[k] is Some ==> ds[first_nearest(ds, n)]->0 < ds[k]->0,
    decreases n,
{
    if n > 0 {
        lemma_first_nearest(ds, n - 1);
    }
}

proof fn lemma_factor(ds: Seq<Option<u64>>, j: int)
    requires
        0 <= j < ds.len(),
    ensures
        0 <= factor(ds, j) <= SCALE,
        factor(ds, j) > 0 <==> (ds[j] is Some && (!has_zero(ds) || ds[j]->0 == 0)),
{
    if let Some(d) = ds[j] {
        if !has_zero(ds) {
            if d == 0 {
                assert(ds[j] == Some(0u64));
            }
            assert(SCALE as int / d as int >= 1 && SCALE as int / d as int <= SCALE) by (nonlinear_arith)
                requires 1 <= d <= u64::MAX;
        }
    }
}

proof fn lemma_fsum_mono(ds: Seq<Option<u64>>, n: int, m: int)
    requires
        0 <= n <= m <= ds.len(),
    ensures
        0 <= fsum(ds, n) <= fsum(ds, m),
    decreases m,
{
    if n < m {
        lemma_fsum_mono(ds, n, m - 1);
        lemma_factor(ds, m - 1);
    } else if n > 0 {
        lemma_fsum_mono(ds, n - 1, m - 1);
        lemma_factor(ds, m - 1);
    }
}

/// The floored shares are bounded by the exact ones, and grow with the prefix.
proof fn lemma_qsum(ds: Seq<Option<u64>>, w: int, n: int)
    requires
        0 <= n <= ds.len(),
        0 <= w,
        fsum(ds, ds.len() as int) > 0,
    ensures
        0 <= qsum(ds, w, fsum(ds, ds.len() as int), n),
        qsum(ds, w, fsum(ds, ds.len() as int), n) * fsum(ds, ds.len() as int) <= w * fsum(ds, n),
        n > 0 ==> qsum(ds, w, fsum(ds, ds.len() as int), n - 1) <= qsum(ds, w, fsum(ds, ds.len() as int), n),
    decreases n,
{
    let total = fsum(ds, ds.len() as int);
    if n > 0 {
        lemma_qsum(ds, w, n - 1);
        lemma_fsum_mono(ds, n, ds.len() as int);
        lemma_fsum_mono(ds, n - 1, n);
        lemma_factor(ds, n - 1);
        let f = factor(ds, n - 1);
        if f > 0 {
            lemma_floor_share(w, f, total);
            let h = qsum(ds, w, total, n - 1);
            let x = floor_share(w, f, total);
            assert((h + x) * total <= w * (fsum(ds, n - 1) + f)) by (nonlinear_arith)
                requires h * total <= w * fsum(ds, n - 1), x * total <= w * f;
        }
    }
}

/// Where some station is in range, the remainder goes to one with a positive factor, the
/// factors have a positive sum, and the floored shares stay within the weight.
proof fn lemma_relative_facts(ds: Seq<Option<u64>>, ids: Seq<u64>, w: int)
    requires
        any_in(ds),
        0 <= w,
    ensures
        0 <= receiver(ds, ids, ds.len() as int) < ds.len(),
        factor(ds, receiver(ds, ids, ds.len() as int)) > 0,
        fsum(ds, ds.len() as int) > 0,
        0 <= qsum(ds, w, fsum(ds, ds.len() as int), ds.len() as int) <= w,
{
    let n = ds.len() as int;
    let b = choose|b: int| 0 <= b < n && #[trigger] ds[b] is Some;
    lemma_receiver(ds, ids, n);
    assert(ds[b] is Some);
    let r = receiver(ds, ids, n);
    if has_zero(ds) {
        let z = choose|z: int| 0 <= z < n && #[trigger] ds[z] == Some(0u64);
        assert(ds[z] is Some);
    }
    lemma_factor(ds, r);
    lemma_fsum_mono(ds, r + 1, n);
    lemma_fsum_mono(ds, r, r + 1);
    let total = fsum(ds, n);
    lemma_qsum(ds, w, n);
    let q = qsum(ds, w, total, n);
    assert(q <= w) by (nonlinear_arith)
        requires q * total <= w * total, total > 0;
}

/// Shares of one centroid of weight `w` among the stations, given each station's
/// distance where it is in range.
pub fn allocate(method: Method, ds: &Vec<Option<u64>>, ids: &Vec<u64>, w: u64) -> (r: Vec<Option<u64>>)
    requires
        ids@.len() == ds@.len(),
    ensures
        r@.len() == ds@.len(),
        forall|j: int| 0 <= j < ds@.len() ==> opt_int(#[trigger] r@[j]) == share_of(method, ds@, ids@, w as int, j),
        forall|j: int| 0 <= j < ds@.len() ==> (#[trigger] r@[j] is Some <==> match method {
            Method::Relative => factor(ds@, j) > 0,
            Method::Absolute => j == first_nearest(ds@, ds@.len() as int),
        }),
        any_in(ds@) ==> share_total(r@, ds@.len() as int) == w,
        !any_in(ds@) ==> forall|j: int| 0 <= j < ds@.len() ==> #[trigger] r@[j] is None,
{
    match method {
        Method::Absolute => allocate_absolute(ds, ids, w),
        Method::Relative => allocate_relative(ds, ids, w),
    }
}

fn allocate_absolute(ds: &Vec<Option<u64>>, ids: &Vec<u64>, w: u64) -> (r: Vec<Option<u64>>)
    ensures
        r@.len() == ds@.len(),
        forall|j: int| 0 <= j < ds@.len() ==> opt_int(#[trigger] r@[j]) == share_of(Method::Absolute, ds@, ids@, w as int, j),
        forall|j: int| 0 <= j < ds@.len() ==> (#[trigger] r@[j] is Some <==> j == first_nearest(ds@, ds@.len() as int)),
        any_in(ds@) ==> share_total(r@, ds@.len() as int) == w,
        !any_in(ds@) ==> forall|j: int| 0 <= j < ds@.len() ==> #[trigger] r@[j] is None,
{
    let n = ds.len();
    let mut best: usize = 0;
    let mut found = false;
    let mut i: usize = 0;
    while i < n
        invariant
            n == ds@.len(),
            i <= n,
            found <==> first_nearest(ds@, i as int) >= 0,
            found ==> best as int == first_nearest(ds@, i as int),
            found ==> best < i,
            found ==> ds@[best as int] is Some,
        decreases n - i,
    {
        if let Some(d) = ds[i] {
            let take = if found {
                match ds[best] {
                    Some(b) => d < b,
                    None => true,
                }
            } else {
                true
            };
            if take {
                best = i;
                found = true;
            }
        }
        i += 1;
    }
    proof {
        lemma_first_nearest(ds@, n as int);
    }
    let ghost b = first_nearest(ds@, n as int);
    let mut r: Vec<Option<u64>> = Vec::new();
    let mut j: usize = 0;
    while j < n
        invariant
            n == ds@.len(),
            j <= n,
            r@.len() == j,
            found <==> b >= 0,
            found ==> best as int == b,
            b == first_nearest(ds@, n as int),
            forall|k: int| 0 <= k < j ==> (#[trigger] r@[k] == if k == b { Some(w) } else { None::<u64> }),
            share_total(r@, j as int) == if b >= 0 && b < j { w as int } else { 0 },
        decreases n - j,
    {
        let x = if found && j == best { Some(w) } else { None };
        let ghost r0 = r@;
        r.push(x);
        proof {
            lemma_share_total_push(r0, x, j as int);
        }
        j += 1;
    }
    proof {
        if any_in(ds@) {
            let k = choose|k: int| 0 <= k < ds@.len() && #[trigger] ds@[k] is Some;
            assert(b >= 0);
        }
    }
    r
}

/// Appending an entry leaves the totals of earlier prefixes alone.
proof fn lemma_share_total_push(r: Seq<Option<u64>>, x: Option<u64>, n: int)
    requires
        0 <= n <= r.len(),
    ensures
        share_total(r.push(x), n) == share_total(r, n),
    decreases n,
{
    if n > 0 {
        lemma_share_total_push(r, x, n - 1);
    }
}

/// A floored share times the total stays within the exact product.
proof fn lemma_floor_share(w: int, f: int, total: int)
    requires
        0 <= w,
        0 <= f <= total,
        0 < total,
    ensures
        0 <= floor_share(w, f, total) <= w,
        floor_share(w, f, total) * total <= w * f,
{
    let x = w * f;
    assert(x >= 0) by (nonlinear_arith)
        requires w >= 0, f >= 0, x == w * f;
    vstd::arithmetic::div_mod::lemma_fundamental_div_mod(x, total);
    vstd::arithmetic::div_mod::lemma_mod_pos_bound(x, total);
    let q = x / total;
    assert(q >= 0) by (nonlinear_arith)
        requires x == total * q + x % total, 0 <= x % total < total, x >= 0, total > 0;
    assert(q * total <= w * f) by (nonlinear_arith)
        requires x == total * q + x % total, 0 <= x % total, x == w * f;
    assert(q <= w) by (nonlinear_arith)
        requires q * total <= w * f, f <= total, total > 0, w >= 0, q >= 0;
}

/// The factor of entry `j`, given whether some station stands at distance zero.
fn factor_at(ds: &Vec<Option<u64>>, zero: bool, j: usize) -> (f: u128)
    requires
        zero == has_zero(ds@),
        j < ds@.len(),
    ensures
        f == factor(ds@, j as int),
{
    match ds[j] {
        None => 0,
        Some(d) => if zero {
            if d == 0 { 1 } else { 0 }
        } else if d == 0 {
            assert(ds@[j as int] == Some(0u64));
            0
        } else {
            SCALE / d as u128
        },
    }
}

fn allocate_relative(ds: &Vec<Option<u64>>, ids: &Vec<u64>, w: u64) -> (r: Vec<Option<u64>>)
    requires
        ids@.len() == ds@.len(),
    ensures
        r@.len() == ds@.len(),
        forall|j: int| 0 <= j < ds@.len() ==> opt_int(#[trigger] r@[j]) == share_of(Method::Relative, ds@, ids@, w as int, j),
        forall|j: int| 0 <= j < ds@.len() ==> (#[trigger] r@[j] is Some <==> factor(ds@, j) > 0),
        any_in(ds@) ==> share_total(r@, ds@.len() as int) == w,
        !any_in(ds@) ==> forall|j: int| 0 <= j < ds@.len() ==> #[trigger] r@[j] is None,
{
    let n = ds.len();
    let mut zero = false;
    let mut i: usize = 0;
    while i < n
        invariant
            n == ds@.len(),
            i <= n,
            zero <==> exists|k: int| 0 <= k < i && #[trigger] ds@[k] == Some(0u64),
        decreases n - i,
    {
        if ds[i] == Some(0u64) {
            zero = true;
        }
        i += 1;
    }
    let mut total: u128 = 0;
    let mut rcv: usize = 0;
    let mut found = false;
    let mut i: usize = 0;
    while i < n
        invariant
            n == ds@.len(),
            ids@.len() == n,
            zero == has_zero(ds@),
            i <= n,
            total == fsum(ds@, i as int),
            total <= i * SCALE,
            found <==> receiver(ds@, ids@, i as int) >= 0,
            found ==> rcv as int == receiver(ds@, ids@, i as int),
            found ==> rcv < i && ds@[rcv as int] is Some,
        decreases n - i,
    {
        let f = factor_at(ds, zero, i);
        proof {
            lemma_factor(ds@, i as int);
        }
        assert(total + f <= (i + 1) * SCALE) by (nonlinear_arith)
            requires total <= i * SCALE, f <= SCALE;
        assert((i + 1) * SCALE <= u128::MAX) by (nonlinear_arith)
            requires i < n, n <= usize::MAX;
        total = total + f;
        if let Some(d) = ds[i] {
            let take = if found {
                match ds[rcv] {
                    Some(b) => d < b || (d == b && ids[i] < ids[rcv]),
                    None => true,
                }
            } else {
                true
            };
            if take {
                rcv = i;
                found = true;
            }
        }
        i += 1;
    }
    proof {
        lemma_receiver(ds@, ids@, n as int);
        if any_in(ds@) {
            lemma_relative_facts(ds@, ids@, w as int);
        }
        if !found {
            assert forall|k: int| 0 <= k < n implies factor(ds@, k) == 0 by {
                assert(ds@[k] is None);
            }
        }
    }
    // the floored shares
    let mut qs: u64 = 0;
    let mut i: usize = 0;
    while i < n
        invariant
            n == ds@.len(),
            zero == has_zero(ds@),
            i <= n,
            total == fsum(ds@, n as int),
            !found ==> forall|k: int| 0 <= k < n ==> #[trigger] factor(ds@, k) == 0,
            found ==> total > 0,
            found ==> qsum(ds@, w as int, total as int, n as int) <= w,
            qs == qsum(ds@, w as int, total as int, i as int),
        decreases n - i,
    {
        let f = factor_at(ds, zero, i);
        if f > 0 {
            proof {
                lemma_qsum(ds@, w as int, i as int + 1);
                lemma_qsum(ds@, w as int, i as int);
                lemma_fsum_mono(ds@, i as int + 1, n as int);
                lemma_fsum_mono(ds@, i as int, i as int + 1);
                lemma_floor_share(w as int, f as int, total as int);
                lemma_qsum(ds@, w as int, n as int);
                lemma_qsum_mono(ds@, w as int, i as int + 1, n as int);
            }
            assert(w as u128 * f <= u64::MAX as u128 * SCALE) by (nonlinear_arith)
                requires f <= SCALE, w <= u64::MAX;
            let q: u64 = (w as u128 * f / total) as u64;
            qs = qs + q;
        }
        i += 1;
    }
    proof {
        if found {
            lemma_qsum(ds@, w as int, n as int);
        }
    }
    let mut r: Vec<Option<u64>> = Vec::new();
    let mut j: usize = 0;
    while j < n
        invariant
            n == ds@.len(),
            ids@.len() == n,
            zero == has_zero(ds@),
            j <= n,
            r@.len() == j,
            total == fsum(ds@, n as int),
            !found ==> forall|k: int| 0 <= k < n ==> #[trigger] factor(ds@, k) == 0,
            found ==> total > 0 && qs <= w && rcv < n && factor(ds@, rcv as int) > 0,
            found <==> receiver(ds@, ids@, n as int) >= 0,
            found ==> rcv as int == receiver(ds@, ids@, n as int),
            qs == qsum(ds@, w as int, total as int, n as int),
            forall|k: int| 0 <= k < j ==> opt_int(#[trigger] r@[k]) == share_of(Method::Relative, ds@, ids@, w as int, k),
            forall|k: int| 0 <= k < j ==> (#[trigger] r@[k] is Some <==> factor(ds@, k) > 0),
            share_total(r@, j as int) == qsum(ds@, w as int, total as int, j as int)
                + if found && rcv < j { w - qs } else { 0 },
        decreases n - j,
    {
        let ghost r0 = r@;
        let f = factor_at(ds, zero, j);
        let x: Option<u64> = if f == 0 {
            None
        } else {
            proof {
                lemma_fsum_mono(ds@, j as int + 1, n as int);
                lemma_fsum_mono(ds@, j as int, j as int + 1);
                lemma_factor(ds@, j as int);
                lemma_floor_share(w as int, f as int, total as int);
                lemma_qsum(ds@, w as int, j as int + 1);
                lemma_qsum(ds@, w as int, j as int);
                lemma_qsum_mono(ds@, w as int, j as int + 1, n as int);
            }
            assert(w as u128 * f <= u64::MAX as u128 * SCALE) by (nonlinear_arith)
                requires f <= SCALE, w <= u64::MAX;
            let q: u64 = (w as u128 * f / total) as u64;
            if found && j == rcv {
                Some(q + (w - qs))
            } else {
                Some(q)
            }
        };
        r.push(x);
        proof {
            lemma_share_total_push(r0, x, j as int);
            assert(r@[j as int] == x);
        }
        j += 1;
    }
    r
}

/// A stop of the line, supplied with each request.
#[derive(Clone, Copy, Debug, PartialEq, Eq, Structural)]
pub struct Station {
    pub id: u64,
    pub point: GeoPoint,
}

/// A centroid attributed to a station, with the part of its weight the station receives.
#[derive(Clone, Copy, Debug, PartialEq, Eq, Structural)]
pub struct House {
    pub centroid: Centroid,
    pub share: u64,
}

/// One station's coverage: the centroids attributed to it and their summed shares.
#[derive(Clone, Debug)]
pub struct StationCoverage {
    pub station: Station,
    pub total: u128,
    pub houses: Vec<House>,
}

/// Distance from `a` to `b` under the routing metric; `None` when unreachable.
pub open spec fn metric(g: StreetGraph, routing: Routing, a: GeoPoint, b: GeoPoint) -> Option<int> {
    match routing {
        Routing::Direct => Some(straight_dist(a, b) as int),
        Routing::Osm => net_dist(g.nodes@, g.edges@, a, b),
    }
}

/// A distance kept only where it is within the radius.
pub open spec fn in_range(m: Option<int>, radius: u64) -> Option<u64> {
    match m {
        Some(d) => if 0 <= d <= radius { Some(d as u64) } else { None },
        None => None,
    }
}

/// Each station's in-range distance to the point `p`.
pub open spec fn reach_row(g: StreetGraph, routing: Routing, radius: u64, stations: Seq<Station>, p: GeoPoint) -> Seq<Option<u64>> {
    Seq::new(stations.len(), |j: int| in_range(metric(g, routing, stations[j].point, p), radius))
}

/// The stations' ids, in order.
pub open spec fn ids_of(stations: Seq<Station>) -> Seq<u64> {
    Seq::new(stations.len(), |j: int| stations[j].id)
}

/// The houses station `j` is attributed among the first `n` centroids, in centroid order.
pub open spec fn attributed(
    g: StreetGraph,
    routing: Routing,
    radius: u64,
    method: Method,
    stations: Seq<Station>,
    cs: Seq<Centroid>,
    j: int,
    n: int,
) -> Seq<House>
    decreases n,
{
    if n <= 0 {
        Seq::empty()
    } else {
        let prev = attributed(g, routing, radius, method, stations, cs, j, n - 1);
        let c = cs[n - 1];
        match share_of(method, reach_row(g, routing, radius, stations, c.point), ids_of(stations), c.weight as int, j) {
            Some(x) => prev.push(House { centroid: c, share: x as u64 }),
            None => prev,
        }
    }
}

/// Summed shares of a list of houses.
pub open spec fn house_total(hs: Seq<House>) -> int
    decreases hs.len(),
{
    if hs.len() == 0 { 0 } else { house_total(hs.drop_last()) + hs.last().share }
}

/// `out` is the coverage map of the stations over the centroids.
pub open spec fn is_coverage(
    g: StreetGraph,
    routing: Routing,
    radius: u64,
    method: Method,
    stations: Seq<Station>,
    cs: Seq<Centroid>,
    out: Seq<StationCoverage>,
) -> bool {
    &&& out.len() == stations.len()
    &&& forall|j: int| 0 <= j < out.len() ==> {
        &&& (#[trigger] out[j]).station == stations[j]
        &&& out[j].houses@ == attributed(g, routing, radius, method, stations, cs, j, cs.len() as int)
        &&& out[j].total == house_total(out[j].houses@)
    }
}

/// Each station's in-range distance to every point, one metric expansion per station.
pub fn reach_table_for(g: &StreetGraph, routing: Routing, radius: u64, st: Station, points: &Vec<GeoPoint>) -> (r: Vec<Option<u64>>)
    requires
        g.wf(),
    ensures
        r@.len() == points@.len(),
        forall|i: int| 0 <= i < points@.len() ==> #[trigger] r@[i] == in_range(metric(*g, routing, st.point, points@[i]), radius),
{
    let raw: Vec<Option<u64>> = match routing {
        Routing::Osm => g.distances_from(st.point, points),
        Routing::Direct => {
            let mut v: Vec<Option<u64>> = Vec::new();
            let mut i: usize = 0;
            while i < points.len()
                invariant
                    i <= points@.len(),
                    v@.len() == i,
                    forall|k: int| 0 <= k < i ==> opt_int(#[trigger] v@[k]) == metric(*g, routing, st.point, points@[k]),
                    routing == Routing::Direct,
                decreases points@.len() - i,
            {
                v.push(Some(straight_distance(st.point, points[i])));
                i += 1;
            }
            v
        },
    };
    assert(forall|i: int| 0 <= i < points@.len() ==> opt_int(#[trigger] raw@[i]) == metric(*g, routing, st.point, points@[i]));
    let mut r: Vec<Option<u64>> = Vec::new();
    let mut i: usize = 0;
    while i < raw.len()
        invariant
            raw@.len() == points@.len(),
            i <= raw@.len(),
            r@.len() == i,
            forall|k: int| 0 <= k < raw@.len() ==> opt_int(#[trigger] raw@[k]) == metric(*g, routing, st.point, points@[k]),
            forall|k: int| 0 <= k < i ==> #[trigger] r@[k] == in_range(metric(*g, routing, st.point, points@[k]), radius),
        decreases raw@.len() - i,
    {
        let x = match raw[i] {
            Some(d) => if d <= radius { Some(d) } else { None },
            None => None,
        };
        r.push(x);
        i += 1;
    }
    r
}

/// Per-station coverage of the centroids: each centroid within `radius` of some station
/// (under the routing metric) is attributed by the method; others are left out.
pub fn houses_for_stations(
    stations: &Vec<Station>,
    centroids: &Vec<Centroid>,
    method: Method,
    routing: Routing,
    radius: u64,
    g: &StreetGraph,
) -> (r: Vec<StationCoverage>)
    requires
        g.wf(),
    ensures
        is_coverage(*g, routing, radius, method, stations@, centroids@, r@),
{
    let ns = stations.len();
    let nc = centroids.len();
    let mut points: Vec<GeoPoint> = Vec::new();
    let mut i: usize = 0;
    while i < nc
        invariant
            nc == centroids@.len(),
            i <= nc,
            points@.len() == i,
            forall|k: int| 0 <= k < i ==> #[trigger] points@[k] == centroids@[k].point,
        decreases nc - i,
    {
        points.push(centroids[i].point);
        i += 1;
    }
    // in-range distances, by station then centroid
    let mut table: Vec<Vec<Option<u64>>> = Vec::new();
    let mut j: usize = 0;
    while j < ns
        invariant
            g.wf(),
            ns == stations@.len(),
            nc == centroids@.len(),
            points@.len() == nc,
            forall|k: int| 0 <= k < nc ==> #[trigger] points@[k] == centroids@[k].point,
            j <= ns,
            table@.len() == j,
            forall|a: int| 0 <= a < j ==> (#[trigger] table@[a])@.len() == nc,
            forall|a: int, k: int| 0 <= a < j && 0 <= k < nc ==> #[trigger] table@[a]@[k]
                == reach_row(*g, routing, radius, stations@, centroids@[k].point)[a],
        decreases ns - j,
    {
        let row = reach_table_for(g, routing, radius, stations[j], &points);
        table.push(row);
        j += 1;
    }
    let mut ids: Vec<u64> = Vec::new();
    let mut j: usize = 0;
    while j < ns
        invariant
            ns == stations@.len(),
            j <= ns,
            ids@.len() == j,
            forall|b: int| 0 <= b < j ==> #[trigger] ids@[b] == stations@[b].id,
        decreases ns - j,
    {
        ids.push(stations[j].id);
        j += 1;
    }
    assert(ids@ == ids_of(stations@));
    // shares, by centroid then station
    let mut alloc: Vec<Vec<Option<u64>>> = Vec::new();
    let mut i: usize = 0;
    while i < nc
        invariant
            ns == stations@.len(),
            nc == centroids@.len(),
            table@.len() == ns,
            forall|a: int| 0 <= a < ns ==> (#[trigger] table@[a])@.len() == nc,
            forall|a: int, k: int| 0 <= a < ns && 0 <= k < nc ==> #[trigger] table@[a]@[k]
                == reach_row(*g, routing, radius, stations@, centroids@[k].point)[a],
            i <= nc,
            alloc@.len() == i,
            ids@ == ids_of(stations@),
            forall|k: int| 0 <= k < i ==> (#[trigger] alloc@[k])@.len() == ns,
            forall|k: int, a: int| 0 <= k < i && 0 <= a < ns ==> opt_int(#[trigger] alloc@[k]@[a])
                == share_of(method, reach_row(*g, routing, radius, stations@, centroids@[k].point), ids_of(stations@), centroids@[k].weight as int, a),
        decreases nc - i,
    {
        let mut ds: Vec<Option<u64>> = Vec::new();
        let mut a: usize = 0;
        while a < ns
            invariant
                ns == stations@.len(),
                nc == centroids@.len(),
                i < nc,
                table@.len() == ns,
                forall|b: int| 0 <= b < ns ==> (#[trigger] table@[b])@.len() == nc,
                forall|b: int, k: int| 0 <= b < ns && 0 <= k < nc ==> #[trigger] table@[b]@[k]
                    == reach_row(*g, routing, radius, stations@, centroids@[k].point)[b],
                a <= ns,
                ds@.len() == a,
                forall|b: int| 0 <= b < a ==> #[trigger] ds@[b] == reach_row(*g, routing, radius, stations@, centroids@[i as int].point)[b],
            decreases ns - a,
        {
            ds.push(table[a][i]);
            a += 1;
        }
        assert(ds@ == reach_row(*g, routing, radius, stations@, centroids@[i as int].point));
        let shares = allocate(method, &ds, &ids, centroids[i].weight);
        alloc.push(shares);
        i += 1;
    }
    let mut out: Vec<StationCoverage> = Vec::new();
    let mut j: usize = 0;
    while j < ns
        invariant
            ns == stations@.len(),
            nc == centroids@.len(),
            alloc@.len() == nc,
            forall|k: int| 0 <= k < nc ==> (#[trigger] alloc@[k])@.len() == ns,
            forall|k: int, a: int| 0 <= k < nc && 0 <= a < ns ==> opt_int(#[trigger] alloc@[k]@[a])
                == share_of(method, reach_row(*g, routing, radius, stations@, centroids@[k].point), ids_of(stations@), centroids@[k].weight as int, a),
            j <= ns,
            out@.len() == j,
            forall|b: int| 0 <= b < j ==> {
                &&& (#[trigger] out@[b]).station == stations@[b]
                &&& out@[b].houses@ == attributed(*g, routing, radius, method, stations@, centroids@, b, nc as int)
                &&& out@[b].total == house_total(out@[b].houses@)
            },
        decreases ns - j,
    {
        let mut houses: Vec<House> = Vec::new();
        let mut total: u128 = 0;
        let mut i: usize = 0;
        while i < nc
            invariant
                ns == stations@.len(),
                nc == centroids@.len(),
                j < ns,
                alloc@.len() == nc,
                forall|k: int| 0 <= k < nc ==> (#[trigger] alloc@[k])@.len() == ns,
                forall|k: int, a: int| 0 <= k < nc && 0 <= a < ns ==> opt_int(#[trigger] alloc@[k]@[a])
                    == share_of(method, reach_row(*g, routing, radius, stations@, centroids@[k].point), ids_of(stations@), centroids@[k].weight as int, a),
                i <= nc,
                houses@.len() <= i,
                houses@ == attributed(*g, routing, radius, method, stations@, centroids@, j as int, i as int),
                total == house_total(houses@),
                total <= houses@.len() * (u64::MAX as int),
            decreases nc - i,
        {
            if let Some(x) = alloc[i][j] {
                let c = centroids[i];
                let ghost h0 = houses@;
                houses.push(House { centroid: c, share: x });
                assert(houses@.drop_last() == h0);
                assert(total + x <= houses@.len() * (u64::MAX as int)) by (nonlinear_arith)
                    requires total <= h0.len() * (u64::MAX as int), x <= u64::MAX, houses@.len() == h0.len() + 1;
                assert(houses@.len() * (u64::MAX as int) <= u128::MAX) by (nonlinear_arith)
                    requires houses@.len() <= i + 1, i < nc, nc <= usize::MAX;
                total = total + x as u128;
            }
            i += 1;
        }
        out.push(StationCoverage { station: stations[j], total, houses });
        j += 1;
    }
    out
}

/// Sum of the shares the first `n` stations receive of one centroid.
pub open spec fn spread(method: Method, ds: Seq<Option<u64>>, ids: Seq<u64>, w: int, n: int) -> int
    decreases n,
{
    if n <= 0 {
        0
    } else {
        spread(method, ds, ids, w, n - 1) + match share_of(method, ds, ids, w, n - 1) {
            Some(x) => x,
            None => 0,
        }
    }
}

/// A centroid that no station reaches gets no share from any station.
proof fn lemma_unreached_no_share(method: Method, ds: Seq<Option<u64>>, ids: Seq<u64>, w: int, j: int)
    requires
        !any_in(ds),
        0 <= j < ds.len(),
    ensures
        share_of(method, ds, ids, w, j) is None,
{
    lemma_first_nearest(ds, ds.len() as int);
    if first_nearest(ds, ds.len() as int) >= 0 {
        assert(ds[first_nearest(ds, ds.len() as int)] is Some);
    }
    assert(ds[j] is None);
}

/// `h` is one of the first `n` centroids, one that the method attributes to station `j`.
pub open spec fn from_centroid(
    g: StreetGraph,
    routing: Routing,
    radius: u64,
    method: Method,
    stations: Seq<Station>,
    cs: Seq<Centroid>,
    j: int,
    n: int,
    h: House,
) -> bool {
    exists|i: int| 0 <= i < n && h.centroid == #[trigger] cs[i]
        && share_of(method, reach_row(g, routing, radius, stations, cs[i].point), ids_of(stations), cs[i].weight as int, j) is Some
}

/// Every house attributed to station `j` is one of the centroids, with the share the method gives it.
proof fn lemma_attributed_origin(
    g: StreetGraph,
    routing: Routing,
    radius: u64,
    method: Method,
    stations: Seq<Station>,
    cs: Seq<Centroid>,
    j: int,
    n: int,
)
    requires
        0 <= n <= cs.len(),
    ensures
        forall|k: int| 0 <= k < attributed(g, routing, radius, method, stations, cs, j, n).len() ==>
            from_centroid(g, routing, radius, method, stations, cs, j, n, #[trigger] attributed(g, routing, radius, method, stations, cs, j, n)[k]),
    decreases n,
{
    if n > 0 {
        lemma_attributed_origin(g, routing, radius, method, stations, cs, j, n - 1);
        let prev = attributed(g, routing, radius, method, stations, cs, j, n - 1);
        let cur = attributed(g, routing, radius, method, stations, cs, j, n);
        let c = cs[n - 1];
        let sh = share_of(method, reach_row(g, routing, radius, stations, c.point), ids_of(stations), c.weight as int, j);
        assert forall|k: int| 0 <= k < cur.len() implies from_centroid(g, routing, radius, method, stations, cs, j, n, #[trigger] cur[k]) by {
            if k < prev.len() {
                assert(cur[k] == prev[k]);
                assert(from_centroid(g, routing, radius, method, stations, cs, j, n - 1, prev[k]));
                let i = choose|i: int| 0 <= i < n - 1 && prev[k].centroid == #[trigger] cs[i]
                    && share_of(method, reach_row(g, routing, radius, stations, cs[i].point), ids_of(stations), cs[i].weight as int, j) is Some;
                assert(0 <= i < n && cur[k].centroid == cs[i]);
            } else {
                assert(sh is Some);
                assert(cur == prev.push(House { centroid: c, share: sh->0 as u64 }));
                assert(cur[k].centroid == cs[n - 1]);
            }
        }
    }
}

/// A centroid farther than the radius from every station (under the routing metric)
/// appears in no station's attributed list.
pub proof fn lemma_uncovered_absent(
    g: StreetGraph,
    routing: Routing,
    radius: u64,
    method: Method,
    stations: Seq<Station>,
    cs: Seq<Centroid>,
    out: Seq<StationCoverage>,
    c: Centroid,
)
    requires
        is_coverage(g, routing, radius, method, stations, cs, out),
        forall|j: int| 0 <= j < stations.len() ==> #[trigger] reach_row(g, routing, radius, stations, c.point)[j] is None,
    ensures
        forall|j: int, k: int| 0 <= j < out.len() && 0 <= k < out[j].houses@.len() ==> (#[trigger] out[j].houses@[k]).centroid != c,
{
    let row = reach_row(g, routing, radius, stations, c.point);
    assert forall|j: int, k: int| 0 <= j < out.len() && 0 <= k < out[j].houses@.len() implies (#[trigger] out[j].houses@[k]).centroid != c by {
        assert(out[j].houses@ == attributed(g, routing, radius, method, stations, cs, j, cs.len() as int));
        lemma_attributed_origin(g, routing, radius, method, stations, cs, j, cs.len() as int);
        let a = attributed(g, routing, radius, method, stations, cs, j, cs.len() as int);
        assert(a[k] == out[j].houses@[k]);
        assert(from_centroid(g, routing, radius, method, stations, cs, j, cs.len() as int, a[k]));
        let i = choose|i: int| 0 <= i < cs.len() && a[k].centroid == #[trigger] cs[i]
            && share_of(method, reach_row(g, routing, radius, stations, cs[i].point), ids_of(stations), cs[i].weight as int, j) is Some;
        if cs[i] == c {
            if any_in(row) {
                let b = choose|b: int| 0 <= b < row.len() && #[trigger] row[b] is Some;
                assert(row[b] is None);
            }
            lemma_unreached_no_share(method, row, ids_of(stations), c.weight as int, j);
        }
    }
}

proof fn lemma_spread_relative(ds: Seq<Option<u64>>, ids: Seq<u64>, w: int, n: int)
    requires
        0 <= n <= ds.len(),
        0 <= w,
    ensures
        spread(Method::Relative, ds, ids, w, n) == qsum(ds, w, fsum(ds, ds.len() as int), n)
            + if 0 <= receiver(ds, ids, ds.len() as int) < n {
            w - qsum(ds, w, fsum(ds, ds.len() as int), ds.len() as int)
        } else {
            0
        },
    decreases n,
{
    if n > 0 {
        lemma_spread_relative(ds, ids, w, n - 1);
        lemma_receiver(ds, ids, ds.len() as int);
        let r = receiver(ds, ids, ds.len() as int);
        if r >= 0 {
            assert(ds[r] is Some);
            lemma_relative_facts(ds, ids, w);
        }
    }
}

/// Under relative allocation the shares of a centroid that some station reaches add up
/// to its whole weight.
pub proof fn lemma_relative_conserves(g: StreetGraph, routing: Routing, radius: u64, stations: Seq<Station>, c: Centroid)
    requires
        exists|j: int| 0 <= j < stations.len() && #[trigger] reach_row(g, routing, radius, stations, c.point)[j] is Some,
    ensures
        spread(Method::Relative, reach_row(g, routing, radius, stations, c.point), ids_of(stations), c.weight as int, stations.len() as int) == c.weight,
{
    let ds = reach_row(g, routing, radius, stations, c.point);
    let b = choose|b: int| 0 <= b < stations.len() && #[trigger] reach_row(g, routing, radius, stations, c.point)[b] is Some;
    assert(ds[b] is Some);
    lemma_relative_facts(ds, ids_of(stations), c.weight as int);
    lemma_spread_relative(ds, ids_of(stations), c.weight as int, ds.len() as int);
}

/// Under relative allocation a station at distance `d > 0` gets `w * (SCALE / d) / total`
/// rounded down, `total` being the summed factors, and the one picked by `receiver` gets the
/// rounding remainder on top; where some station stands at distance zero, only such
/// stations get a share.
pub proof fn lemma_relative_inverse(ds: Seq<Option<u64>>, ids: Seq<u64>, w: int, j: int)
    requires
        0 <= j < ds.len(),
        ds[j] is Some,
    ensures
        !has_zero(ds) ==> factor(ds, j) == SCALE as int / ds[j]->0 as int,
        has_zero(ds) ==> (share_of(Method::Relative, ds, ids, w, j) is Some <==> ds[j]->0 == 0),
{
    lemma_factor(ds, j);
}

/// Under absolute allocation a centroid that some station reaches goes whole to exactly one
/// station: the nearest in range, the lowest index among equally near ones.
pub proof fn lemma_absolute_single(g: StreetGraph, routing: Routing, radius: u64, stations: Seq<Station>, c: Centroid)
    requires
        exists|j: int| 0 <= j < stations.len() && #[trigger] reach_row(g, routing, radius, stations, c.point)[j] is Some,
    ensures
        ({
            let ds = reach_row(g, routing, radius, stations, c.point);
            let k = first_nearest(ds, ds.len() as int);
            &&& 0 <= k < stations.len()
            &&& ds[k] is Some
            &&& share_of(Method::Absolute, ds, ids_of(stations), c.weight as int, k) == Some(c.weight as int)
            &&& forall|j: int| 0 <= j < stations.len() && j != k ==> share_of(Method::Absolute, ds, ids_of(stations), c.weight as int, j) is None
            &&& forall|j: int| 0 <= j < stations.len() && #[trigger] ds[j] is Some ==> ds[k]->0 <= ds[j]->0
            &&& forall|j: int| 0 <= j < k && #[trigger] ds[j] is Some ==> ds[k]->0 < ds[j]->0
        }),
{
    let ds = reach_row(g, routing, radius, stations, c.point);
    let b = choose|b: int| 0 <= b < stations.len() && #[trigger] reach_row(g, routing, radius, stations, c.point)[b] is Some;
    lemma_first_nearest(ds, ds.len() as int);
    assert(ds[b] is Some);
}

/// A nearest in-range entry exists only where some entry is in range.
pub proof fn lemma_first_nearest_some(ds: Seq<Option<u64>>)
    ensures
        first_nearest(ds, ds.len() as int) >= 0 ==> ds[first_nearest(ds, ds.len() as int)] is Some,
        -1 <= first_nearest(ds, ds.len() as int) < ds.len(),
{
    lemma_first_nearest(ds, ds.len() as int);
}

/// Every share the methods hand out lies between zero and the centroid's weight.
pub proof fn lemma_share_range(method: Method, ds: Seq<Option<u64>>, ids: Seq<u64>, w: int, j: int)
    requires
        0 <= w,
        0 <= j < ds.len(),
    ensures
        share_of(method, ds, ids, w, j) matches Some(x) ==> 0 <= x <= w,
{
    lemma_factor(ds, j);
    if method == Method::Relative && factor(ds, j) > 0 {
        let n = ds.len() as int;
        assert(ds[j] is Some);
        lemma_relative_facts(ds, ids, w);
        let total = fsum(ds, n);
        lemma_fsum_mono(ds, j + 1, n);
        lemma_fsum_mono(ds, j, j + 1);
        lemma_floor_share(w, factor(ds, j), total);
        lemma_qsum(ds, w, j + 1);
        lemma_qsum(ds, w, j);
        lemma_qsum_mono(ds, w, j + 1, n);
    }
}

proof fn lemma_qsum_mono(ds: Seq<Option<u64>>, w: int, n: int, m: int)
    requires
        0 <= n <= m <= ds.len(),
        0 <= w,
        fsum(ds, ds.len() as int) > 0,
    ensures
        qsum(ds, w, fsum(ds, ds.len() as int), n) <= qsum(ds, w, fsum(ds, ds.len() as int), m),
    decreases m,
{
    if n < m {
        lemma_qsum_mono(ds, w, n, m - 1);
        lemma_qsum(ds, w, m);
    }
}

/// The share centroid `i` gives station `j`, zero where it gives none.
pub open spec fn cell(g: StreetGraph, routing: Routing, radius: u64, method: Method, stations: Seq<Station>, cs: Seq<Centroid>, i: int, j: int) -> int {
    match share_of(method, reach_row(g, routing, radius, stations, cs[i].point), ids_of(stations), cs[i].weight as int, j) {
        Some(x) => x,
        None => 0,
    }
}

/// What station `j` receives from the first `n` centroids.
pub open spec fn col_sum(g: StreetGraph, routing: Routing, radius: u64, method: Method, stations: Seq<Station>, cs: Seq<Centroid>, j: int, n: int) -> int
    decreases n,
{
    if n <= 0 { 0 } else { col_sum(g, routing, radius, method, stations, cs, j, n - 1) + cell(g, routing, radius, method, stations, cs, n - 1, j) }
}

/// What the first `n` centroids hand out to the first `m` stations, summed centroid by centroid.
pub open spec fn row_major(g: StreetGraph, routing: Routing, radius: u64, method: Method, stations: Seq<Station>, cs: Seq<Centroid>, n: int, m: int) -> int
    decreases n,
{
    if n <= 0 {
        0
    } else {
        row_major(g, routing, radius, method, stations, cs, n - 1, m)
            + spread(method, reach_row(g, routing, radius, stations, cs[n - 1].point), ids_of(stations), cs[n - 1].weight as int, m)
    }
}

/// Summed totals of the first `m` stations of a coverage map.
pub open spec fn map_total(out: Seq<StationCoverage>, m: int) -> int
    decreases m,
{
    if m <= 0 { 0 } else { map_total(out, m - 1) + out[m - 1].total }
}

proof fn lemma_attributed_total(g: StreetGraph, routing: Routing, radius: u64, method: Method, stations: Seq<Station>, cs: Seq<Centroid>, j: int, n: int)
    requires
        0 <= n <= cs.len(),
        0 <= j < stations.len(),
    ensures
        house_total(attributed(g, routing, radius, method, stations, cs, j, n)) == col_sum(g, routing, radius, method, stations, cs, j, n),
    decreases n,
{
    if n > 0 {
        lemma_attributed_total(g, routing, radius, method, stations, cs, j, n - 1);
        let prev = attributed(g, routing, radius, method, stations, cs, j, n - 1);
        let c = cs[n - 1];
        let ds = reach_row(g, routing, radius, stations, c.point);
        lemma_share_range(method, ds, ids_of(stations), c.weight as int, j);
        if let Some(x) = share_of(method, ds, ids_of(stations), c.weight as int, j) {
            let h = House { centroid: c, share: x as u64 };
            assert(prev.push(h).drop_last() =~= prev);
        }
    }
}

proof fn lemma_row_major_step(g: StreetGraph, routing: Routing, radius: u64, method: Method, stations: Seq<Station>, cs: Seq<Centroid>, n: int, m: int)
    requires
        0 <= n <= cs.len(),
        1 <= m,
    ensures
        row_major(g, routing, radius, method, stations, cs, n, m) == row_major(g, routing, radius, method, stations, cs, n, m - 1)
            + col_sum(g, routing, radius, method, stations, cs, m - 1, n),
    decreases n,
{
    if n > 0 {
        lemma_row_major_step(g, routing, radius, method, stations, cs, n - 1, m);
    }
}

proof fn lemma_exchange(g: StreetGraph, routing: Routing, radius: u64, method: Method, stations: Seq<Station>, cs: Seq<Centroid>, out: Seq<StationCoverage>, m: int)
    requires
        is_coverage(g, routing, radius, method, stations, cs, out),
        0 <= m <= stations.len(),
    ensures
        map_total(out, m) == row_major(g, routing, radius, method, stations, cs, cs.len() as int, m),
    decreases m,
{
    let n = cs.len() as int;
    if m > 0 {
        lemma_exchange(g, routing, radius, method, stations, cs, out, m - 1);
        lemma_row_major_step(g, routing, radius, method, stations, cs, n, m);
        lemma_attributed_total(g, routing, radius, method, stations, cs, m - 1, n);
        assert(out[m - 1].houses@ == attributed(g, routing, radius, method, stations, cs, m - 1, n));
    } else {
        lemma_row_major_zero(g, routing, radius, method, stations, cs, n);
    }
}

proof fn lemma_row_major_zero(g: StreetGraph, routing: Routing, radius: u64, method: Method, stations: Seq<Station>, cs: Seq<Centroid>, n: int)
    requires
        0 <= n <= cs.len(),
    ensures
        row_major(g, routing, radius, method, stations, cs, n, 0) == 0,
    decreases n,
{
    if n > 0 {
        lemma_row_major_zero(g, routing, radius, method, stations, cs, n - 1);
    }
}

/// The station totals of a coverage map add up to what the centroids hand out, centroid by centroid.
pub proof fn lemma_map_total(g: StreetGraph, routing: Routing, radius: u64, method: Method, stations: Seq<Station>, cs: Seq<Centroid>, out: Seq<StationCoverage>)
    requires
        is_coverage(g, routing, radius, method, stations, cs, out),
    ensures
        map_total(out, out.len() as int) == row_major(g, routing, radius, method, stations, cs, cs.len() as int, stations.len() as int),
{
    lemma_exchange(g, routing, radius, method, stations, cs, out, stations.len() as int);
}

} // verus!
