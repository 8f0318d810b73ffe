//! Request-level coverage and placement queries, with their defaults.
use vstd::prelude::*;
use crate::geometry::GeoPoint;
use crate::graph::StreetGraph;
use crate::layers::{LayerSet, in_category};
use crate::coverage::{Method, Routing, Station, StationCoverage, is_coverage, houses_for_stations};
use crate::station::{OptimalStationResult, PlacementError, find_optimal_station, is_placement};

verus! {

/// Walking distance within which a centroid counts as served, in meters.
pub const COVERAGE_RADIUS: u64 = 500;

/// Distance from a centroid within which a route point is a candidate station, in meters.
pub const SEARCH_RADIUS: u64 = 300;

/// A coverage request that cannot be answered.
#[derive(Clone, Copy, Debug, PartialEq, Eq, Structural)]
pub enum RequestError {
    /// No station was supplied.
    NoStations,
}

/// The method asked for, relative when none was.
pub open spec fn method_or_default(m: Option<Method>) -> Method {
    match m {
        Some(x) => x,
        None => Method::Relative,
    }
}

/// The routing asked for, over the street network when none was.
pub open spec fn routing_or_default(r: Option<Routing>) -> Routing {
    match r {
        Some(x) => x,
        None => Routing::Osm,
    }
}

/// Coverage of the stations over each listed category of the layer set.
pub fn station_info(
    stations: &Vec<Station>,
    categories: &Vec<u32>,
    method: Option<Method>,
    routing: Option<Routing>,
    layers: &LayerSet,
    g: &StreetGraph,
) -> (r: Result<Vec<(u32, Vec<StationCoverage>)>, RequestError>)
    requires
        g.wf(),
    ensures
        r is Err <==> stations@.len() == 0,
        r matches Ok(v) ==> {
            &&& v@.len() == categories@.len()
            &&& forall|k: int| 0 <= k < v@.len() ==> (#[trigger] v@[k]).0 == categories@[k] && is_coverage(
                *g,
                routing_or_default(routing),
                COVERAGE_RADIUS,
                method_or_default(method),
                stations@,
                in_category(layers@, categories@[k]),
                v@[k].1@,
            )
        },
{
    if stations.len() == 0 {
        return Err(RequestError::NoStations);
    }
    let m = match method {
        Some(x) => x,
        None => Method::Relative,
    };
    let rt = match routing {
        Some(x) => x,
        None => Routing::Osm,
    };
    let mut out: Vec<(u32, Vec<StationCoverage>)> = Vec::new();
    let mut k: usize = 0;
    while k < categories.len()
        invariant
            g.wf(),
            m == method_or_default(method),
            rt == routing_or_default(routing),
            k <= categories@.len(),
            out@.len() == k,
            forall|x: int| 0 <= x < k ==> (#[trigger] out@[x]).0 == categories@[x] && is_coverage(
                *g,
                rt,
                COVERAGE_RADIUS,
                m,
                stations@,
                in_category(layers@, categories@[x]),
                out@[x].1@,
            ),
        decreases categories@.len() - k,
    {
        let cat = categories[k];
        let cs = layers.centroids(cat);
        let cov = houses_for_stations(stations, &cs, m, rt, COVERAGE_RADIUS, g);
        out.push((cat, cov));
        k += 1;
    }
    Ok(out)
}

/// The best new station on the route over every centroid of the layer set.
pub fn find_station(
    route: &Vec<GeoPoint>,
    stations: &Vec<Station>,
    method: Option<Method>,
    routing: Option<Routing>,
    layers: &LayerSet,
    g: &StreetGraph,
) -> (r: Result<OptimalStationResult, PlacementError>)
    requires
        g.wf(),
    ensures
        is_placement(route@, SEARCH_RADIUS, layers@, stations@, method_or_default(method),
            routing_or_default(routing), COVERAGE_RADIUS, *g, r),
{
    let m = match method {
        Some(x) => x,
        None => Method::Relative,
    };
    let rt = match routing {
        Some(x) => x,
        None => Routing::Osm,
    };
    let cs = layers.all_centroids();
    find_optimal_station(route, SEARCH_RADIUS, &cs, stations, m, rt, COVERAGE_RADIUS, g)
}

} // verus!
