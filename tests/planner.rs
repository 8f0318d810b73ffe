use lineplanner::service::{find_station, station_info, RequestError};
use lineplanner::acquire::{next_poll, PollAction, PollPolicy};
use lineplanner::roads::{from_ways, Way};
use lineplanner::coverage::{allocate, houses_for_stations, Method, Routing, Station, StationCoverage};
use lineplanner::geometry::{isqrt, squared_distance, straight_distance, GeoPoint};
use lineplanner::graph::{GraphEdge, StreetGraph};
use lineplanner::layers::{Centroid, LayerSet};
use lineplanner::station::{find_optimal_station, PlacementError};

fn pt(x: i32, y: i32) -> GeoPoint {
    GeoPoint { x, y }
}

fn edge(a: usize, b: usize, length: u64, pa: GeoPoint, pb: GeoPoint) -> GraphEdge {
    GraphEdge { a, b, length, geometry: vec![pa, pb] }
}

/// Nodes A–B–C and B–D, every edge 100 long.
fn t_graph() -> StreetGraph {
    let a = pt(0, 0);
    let b = pt(100, 0);
    let c = pt(200, 0);
    let d = pt(100, 100);
    StreetGraph {
        nodes: vec![a, b, c, d],
        edges: vec![edge(0, 1, 100, a, b), edge(1, 2, 100, b, c), edge(1, 3, 100, b, d)],
    }
}

fn centroid(id: u64, category: u32, p: GeoPoint, weight: u64) -> Centroid {
    Centroid { id, category, point: p, weight }
}

fn station(id: u64, p: GeoPoint) -> Station {
    Station { id, point: p }
}

fn total_covered(map: &[StationCoverage]) -> u128 {
    map.iter().map(|s| s.total).sum()
}

#[test]
fn integer_square_root() {
    assert_eq!(isqrt(0), 0);
    assert_eq!(isqrt(1), 1);
    assert_eq!(isqrt(24), 4);
    assert_eq!(isqrt(25), 5);
    assert_eq!(isqrt(26), 5);
    assert_eq!(isqrt(u128::MAX), u64::MAX);
}

#[test]
fn straight_line_distance() {
    assert_eq!(squared_distance(pt(0, 0), pt(3, 4)), 25);
    assert_eq!(straight_distance(pt(0, 0), pt(3, 4)), 5);
    assert_eq!(straight_distance(pt(1, 1), pt(2, 2)), 1);
    assert_eq!(straight_distance(pt(i32::MIN, i32::MIN), pt(i32::MAX, i32::MAX)), 6074000998);
}

#[test]
fn merge_with_itself_is_unchanged() {
    let mut l = LayerSet::new();
    l.insert(centroid(1, 0, pt(0, 0), 5));
    l.insert(centroid(2, 0, pt(1, 0), 6));
    l.insert(centroid(1, 1, pt(2, 0), 7));
    let m = l.merge(&l);
    assert_eq!(m.centroids, l.centroids);
}

#[test]
fn merge_keeps_first_occurrence() {
    let mut a = LayerSet::new();
    a.insert(centroid(1, 0, pt(0, 0), 5));
    let mut b = LayerSet::new();
    b.insert(centroid(1, 0, pt(9, 9), 99));
    b.insert(centroid(3, 0, pt(1, 1), 4));
    let m = a.merge(&b);
    assert_eq!(m.centroids, vec![centroid(1, 0, pt(0, 0), 5), centroid(3, 0, pt(1, 1), 4)]);
    assert_eq!(m.centroids(0).len(), 2);
    assert_eq!(m.centroids(1).len(), 0);
    assert_eq!(m.all_centroids().len(), 2);
}

#[test]
fn network_distance_in_t_graph() {
    let g = t_graph();
    assert_eq!(g.distance(pt(0, 0), pt(100, 100)), Some(200));
    assert_eq!(g.distance(pt(200, 0), pt(100, 100)), Some(200));
    assert_eq!(g.distance(pt(0, 0), pt(200, 0)), Some(200));
    assert_eq!(g.distance(pt(0, 0), pt(0, 0)), Some(0));
    // snapping adds both straight-line offsets
    assert_eq!(g.distance(pt(0, 3), pt(100, 104)), Some(207));
    assert_eq!(g.distance(pt(100, 104), pt(0, 3)), Some(207));
    assert_eq!(g.nearest_node(pt(160, 10)), Some(2));
    // equally near: the lower index wins
    assert_eq!(g.nearest_node(pt(50, 0)), Some(0));
}

#[test]
fn unreachable_component() {
    let mut g = t_graph();
    g.nodes.push(pt(1000, 1000));
    assert_eq!(g.distance(pt(0, 0), pt(1000, 1000)), None);
    let empty = StreetGraph { nodes: vec![], edges: vec![] };
    assert_eq!(empty.distance(pt(0, 0), pt(1, 1)), None);
    assert_eq!(empty.nearest_node(pt(0, 0)), None);
}

#[test]
fn t_graph_coverage_scenario() {
    let g = t_graph();
    let cs = vec![centroid(7, 0, pt(100, 100), 50)];
    let at_a = vec![station(1, pt(0, 0))];
    let at_c = vec![station(1, pt(200, 0))];
    for method in [Method::Relative, Method::Absolute] {
        let m = houses_for_stations(&at_a, &cs, method, Routing::Osm, 250, &g);
        assert_eq!(m[0].total, 50);
        assert_eq!(m[0].houses.len(), 1);
        let m = houses_for_stations(&at_c, &cs, method, Routing::Osm, 250, &g);
        assert_eq!(m[0].total, 50);
        let m = houses_for_stations(&at_a, &cs, method, Routing::Osm, 150, &g);
        assert_eq!(total_covered(&m), 0);
        assert!(m[0].houses.is_empty());
        let m = houses_for_stations(&at_c, &cs, method, Routing::Osm, 150, &g);
        assert!(m[0].houses.is_empty());
    }
}

#[test]
fn out_of_range_centroid_is_absent() {
    let g = t_graph();
    let cs = vec![centroid(1, 0, pt(0, 10), 10), centroid(2, 0, pt(5000, 5000), 30)];
    let st = vec![station(1, pt(0, 0)), station(2, pt(10, 0))];
    for routing in [Routing::Osm, Routing::Direct] {
        let m = houses_for_stations(&st, &cs, Method::Relative, routing, 300, &g);
        for s in &m {
            assert!(s.houses.iter().all(|h| h.centroid.id != 2));
        }
        assert_eq!(total_covered(&m), 10);
    }
}

#[test]
fn relative_shares_sum_to_weight() {
    let r = allocate(Method::Relative, &vec![Some(1), None, Some(2), Some(4)], &vec![1, 2, 3, 4], 100);
    // factors 4:2:1 give 57, 28, 14; the nearest station takes the remaining unit
    assert_eq!(r, vec![Some(58), None, Some(28), Some(14)]);
    let sum: u64 = r.iter().map(|x| x.unwrap_or(0)).sum();
    assert_eq!(sum, 100);
    let r = allocate(Method::Relative, &vec![Some(1), Some(2)], &vec![1, 2], 600);
    assert_eq!(r, vec![Some(400), Some(200)]);
    let r = allocate(Method::Relative, &vec![None, None], &vec![1, 2], 10);
    assert_eq!(r, vec![None, None]);
}

#[test]
fn relative_zero_distance_takes_all() {
    let r = allocate(Method::Relative, &vec![Some(0), None, Some(1), Some(3)], &vec![1, 2, 3, 4], 100);
    assert_eq!(r, vec![Some(100), None, None, None]);
    let r = allocate(Method::Relative, &vec![Some(7), Some(0), Some(0)], &vec![5, 9, 8], 11);
    assert_eq!(r, vec![None, Some(5), Some(6)]);
}

#[test]
fn relative_remainder_follows_station_not_position() {
    let r = allocate(Method::Relative, &vec![Some(5), Some(5), Some(5)], &vec![7, 3, 9], 10);
    assert_eq!(r, vec![Some(3), Some(4), Some(3)]);
    let r = allocate(Method::Relative, &vec![Some(5), Some(5), Some(5)], &vec![9, 7, 3], 10);
    assert_eq!(r, vec![Some(3), Some(3), Some(4)]);
}

#[test]
fn absolute_goes_to_nearest_lowest_index() {
    let r = allocate(Method::Absolute, &vec![Some(9), Some(4), None, Some(4)], &vec![1, 2, 3, 4], 70);
    assert_eq!(r, vec![None, Some(70), None, None]);
    let r = allocate(Method::Absolute, &vec![None, None], &vec![1, 2], 70);
    assert_eq!(r, vec![None, None]);
}

#[test]
fn relative_coverage_is_inverse_to_distance() {
    let g = StreetGraph { nodes: vec![], edges: vec![] };
    let cs = vec![centroid(1, 0, pt(0, 0), 600)];
    let st = vec![station(1, pt(1, 0)), station(2, pt(0, 2))];
    let m = houses_for_stations(&st, &cs, Method::Relative, Routing::Direct, 10, &g);
    assert_eq!((m[0].total, m[1].total), (400, 200));
    let swapped = vec![st[1], st[0]];
    let m = houses_for_stations(&swapped, &cs, Method::Relative, Routing::Direct, 10, &g);
    assert_eq!((m[0].total, m[1].total), (200, 400));
}

#[test]
fn coverage_relative_splits_between_stations() {
    let g = StreetGraph { nodes: vec![], edges: vec![] };
    let cs = vec![centroid(1, 0, pt(0, 0), 90)];
    let st = vec![station(1, pt(0, 0)), station(2, pt(0, 0))];
    let m = houses_for_stations(&st, &cs, Method::Relative, Routing::Direct, 10, &g);
    assert_eq!(m[0].total, 45);
    assert_eq!(m[1].total, 45);
    let m = houses_for_stations(&st, &cs, Method::Absolute, Routing::Direct, 10, &g);
    assert_eq!(m[0].total, 90);
    assert_eq!(m[1].total, 0);
}

#[test]
fn optimizer_picks_largest_gain() {
    let g = StreetGraph { nodes: vec![], edges: vec![] };
    let cs = vec![
        centroid(1, 0, pt(0, 0), 10),
        centroid(2, 0, pt(1000, 0), 40),
        centroid(3, 0, pt(2000, 0), 20),
    ];
    let existing = vec![station(1, pt(0, 0))];
    let route = vec![pt(0, 0), pt(1000, 10), pt(2000, 0)];
    let r = find_optimal_station(&route, 300, &cs, &existing, Method::Relative, Routing::Direct, 100, &g).unwrap();
    assert_eq!(r.index, 1);
    assert_eq!(r.point, pt(1000, 10));
    assert_eq!(r.gain, 40);
    let with: Vec<Station> = existing.iter().cloned().chain([station(9, r.point)]).collect();
    let before = houses_for_stations(&existing, &cs, Method::Relative, Routing::Direct, 100, &g);
    let after = houses_for_stations(&with, &cs, Method::Relative, Routing::Direct, 100, &g);
    assert_eq!(total_covered(&after) - total_covered(&before), r.gain);
}

#[test]
fn optimizer_zero_gain_is_earliest() {
    let g = StreetGraph { nodes: vec![], edges: vec![] };
    let cs = vec![centroid(1, 0, pt(0, 0), 10)];
    let existing = vec![station(1, pt(0, 0))];
    let route = vec![pt(5000, 0), pt(10, 0), pt(0, 20)];
    let r = find_optimal_station(&route, 300, &cs, &existing, Method::Absolute, Routing::Direct, 100, &g).unwrap();
    assert_eq!(r.index, 1);
    assert_eq!(r.gain, 0);
}

#[test]
fn optimizer_errors() {
    let g = StreetGraph { nodes: vec![], edges: vec![] };
    let cs = vec![centroid(1, 0, pt(0, 0), 10)];
    let r = find_optimal_station(&vec![], 300, &cs, &vec![], Method::Relative, Routing::Direct, 100, &g);
    assert_eq!(r, Err(PlacementError::EmptyRoute));
    let r = find_optimal_station(&vec![pt(9000, 0)], 300, &cs, &vec![], Method::Relative, Routing::Direct, 100, &g);
    assert_eq!(r, Err(PlacementError::NoCandidate));
}

#[test]
fn optimizer_over_network() {
    let g = t_graph();
    let cs = vec![centroid(1, 0, pt(100, 100), 50), centroid(2, 0, pt(200, 0), 5)];
    let route = vec![pt(0, 0), pt(100, 0)];
    let r = find_optimal_station(&route, 500, &cs, &vec![], Method::Absolute, Routing::Osm, 100, &g).unwrap();
    assert_eq!(r.index, 1);
    assert_eq!(r.gain, 55);
}

#[test]
fn graph_from_ways() {
    let a = pt(0, 0);
    let b = pt(100, 0);
    let c = pt(200, 0);
    let d = pt(100, 100);
    let ways = vec![
        Way { road: true, points: vec![a, b, c] },
        Way { road: true, points: vec![b, d] },
        Way { road: false, points: vec![d, pt(500, 500)] },
        Way { road: true, points: vec![c, pt(300, 0), pt(300, 100)] },
    ];
    let g = from_ways(&ways);
    assert_eq!(g.nodes, vec![a, b, c, d, pt(300, 100)]);
    let summary: Vec<(usize, usize, u64, usize)> =
        g.edges.iter().map(|e| (e.a, e.b, e.length, e.geometry.len())).collect();
    assert_eq!(summary, vec![(0, 1, 100, 2), (1, 2, 100, 2), (1, 3, 100, 2), (2, 4, 200, 3)]);
    assert_eq!(g.distance(a, d), Some(200));
    assert_eq!(g.distance(pt(300, 100), a), Some(400));
    // the non-road way adds nothing
    assert_eq!(g.nearest_node(pt(500, 500)), Some(4));
}

#[test]
fn graph_from_ways_zero_length_edge() {
    let ways = vec![Way { road: true, points: vec![pt(5, 5), pt(5, 5)] }];
    let g = from_ways(&ways);
    assert_eq!(g.nodes, vec![pt(5, 5)]);
    assert_eq!(g.edges.len(), 1);
    assert_eq!(g.edges[0].length, 0);
    let cs = vec![centroid(1, 0, pt(5, 5), 8)];
    let m = houses_for_stations(&vec![station(1, pt(5, 5))], &cs, Method::Relative, Routing::Osm, 0, &g);
    assert_eq!(m[0].total, 8);
}

#[test]
fn poll_decisions() {
    let p = PollPolicy { max_attempts: 5, base_delay_ms: 500, max_delay_ms: 3000 };
    assert_eq!(next_poll(p, 0, Some(true), true), PollAction::Download);
    assert_eq!(next_poll(p, 0, Some(true), false), PollAction::MissingJobId);
    assert_eq!(next_poll(p, 0, None, true), PollAction::Wait(500));
    assert_eq!(next_poll(p, 1, Some(false), true), PollAction::Wait(1000));
    assert_eq!(next_poll(p, 2, Some(false), true), PollAction::Wait(2000));
    assert_eq!(next_poll(p, 3, Some(false), true), PollAction::Wait(3000));
    assert_eq!(next_poll(p, 4, Some(false), true), PollAction::GiveUp);
    assert_eq!(next_poll(p, 4, Some(true), true), PollAction::Download);
}

fn sample_layers() -> LayerSet {
    let mut l = LayerSet::new();
    l.insert(centroid(1, 0, pt(100, 100), 50));
    l.insert(centroid(2, 1, pt(200, 0), 5));
    l.insert(centroid(3, 1, pt(9000, 9000), 70));
    l
}

#[test]
fn station_info_per_category() {
    let g = t_graph();
    let l = sample_layers();
    let st = vec![station(1, pt(0, 0))];
    let r = station_info(&st, &vec![0, 1, 2], None, None, &l, &g).unwrap();
    assert_eq!(r.len(), 3);
    assert_eq!((r[0].0, r[0].1[0].total), (0, 50));
    assert_eq!((r[1].0, r[1].1[0].total), (1, 5));
    assert_eq!((r[2].0, r[2].1[0].total), (2, 0));
    let r = station_info(&vec![], &vec![0], None, None, &l, &g);
    assert_eq!(r.unwrap_err(), RequestError::NoStations);
    let r = station_info(&st, &vec![1], Some(Method::Absolute), Some(Routing::Direct), &l, &g).unwrap();
    assert_eq!(r[0].1[0].houses.len(), 1);
    assert_eq!(r[0].1[0].houses[0].share, 5);
}

#[test]
fn find_station_over_all_layers() {
    let g = t_graph();
    let l = sample_layers();
    let r = find_station(&vec![pt(0, 0), pt(100, 0)], &vec![], None, None, &l, &g).unwrap();
    assert_eq!(r.index, 0);
    assert_eq!(r.gain, 55);
    assert_eq!(r.method, Method::Relative);
    assert_eq!(r.routing, Routing::Osm);
    let r = find_station(&vec![pt(0, 0)], &vec![station(1, pt(100, 0))], None, None, &l, &g).unwrap();
    assert_eq!(r.gain, 0);
}

#[test]
fn one_expansion_serves_many_targets() {
    let g = t_graph();
    let targets = vec![pt(0, 0), pt(100, 0), pt(200, 0), pt(100, 100), pt(100, 110)];
    assert_eq!(g.distances_from(pt(0, 0), &targets), vec![Some(0), Some(100), Some(200), Some(200), Some(210)]);
    assert_eq!(g.shortest_from(3), vec![Some(200), Some(100), Some(200), Some(0)]);
}

#[test]
fn contains_source_by_category_and_id() {
    let l = sample_layers();
    assert!(l.contains_source(&centroid(1, 0, pt(0, 0), 0)));
    assert!(!l.contains_source(&centroid(1, 1, pt(100, 100), 50)));
}
