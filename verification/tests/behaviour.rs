use routegraph::GraphError;
use routegraph::Route;
use routegraph::RouteMap;
use routegraph::u32_to_string;

#[test]
fn single_stop_path_is_free() {
    let routes = RouteMap::new("AB2, BC3").unwrap();
    assert_eq!(Some(0), routes.route_distance(&["A"]));
    // even for a station the graph has never seen
    assert_eq!(Some(0), routes.route_distance(&["Z"]));
    // and on an empty graph
    let empty = RouteMap::new("").unwrap();
    assert_eq!(Some(0), empty.route_distance(&["A"]));
}

#[test]
fn empty_path_is_free() {
    let routes = RouteMap::new("AB2").unwrap();
    assert_eq!(Some(0), routes.route_distance(&[]));
}

#[test]
fn distance_short_circuits_on_first_gap() {
    // the missing pair comes first; everything after it would be fine
    let routes = RouteMap::new("BC4, CD5").unwrap();
    assert_eq!(None, routes.route_distance(&["A", "B", "C", "D"]));
}

#[test]
fn parse_ignores_separators_and_noise() {
    let routes = RouteMap::new("noise AB5;xx CD7 123 zz").unwrap();
    assert_eq!(Some(5), routes.route_distance(&["A", "B"]));
    assert_eq!(Some(7), routes.route_distance(&["C", "D"]));
}

#[test]
fn parse_takes_leftmost_match() {
    // in "AAB5" the match starts at the second character
    let routes = RouteMap::new("AAB5").unwrap();
    assert_eq!(Some(5), routes.route_distance(&["A", "B"]));
}

#[test]
fn parse_reads_whole_digit_run() {
    let routes = RouteMap::new("AB1200").unwrap();
    assert_eq!(Some(1200), routes.route_distance(&["A", "B"]));
}

#[test]
fn parse_last_write_wins() {
    let routes = RouteMap::new("AB1, AB7").unwrap();
    assert_eq!(Some(7), routes.route_distance(&["A", "B"]));
}

#[test]
fn parse_rejects_oversized_distance() {
    // 2^32 does not fit a u32 distance
    let r = RouteMap::new("AB4294967296");
    assert!(matches!(r, Err(GraphError::MalformedEdge)));
}

#[test]
fn parse_accepts_largest_distance() {
    let routes = RouteMap::new("AB4294967295").unwrap();
    assert_eq!(Some(4294967295), routes.route_distance(&["A", "B"]));
}

#[test]
fn circular_aborts_on_any_dead_end() {
    // B has no outgoing edges: the whole count is "no such route"
    let routes = RouteMap::new("AB1").unwrap();
    assert_eq!(None, routes.circular_route("A", 2));
    // one round never leaves A, so it still succeeds
    assert_eq!(Some(0), routes.circular_route("A", 1));
}

#[test]
fn circular_count_on_pure_cycle_is_rounds_over_length() {
    // a pure three-station cycle: one hit per full turn
    let routes = RouteMap::new("AB1, BC1, CA1").unwrap();
    assert_eq!(Some(0), routes.circular_route("A", 2));
    assert_eq!(Some(1), routes.circular_route("A", 3));
    assert_eq!(Some(2), routes.circular_route("A", 7));
}

#[test]
fn exact_stops_drops_dead_ends_silently() {
    let routes = RouteMap::new("AB1").unwrap();
    // one hop reaches B
    assert_eq!(Some(1), routes.exact_stops("A", "B", 0));
    // two hops lead nowhere: the frontier is empty, the count is zero
    assert_eq!(Some(0), routes.exact_stops("A", "B", 1));
}

#[test]
fn shortest_route_without_a_route() {
    let routes = RouteMap::new("AB1").unwrap();
    assert_eq!(None, routes.shortest_route("A", "C"));
    assert_eq!(None, routes.shortest_route("X", "A"));
}

#[test]
fn shortest_cycle_is_never_trivial() {
    let routes = RouteMap::new("AB1, BA2").unwrap();
    // the zero-length path from A to A does not count
    assert_eq!(Some(3), routes.shortest_route("A", "A"));
}

#[test]
fn routes_less_than_with_tight_ceiling() {
    let routes = RouteMap::new("AB1").unwrap();
    // the one-hop route has distance 1, which is not under the ceiling 1
    assert_eq!(Some(0), routes.routes_less_than("A", "B", 1));
    assert_eq!(Some(1), routes.routes_less_than("A", "B", 2));
}

#[test]
fn repeated_queries_agree() {
    let routes = RouteMap::new("AB5, BC4, CD8, DC8, DE6, AD5, CE2, EB3, AE7").unwrap();
    assert_eq!(
        routes.route_distance(&["A", "B", "C"]),
        routes.route_distance(&["A", "B", "C"])
    );
    assert_eq!(routes.circular_route("C", 3), routes.circular_route("C", 3));
    assert_eq!(routes.exact_stops("A", "B", 4), routes.exact_stops("A", "B", 4));
    assert_eq!(routes.shortest_route("A", "C"), routes.shortest_route("A", "C"));
    assert_eq!(
        routes.routes_less_than("C", "C", 30),
        routes.routes_less_than("C", "C", 30)
    );
}

#[test]
fn next_stops_extends_by_every_edge() {
    let routes = RouteMap::new("AB2, AC3").unwrap();
    let start = Route { distance: 0, stops: vec!["A".to_string()] };
    let ext = routes.next_stops(start);
    assert_eq!(2, ext.len());
    assert_eq!(2, ext[0].distance);
    assert_eq!(vec!["A".to_string(), "B".to_string()], ext[0].stops);
    assert_eq!(3, ext[1].distance);
    assert_eq!(vec!["A".to_string(), "C".to_string()], ext[1].stops);
}

#[test]
fn current_station_is_last_stop() {
    let route = Route { distance: 4, stops: vec!["A".to_string(), "B".to_string()] };
    assert_eq!("B", route.current_station());
}

#[test]
fn numbers_render_in_decimal() {
    assert_eq!("0", u32_to_string(0));
    assert_eq!("10", u32_to_string(10));
    assert_eq!("1234", u32_to_string(1234));
    assert_eq!("4294967295", u32_to_string(4294967295));
}
