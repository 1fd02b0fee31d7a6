use routegraph::Command;
use routegraph::RouteMap;

#[test]
fn check_distance() {
    let routes = RouteMap::new("AB2, BC3").unwrap();
    let distance = routes.route_distance(&["A", "B", "C"]).unwrap();
    assert_eq!(5, distance);
}

#[test]
fn check_no_route() {
    let routes = RouteMap::new("AB3, CD4").unwrap();
    let distance = routes.route_distance(&["A", "C"]);
    assert_eq!(None, distance)
}

#[test]
fn check_circular() {
    let routes = RouteMap::new("CD3, DE3, EC3, EB4, BC4").unwrap();
    let count = routes.circular_route("C", 4).unwrap();
    assert_eq!(2, count)
}

#[test]
fn check_exact_stops() {
    let routes = RouteMap::new("AB3, AC2, BC3, BA2, CA7").unwrap();
    println!("{:?}", routes);
    let count = routes.exact_stops("A", "B", 2).unwrap();
    assert_eq!(2, count)
}

#[test]
fn check_shortest_route() {
    let routes = RouteMap::new("AB1, BC1, AD3, DC3").unwrap();
    let distance = routes.shortest_route("A", "C").unwrap();
    assert_eq!(2, distance)
}

#[test]
fn check_routes_less_than() {
    let routes = RouteMap::new("AB1, BC1, BA2, CA3, CD5, DA5").unwrap();
    let count = routes.routes_less_than("A", "A", 8).unwrap();
    assert_eq!(3, count)
}

#[test]
fn check_all_commands() {
    let routes = RouteMap::new("AB5, BC4, CD8, DC8, DE6, AD5, CE2, EB3, AE7").unwrap();
    let commands = [
        Command::ABCDistance,
        Command::ADDistance,
        Command::ADCDistance,
        Command::AEBCDDistance,
        Command::AEDDistance,
        Command::CCircular,
        Command::ACFourStop,
        Command::ACExpress,
        Command::BCircle,
        Command::CLessThanCircular,
    ];
    let expected = ["9", "5", "13", "22", "NO SUCH ROUTE", "2", "3", "9", "9", "7"];
    for (expected, cmd) in expected.iter().zip(commands.iter()) {
        let result = routes.eval_cmd(cmd);
        assert_eq!(expected, &result)
    }
}
