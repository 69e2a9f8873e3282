use fleet_dispatch::{
    Destination, DestinationName, DestinationSet, Flight, Order, Priority, RoutePosition,
};

fn dests() -> DestinationSet {
    DestinationSet::from_list(vec![
        Destination { name: DestinationName::from_str("a"), north_m: 300, east_m: 0 },
        Destination { name: DestinationName::from_str("b"), north_m: 300, east_m: 400 },
    ])
}

fn flight(launch_time: u64, stops: &[&str]) -> Flight {
    Flight {
        launch_time,
        orders: stops
            .iter()
            .map(|name| Order {
                time: 0,
                destination: DestinationName::from_str(name),
                priority: Priority::Resupply,
            })
            .collect(),
    }
}

#[test]
fn route_distance_closes_the_loop() {
    assert_eq!(flight(0, &[]).total_distance(&dests()), 0);
    assert_eq!(flight(0, &["a"]).total_distance(&dests()), 600);
    assert_eq!(flight(0, &["a", "b"]).total_distance(&dests()), 300 + 400 + 500);
    assert_eq!(flight(0, &["b", "a"]).total_distance(&dests()), 500 + 400 + 300);
}

#[test]
fn end_time_rounds_the_flying_time_down() {
    assert_eq!(flight(100, &["a", "b"]).end_time(&dests(), 30), 140);
    assert_eq!(flight(100, &["a", "b"]).end_time(&dests(), 7), 100 + 171);
    assert_eq!(flight(100, &[]).end_time(&dests(), 1), 100);
    assert!(dests().knows_all(&flight(0, &["a", "b"]).orders));
    assert!(!dests().knows_all(&flight(0, &["a", "c"]).orders));
}

#[test]
fn position_walks_the_route_leg_by_leg() {
    let f = flight(100, &["a", "b"]);
    let at = |time: u64| f.current_position(&dests(), time, 10);
    let start = at(100);
    assert_eq!(
        start,
        RoutePosition {
            from_north_m: 0,
            from_east_m: 0,
            to_north_m: 300,
            to_east_m: 0,
            leg_travelled_m: 0,
            leg_length_m: 300,
            stops_remaining: 2,
        }
    );
    // the end of a leg still belongs to that leg
    let arrived = at(130);
    assert_eq!((arrived.leg_travelled_m, arrived.leg_length_m, arrived.stops_remaining), (300, 300, 2));
    let second = at(131);
    assert_eq!(
        second,
        RoutePosition {
            from_north_m: 300,
            from_east_m: 0,
            to_north_m: 300,
            to_east_m: 400,
            leg_travelled_m: 10,
            leg_length_m: 400,
            stops_remaining: 1,
        }
    );
    let home = at(200);
    assert_eq!(
        home,
        RoutePosition {
            from_north_m: 300,
            from_east_m: 400,
            to_north_m: 0,
            to_east_m: 0,
            leg_travelled_m: 300,
            leg_length_m: 500,
            stops_remaining: 0,
        }
    );
    assert_eq!(at(220).leg_travelled_m, 500);
    let past = at(221);
    assert_eq!(
        past,
        RoutePosition {
            from_north_m: 0,
            from_east_m: 0,
            to_north_m: 0,
            to_east_m: 0,
            leg_travelled_m: 0,
            leg_length_m: 0,
            stops_remaining: 0,
        }
    );
}
