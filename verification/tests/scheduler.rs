use fleet_dispatch::{
    Destination, DestinationName, DestinationSet, Flight, NaiveScheduler, Order, Priority,
    Scheduler, ConfigError, NUM_RESERVE_CARRIERS,
};

fn place(name: &str, north_m: i64, east_m: i64) -> Destination {
    Destination { name: DestinationName::from_str(name), north_m, east_m }
}

fn order(time: u64, destination: &str, priority: Priority) -> Order {
    Order { time, destination: DestinationName::from_str(destination), priority }
}

fn served(places: Vec<Destination>) -> DestinationSet {
    DestinationSet::from_list(places)
}

#[test]
fn single_order_ample_capacity() {
    let dests = served(vec![place("camp", 300, 0)]);
    let mut scheduler = NaiveScheduler::new(served(vec![place("camp", 300, 0)]), 10, 3, 30, 160_000);
    scheduler.queue_order(order(0, "camp", Priority::Resupply));
    let launched = scheduler.launch_flights(60).unwrap();
    assert_eq!(launched.len(), 1);
    assert_eq!(launched[0].launch_time, 60);
    assert_eq!(launched[0].orders, vec![order(0, "camp", Priority::Resupply)]);
    assert_eq!(launched[0].total_distance(&dests), 600);
    assert_eq!(launched[0].end_time(&dests, 30), 80);
    assert_eq!(scheduler.unfulfilled_orders().len(), 0);
    assert_eq!(scheduler.active_flights().len(), 1);
    assert_eq!(scheduler.available_carriers(), 9);
}

#[test]
fn reserve_carriers_held_back() {
    assert_eq!(NUM_RESERVE_CARRIERS, 2);
    let mut scheduler = NaiveScheduler::new(served(vec![place("camp", 300, 400)]), 10, 1, 30, 160_000);
    for i in 0..9 {
        scheduler.queue_order(order(i, "camp", Priority::Resupply));
    }
    let launched = scheduler.launch_flights(60).unwrap();
    assert_eq!(launched.len(), 8);
    for flight in &launched {
        assert_eq!(flight.orders.len(), 1);
    }
    assert_eq!(scheduler.active_flights().len(), 8);
    // the order that was queued first is examined last: no carrier is left
    // for it, and it is shed
    assert!(launched.iter().all(|flight| flight.orders[0].time != 0));
    assert_eq!(scheduler.unfulfilled_orders().len(), 0);
}

#[test]
fn orders_behind_a_shed_order_stay_pending() {
    let mut scheduler = NaiveScheduler::new(served(vec![place("camp", 300, 400)]), 10, 1, 30, 160_000);
    for i in 0..11 {
        scheduler.queue_order(order(i, "camp", Priority::Resupply));
    }
    let launched = scheduler.launch_flights(60).unwrap();
    assert_eq!(launched.len(), 8);
    let times: Vec<u64> = launched.iter().map(|flight| flight.orders[0].time).collect();
    assert_eq!(times, vec![10, 9, 8, 7, 6, 5, 4, 3]);
    let pending: Vec<u64> = scheduler.unfulfilled_orders().iter().map(|o| o.time).collect();
    assert_eq!(pending, vec![0, 1]);
}

#[test]
fn emergency_overrides_reservation() {
    let mut scheduler = NaiveScheduler::new(served(vec![place("camp", 300, 400)]), 10, 1, 30, 160_000);
    for i in 0..4 {
        scheduler.queue_order(order(i, "camp", Priority::Resupply));
    }
    scheduler.queue_order(order(4, "camp", Priority::Emergency));
    for i in 5..9 {
        scheduler.queue_order(order(i, "camp", Priority::Resupply));
    }
    let launched = scheduler.launch_flights(60).unwrap();
    assert_eq!(launched.len(), 9);
    assert_eq!(launched[0].orders, vec![order(4, "camp", Priority::Emergency)]);
    assert_eq!(scheduler.unfulfilled_orders().len(), 0);
    assert_eq!(scheduler.active_flights().len(), 9);
}

#[test]
fn unreachable_destination_is_shed() {
    let mut scheduler = NaiveScheduler::new(served(vec![place("far", 160_001, 0)]), 10, 3, 30, 160_000);
    scheduler.queue_order(order(0, "far", Priority::Resupply));
    let launched = scheduler.launch_flights(60).unwrap();
    assert_eq!(launched.len(), 0);
    assert_eq!(scheduler.unfulfilled_orders().len(), 0);
    assert_eq!(scheduler.active_flights().len(), 0);
}

#[test]
fn destination_at_the_limit_of_range_is_served() {
    let mut scheduler = NaiveScheduler::new(served(vec![place("edge", 160_000, 0)]), 10, 3, 30, 160_000);
    scheduler.queue_order(order(0, "edge", Priority::Resupply));
    let launched = scheduler.launch_flights(60).unwrap();
    assert_eq!(launched.len(), 1);
    // the way out is within range; the way back is not counted
    let dests = served(vec![place("edge", 160_000, 0)]);
    assert_eq!(launched[0].total_distance(&dests), 320_000);
}

#[test]
fn unknown_destination_fails_the_launch() {
    let mut scheduler = NaiveScheduler::new(served(vec![place("camp", 300, 0)]), 10, 3, 30, 160_000);
    scheduler.queue_order(order(0, "camp", Priority::Resupply));
    scheduler.queue_order(order(1, "nowhere", Priority::Resupply));
    assert_eq!(scheduler.launch_flights(60), Err(ConfigError::UnknownDestination));
    assert_eq!(scheduler.unfulfilled_orders().len(), 2);
    assert_eq!(scheduler.active_flights().len(), 0);
    assert_eq!(ConfigError::UnknownDestination.message(), "Unknown destination");
}

#[test]
fn resupply_fills_the_fullest_bin() {
    let mut scheduler = NaiveScheduler::new(
        served(vec![place("a", 100, 0), place("b", 200, 0), place("c", 300, 0)]),
        10,
        3,
        30,
        160_000,
    );
    scheduler.queue_order(order(0, "a", Priority::Resupply));
    scheduler.queue_order(order(1, "b", Priority::Resupply));
    scheduler.queue_order(order(2, "c", Priority::Resupply));
    scheduler.queue_order(order(3, "a", Priority::Resupply));
    let launched = scheduler.launch_flights(120).unwrap();
    assert_eq!(launched.len(), 2);
    let first: Vec<u64> = launched[0].orders.iter().map(|o| o.time).collect();
    let second: Vec<u64> = launched[1].orders.iter().map(|o| o.time).collect();
    assert_eq!(first, vec![3, 2, 1]);
    assert_eq!(second, vec![0]);
}

#[test]
fn emergencies_go_to_the_least_loaded_bin() {
    let mut scheduler = NaiveScheduler::new(
        served(vec![place("a", 100, 0), place("b", 200, 0)]),
        4,
        3,
        30,
        160_000,
    );
    scheduler.queue_order(order(0, "a", Priority::Emergency));
    scheduler.queue_order(order(1, "b", Priority::Emergency));
    scheduler.queue_order(order(2, "a", Priority::Resupply));
    let launched = scheduler.launch_flights(0).unwrap();
    // each emergency gets a carrier of its own; the resupply joins the
    // first of the bins that hold most orders
    assert_eq!(launched.len(), 2);
    let first: Vec<u64> = launched[0].orders.iter().map(|o| o.time).collect();
    let second: Vec<u64> = launched[1].orders.iter().map(|o| o.time).collect();
    assert_eq!(first, vec![1, 2]);
    assert_eq!(second, vec![0]);
}

#[test]
fn range_limits_the_way_out() {
    let mut scheduler = NaiveScheduler::new(
        served(vec![place("a", 100, 0), place("b", 0, 100)]),
        10,
        3,
        30,
        241,
    );
    scheduler.queue_order(order(0, "a", Priority::Resupply));
    scheduler.queue_order(order(1, "b", Priority::Resupply));
    scheduler.queue_order(order(2, "a", Priority::Resupply));
    let launched = scheduler.launch_flights(0).unwrap();
    // depot to a: 100, a to b: 141, b to a: 141 more would pass 241
    assert_eq!(launched.len(), 2);
    let first: Vec<u64> = launched[0].orders.iter().map(|o| o.time).collect();
    let second: Vec<u64> = launched[1].orders.iter().map(|o| o.time).collect();
    assert_eq!(first, vec![2, 1]);
    assert_eq!(second, vec![0]);
}

#[test]
fn flights_land_when_their_time_has_come() {
    let dests = served(vec![place("camp", 300, 0)]);
    let mut scheduler = NaiveScheduler::new(served(vec![place("camp", 300, 0)]), 3, 3, 30, 160_000);
    scheduler.queue_order(order(0, "camp", Priority::Emergency));
    let launched = scheduler.launch_flights(60).unwrap();
    assert_eq!(launched[0].end_time(&dests, 30), 80);
    assert!(!launched[0].has_landed(&dests, 30, 79));
    assert!(launched[0].has_landed(&dests, 30, 80));
    scheduler.process_landings(79);
    assert_eq!(scheduler.active_flights().len(), 1);
    scheduler.process_landings(80);
    assert_eq!(scheduler.active_flights().len(), 0);
}

#[test]
fn capacity_counts_flights_in_the_air() {
    let mut scheduler = NaiveScheduler::new(served(vec![place("camp", 3000, 0)]), 3, 1, 30, 160_000);
    scheduler.queue_order(order(0, "camp", Priority::Emergency));
    scheduler.queue_order(order(1, "camp", Priority::Emergency));
    assert_eq!(scheduler.launch_flights(60).unwrap().len(), 2);
    scheduler.queue_order(order(2, "camp", Priority::Emergency));
    scheduler.queue_order(order(3, "camp", Priority::Emergency));
    // one carrier is left; the second emergency finds none and is shed
    assert_eq!(scheduler.launch_flights(120).unwrap().len(), 1);
    assert_eq!(scheduler.active_flights().len(), 3);
    assert_eq!(scheduler.unfulfilled_orders().len(), 0);
    // the first two flights are back at 60 + 6000 / 30
    scheduler.queue_order(order(4, "camp", Priority::Emergency));
    assert_eq!(scheduler.launch_flights(260).unwrap().len(), 1);
    assert_eq!(scheduler.active_flights().len(), 2);
}

#[test]
fn a_stop_at_the_depot_still_flies() {
    let mut scheduler = NaiveScheduler::new(served(vec![place("depot", 0, 0)]), 3, 3, 30, 160_000);
    scheduler.queue_order(order(0, "depot", Priority::Emergency));
    let launched: Vec<Flight> = scheduler.launch_flights(60).unwrap();
    assert_eq!(launched.len(), 1);
    assert_eq!(scheduler.active_flights().len(), 1);
}

#[test]
fn reserve_is_floored_at_zero() {
    let mut scheduler = NaiveScheduler::new(served(vec![place("camp", 300, 0)]), 1, 3, 30, 160_000);
    scheduler.queue_order(order(0, "camp", Priority::Resupply));
    scheduler.queue_order(order(1, "camp", Priority::Resupply));
    // the one carrier is held back: no bin, and the order that is examined is shed
    assert_eq!(scheduler.launch_flights(60).unwrap().len(), 0);
    assert_eq!(scheduler.active_flights().len(), 0);
    let pending: Vec<u64> = scheduler.unfulfilled_orders().iter().map(|o| o.time).collect();
    assert_eq!(pending, vec![0]);
    // an emergency frees the reserve
    scheduler.queue_order(order(2, "camp", Priority::Emergency));
    let launched = scheduler.launch_flights(120).unwrap();
    assert_eq!(launched.len(), 1);
    let aboard: Vec<u64> = launched[0].orders.iter().map(|o| o.time).collect();
    assert_eq!(aboard, vec![2, 0]);
    assert_eq!(scheduler.unfulfilled_orders().len(), 0);
}

#[test]
fn carriers_without_room_take_nothing() {
    let mut scheduler = NaiveScheduler::new(served(vec![place("camp", 300, 0)]), 5, 0, 30, 160_000);
    scheduler.queue_order(order(0, "camp", Priority::Emergency));
    scheduler.queue_order(order(1, "camp", Priority::Emergency));
    assert_eq!(scheduler.launch_flights(60).unwrap().len(), 0);
    assert_eq!(scheduler.unfulfilled_orders().len(), 1);
    assert_eq!(scheduler.available_carriers(), 5);
}

#[test]
fn launch_without_orders_launches_nothing() {
    let mut scheduler = NaiveScheduler::new(served(vec![place("camp", 300, 0)]), 5, 3, 30, 160_000);
    assert_eq!(scheduler.launch_flights(0), Ok(vec![]));
    assert_eq!(scheduler.unfulfilled_orders().len(), 0);
    assert_eq!(Flight::default(), Flight { launch_time: 0, orders: vec![] });
}

#[test]
fn every_order_is_pending_aboard_or_shed() {
    let mut scheduler = NaiveScheduler::new(
        served(vec![place("near", 100, 0), place("far", 900, 0)]),
        6,
        2,
        30,
        1000,
    );
    for i in 0..12 {
        let name = if i % 4 == 0 { "far" } else { "near" };
        let priority = if i % 5 == 0 { Priority::Emergency } else { Priority::Resupply };
        scheduler.queue_order(order(i, name, priority));
    }
    let launched = scheduler.launch_flights(60).unwrap();
    let mut seen: Vec<u64> = vec![];
    for flight in &launched {
        assert!(flight.orders.len() >= 1 && flight.orders.len() <= 2);
        for o in &flight.orders {
            seen.push(o.time);
        }
    }
    for o in scheduler.unfulfilled_orders() {
        seen.push(o.time);
    }
    let placed_or_pending = seen.len();
    seen.sort();
    seen.dedup();
    assert_eq!(seen.len(), placed_or_pending);
    assert!(placed_or_pending == 12 || placed_or_pending == 11);
    assert!(scheduler.active_flights().len() <= 6);
}

#[test]
fn default_fleet_has_ten_carriers() {
    let mut scheduler = NaiveScheduler::with_defaults(served(vec![place("camp", 300, 400)]));
    assert_eq!(scheduler.available_carriers(), 10);
    for i in 0..7 {
        scheduler.queue_order(order(i, "camp", Priority::Emergency));
    }
    let launched = scheduler.launch_flights(0).unwrap();
    // every emergency gets a carrier of its own, with room for three orders
    assert_eq!(launched.len(), 7);
    let dests = served(vec![place("camp", 300, 400)]);
    assert_eq!(launched[0].end_time(&dests, 30), 33);
    for i in 0..10 {
        scheduler.queue_order(order(i, "camp", Priority::Resupply));
    }
    // one carrier is left beside the reserve of two: it takes three orders
    let launched = scheduler.launch_flights(1).unwrap();
    assert_eq!(launched.len(), 1);
    assert_eq!(launched[0].orders.len(), 3);
    assert_eq!(scheduler.unfulfilled_orders().len(), 6);
}
