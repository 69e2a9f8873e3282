use fleet_dispatch::runner::{sort_by_time, LAUNCH_PERIOD, SECONDS_PER_DAY};
use fleet_dispatch::{
    run_day, ConfigError, Destination, DestinationName, DestinationSet, NaiveScheduler, Order,
    Priority, Scheduler, Simulation, Speed,
};

fn camp() -> DestinationSet {
    DestinationSet::from_list(vec![
        Destination { name: DestinationName::from_str("camp"), north_m: 300, east_m: 0 },
        Destination { name: DestinationName::from_str("ridge"), north_m: 3000, east_m: 4000 },
    ])
}

fn fleet() -> NaiveScheduler {
    NaiveScheduler::new(camp(), 10, 3, 30, 160_000)
}

fn order(time: u64, destination: &str) -> Order {
    Order { time, destination: DestinationName::from_str(destination), priority: Priority::Resupply }
}

#[test]
fn day_with_one_order_leaves_nothing() {
    let result = run_day(Speed::RealTime, vec![order(0, "camp")], fleet());
    assert_eq!(result, Ok(0));
}

#[test]
fn day_without_orders_is_refused() {
    assert_eq!(run_day(Speed::RealTime, vec![], fleet()), Err(ConfigError::NoOrders));
    assert_eq!(ConfigError::NoOrders.message(), "No orders");
}

#[test]
fn order_for_unknown_destination_is_refused() {
    let orders = vec![order(0, "camp"), order(5, "nowhere")];
    assert_eq!(run_day(Speed::RealTime, orders, fleet()), Err(ConfigError::UnknownDestination));
    let mut scheduler = fleet();
    scheduler.queue_order(order(0, "nowhere"));
    assert_eq!(
        run_day(Speed::RealTime, vec![order(0, "camp")], scheduler),
        Err(ConfigError::UnknownDestination)
    );
    assert!(matches!(
        Simulation::new(Speed::RealTime, vec![], fleet()),
        Err(ConfigError::NoOrders)
    ));
}

#[test]
fn orders_are_sorted_by_time_and_keep_their_sequence() {
    let sorted = sort_by_time(vec![
        order(30, "camp"),
        order(10, "ridge"),
        order(30, "ridge"),
        order(10, "camp"),
        order(20, "camp"),
    ]);
    let got: Vec<(u64, String)> =
        sorted.iter().map(|o| (o.time, o.destination.to_string())).collect();
    assert_eq!(
        got,
        vec![
            (10, "ridge".to_string()),
            (10, "camp".to_string()),
            (20, "camp".to_string()),
            (30, "camp".to_string()),
            (30, "ridge".to_string()),
        ]
    );
}

#[test]
fn clock_starts_at_the_first_order_and_ends_with_the_day() {
    assert_eq!(SECONDS_PER_DAY, 86_400);
    assert_eq!(LAUNCH_PERIOD, 60);
    let mut simulation =
        Simulation::new(Speed::RealTime, vec![order(86_399, "camp"), order(86_390, "camp")], fleet())
            .unwrap();
    assert_eq!(simulation.time(), 86_390);
    let mut ticks = 0;
    while !simulation.is_finished() {
        simulation.step();
        ticks += 1;
    }
    assert_eq!(ticks, 11);
    assert_eq!(simulation.time(), 86_401);
    // both orders were queued, and the launch at the last second took them
    assert_eq!(simulation.unfulfilled(), 0);
    assert_eq!(simulation.scheduler().active_flights().len(), 1);
}

#[test]
fn order_on_a_launch_tick_is_bundled_into_the_launch() {
    let mut simulation =
        Simulation::new(Speed::RealTime, vec![order(120, "camp"), order(130, "ridge")], fleet())
            .unwrap();
    let first = simulation.step().unwrap();
    assert_eq!(first.time, 120);
    assert_eq!(first.flights.len(), 1);
    assert_eq!(first.flights[0].launch_time, 120);
    assert_eq!(first.flights[0].orders, vec![order(120, "camp")]);
    assert_eq!(simulation.unfulfilled(), 0);
    for _ in 121..130 {
        simulation.step();
    }
    assert_eq!(simulation.unfulfilled(), 0);
    simulation.step();
    assert_eq!(simulation.unfulfilled(), 1);
    // the first flight is back at 120 + 600 / 30
    assert_eq!(simulation.scheduler().active_flights().len(), 1);
    for _ in 131..=180 {
        simulation.step();
    }
    assert_eq!(simulation.unfulfilled(), 0);
    let flights = simulation.scheduler().active_flights();
    assert_eq!(flights.len(), 1);
    assert_eq!(flights[0].launch_time, 180);
}

#[test]
fn second_order_of_the_same_second_is_never_fed() {
    let orders = vec![order(100, "camp"), order(100, "ridge"), order(200, "camp")];
    let mut simulation = Simulation::new(Speed::RealTime, orders, fleet()).unwrap();
    let mut launched = 0;
    let mut last = 0;
    while !simulation.is_finished() {
        if let Some(update) = simulation.step() {
            if update.flights.len() != last && update.flights.len() > 0 {
                launched += 1;
            }
            last = update.flights.len();
        }
    }
    assert_eq!(launched, 1);
    assert_eq!(simulation.unfulfilled(), 0);
}

#[test]
fn snapshots_are_throttled_in_fast_forward() {
    let speed = Speed::fast_forward(200).unwrap();
    assert_eq!(speed.snapshot_interval(), 50);
    let mut simulation = Simulation::new(speed, vec![order(1, "camp")], fleet()).unwrap();
    let mut times = vec![];
    for _ in 0..200 {
        if let Some(update) = simulation.step() {
            times.push(update.time);
        }
    }
    assert_eq!(times, vec![50, 100, 150, 200]);
    assert_eq!(simulation.pause_nanos(), 5_000_000);
}

#[test]
fn snapshots_come_every_second_at_other_speeds() {
    for speed in [Speed::RealTime, Speed::fast_forward(3).unwrap(), Speed::slow_motion(9).unwrap()] {
        assert_eq!(speed.snapshot_interval(), 1);
        let mut simulation = Simulation::new(speed, vec![order(7, "camp")], fleet()).unwrap();
        for t in 7..20 {
            let update = simulation.step().unwrap();
            assert_eq!(update.time, t);
            assert_eq!(update.speed, speed);
        }
    }
}

#[test]
fn order_beyond_the_day_is_not_simulated() {
    let mut simulation =
        Simulation::new(Speed::RealTime, vec![order(86_401, "camp")], fleet()).unwrap();
    assert!(simulation.is_finished());
    assert_eq!(simulation.run_to_completion(), 0);
}

#[test]
fn busy_day_ends_with_no_order_pending() {
    let mut orders = vec![];
    for i in 0..200u64 {
        let name = if i % 3 == 0 { "ridge" } else { "camp" };
        let priority = if i % 7 == 0 { Priority::Emergency } else { Priority::Resupply };
        orders.push(Order {
            time: 30_000 + i * 61,
            destination: DestinationName::from_str(name),
            priority,
        });
    }
    assert_eq!(run_day(Speed::fast_forward(200).unwrap(), orders, fleet()), Ok(0));
}

#[test]
fn defaults_serve_a_sample_day() {
    let destinations = Destination::from_csv(
        "Camp, 300, 400\nRidge, -3000, 4000\nLake, 12000, -5000\nMine, -40000, -30000\n",
    )
    .unwrap();
    let orders = Order::from_csv(
        "25200, Camp, Resupply\n25260, Ridge, Emergency\n25261, Lake, Resupply\n\
         30000, Mine, Resupply\n30001, Camp, Emergency\n43200, Ridge, Resupply\n\
         43230, Lake, Emergency\n60000, Mine, Emergency\n72000, Camp, Resupply\n",
    )
    .unwrap();
    assert_eq!(orders.len(), 9);
    let scheduler = NaiveScheduler::with_defaults(DestinationSet::from_list(destinations));
    assert_eq!(run_day(Speed::fast_forward(200).unwrap(), orders, scheduler), Ok(0));
}

#[test]
fn snapshots_reach_a_subscriber_in_sequence() {
    let mut hub = fleet_dispatch::Hub::new();
    let (tx, mut rx) = futures::channel::mpsc::unbounded();
    hub.subscribe(1, tx);
    let mut simulation =
        Simulation::new(Speed::RealTime, vec![order(58, "camp"), order(61, "ridge")], fleet())
            .unwrap();
    for _ in 58..=120 {
        if let Some(update) = simulation.step() {
            assert!(hub.broadcast(&update).is_empty());
        }
    }
    let mut times = vec![];
    let mut flights = vec![];
    while let Ok(Some(update)) = rx.try_next() {
        times.push(update.time);
        flights.push(update.flights.len());
    }
    assert_eq!(times, (58..=120).collect::<Vec<u64>>());
    // the first order flies from 60 and is back by 80, the second flies from 120
    assert_eq!(flights[0..2], [0, 0]);
    assert_eq!(flights[2..62], [1; 60]);
    assert_eq!(flights[62], 1);
}

#[test]
fn order_out_of_range_is_shed_and_the_day_goes_on() {
    let far = DestinationSet::from_list(vec![
        Destination { name: DestinationName::from_str("far"), north_m: 160_001, east_m: 0 },
        Destination { name: DestinationName::from_str("camp"), north_m: 300, east_m: 0 },
    ]);
    let scheduler = NaiveScheduler::with_defaults(far);
    let orders = vec![order(10, "far"), order(100, "camp")];
    let mut simulation = Simulation::new(Speed::RealTime, orders, scheduler).unwrap();
    for _ in 10..=60 {
        simulation.step();
    }
    // the launch at 60 found no carrier that reaches so far
    assert_eq!(simulation.unfulfilled(), 0);
    assert_eq!(simulation.scheduler().active_flights().len(), 0);
    assert_eq!(simulation.run_to_completion(), 0);
}
