use fleet_dispatch::{Event, Flight, Hub, Speed, StatusUpdate};
use futures::channel::mpsc;

fn update(time: u64) -> StatusUpdate {
    StatusUpdate {
        time,
        flights: vec![Flight { launch_time: time, orders: vec![] }],
        speed: Speed::RealTime,
    }
}

#[test]
fn every_subscriber_gets_every_snapshot_in_sequence() {
    let mut hub = Hub::new();
    let (tx1, mut rx1) = mpsc::unbounded();
    let (tx2, mut rx2) = mpsc::unbounded();
    hub.subscribe(1, tx1);
    hub.subscribe(2, tx2);
    assert_eq!(hub.len(), 2);
    assert_eq!(hub.broadcast(&update(10)), Vec::<u128>::new());
    assert_eq!(hub.broadcast(&update(11)), Vec::<u128>::new());
    for rx in [&mut rx1, &mut rx2] {
        let first = rx.try_next().unwrap().unwrap();
        assert_eq!(first.time, 10);
        assert_eq!(first.flights, vec![Flight { launch_time: 10, orders: vec![] }]);
        assert_eq!(rx.try_next().unwrap().unwrap().time, 11);
        assert!(rx.try_next().is_err());
    }
}

#[test]
fn subscriber_that_went_away_is_forgotten() {
    let mut hub = Hub::new();
    let (tx1, rx1) = mpsc::unbounded();
    let (tx2, mut rx2) = mpsc::unbounded();
    let (tx3, rx3) = mpsc::unbounded();
    hub.subscribe(7, tx1);
    hub.subscribe(8, tx2);
    hub.subscribe(9, tx3);
    drop(rx1);
    drop(rx3);
    let mut left = hub.broadcast(&update(1));
    left.sort();
    assert_eq!(left, vec![7, 9]);
    assert_eq!(hub.len(), 1);
    assert!(!hub.is_subscribed(7));
    assert!(hub.is_subscribed(8));
    assert!(!hub.is_subscribed(9));
    assert_eq!(rx2.try_next().unwrap().unwrap().time, 1);
    assert_eq!(hub.broadcast(&update(2)), Vec::<u128>::new());
    assert_eq!(rx2.try_next().unwrap().unwrap().time, 2);
}

#[test]
fn new_subscriber_sees_later_snapshots_only() {
    let mut hub = Hub::new();
    assert_eq!(hub.handle(Event::Update(update(1))), Vec::<u128>::new());
    let (tx, mut rx) = mpsc::unbounded();
    assert_eq!(hub.handle(Event::NewSubscription(5, tx)), Vec::<u128>::new());
    assert_eq!(hub.handle(Event::Update(update(2))), Vec::<u128>::new());
    assert_eq!(rx.try_next().unwrap().unwrap().time, 2);
    assert!(rx.try_next().is_err());
    drop(rx);
    assert_eq!(hub.handle(Event::Update(update(3))), vec![5]);
    assert_eq!(hub.len(), 0);
}

#[test]
fn subscribing_again_replaces_the_channel() {
    let mut hub = Hub::new();
    let (tx1, mut rx1) = mpsc::unbounded();
    let (tx2, mut rx2) = mpsc::unbounded();
    hub.subscribe(5, tx1);
    hub.subscribe(5, tx2);
    assert_eq!(hub.len(), 1);
    hub.broadcast(&update(4));
    // the first channel lost its only sender: it is closed and empty
    assert!(matches!(rx1.try_next(), Ok(None)));
    assert_eq!(rx2.try_next().unwrap().unwrap().time, 4);
}

#[test]
fn named_subscribers_are_forgotten() {
    let mut hub = Hub::new();
    let mut receivers = vec![];
    for id in 0..5u128 {
        let (tx, rx) = mpsc::unbounded();
        hub.subscribe(id, tx);
        receivers.push(rx);
    }
    hub.forget(&vec![1, 2, 4, 2, 9]);
    assert_eq!(hub.len(), 2);
    assert!(hub.is_subscribed(0) && hub.is_subscribed(3));
    assert!(!hub.is_subscribed(1) && !hub.is_subscribed(2) && !hub.is_subscribed(4));
    // the channels of those that were forgotten are closed, the others are open
    assert!(matches!(receivers[1].try_next(), Ok(None)));
    assert!(receivers[0].try_next().is_err());
    hub.forget(&vec![]);
    assert_eq!(hub.len(), 2);
}

#[test]
fn hub_without_subscribers_hands_out_nothing() {
    let mut hub = Hub::new();
    assert_eq!(hub.len(), 0);
    assert_eq!(hub.broadcast(&update(1)), Vec::<u128>::new());
    assert_eq!(hub.len(), 0);
    assert!(!hub.is_subscribed(0));
}

#[test]
fn answers_decide_who_is_forgotten() {
    let mut hub = Hub::new();
    let mut receivers = vec![];
    for id in 0..4u128 {
        let (tx, rx) = mpsc::unbounded();
        hub.subscribe(id, tx);
        receivers.push(rx);
    }
    let left = hub.prune(&vec![(3, true), (0, false), (1, true), (2, false)]);
    assert_eq!(left, vec![3, 1]);
    assert_eq!(hub.len(), 2);
    assert!(hub.is_subscribed(0) && hub.is_subscribed(2));
    assert!(!hub.is_subscribed(1) && !hub.is_subscribed(3));
    assert_eq!(hub.prune(&vec![(0, false), (2, false)]), Vec::<u128>::new());
    assert_eq!(hub.prune(&vec![]), Vec::<u128>::new());
    assert_eq!(hub.len(), 2);
}

#[test]
fn only_those_that_went_away_leave() {
    let mut hub = Hub::new();
    let mut kept = vec![];
    for id in 0..20u128 {
        let (tx, rx) = mpsc::unbounded();
        hub.subscribe(id, tx);
        if id % 3 == 0 {
            drop(rx);
        } else {
            kept.push((id, rx));
        }
    }
    let mut left = hub.broadcast(&update(5));
    left.sort();
    assert_eq!(left, vec![0, 3, 6, 9, 12, 15, 18]);
    assert_eq!(hub.len(), 13);
    for (id, rx) in kept.iter_mut() {
        assert!(hub.is_subscribed(*id));
        assert_eq!(rx.try_next().unwrap().unwrap().time, 5);
    }
}
