use fleet_dispatch::{
    distance_between, integer_sqrt, Destination, DestinationName, DestinationSet, Priority,
};

#[test]
fn integer_sqrt_rounds_down() {
    assert_eq!(integer_sqrt(0), 0);
    assert_eq!(integer_sqrt(1), 1);
    assert_eq!(integer_sqrt(3), 1);
    assert_eq!(integer_sqrt(4), 2);
    assert_eq!(integer_sqrt(99), 9);
    assert_eq!(integer_sqrt(100), 10);
    assert_eq!(integer_sqrt(u128::MAX), u64::MAX);
}

#[test]
fn distance_folds_quadrants() {
    assert_eq!(distance_between(3, 4, 0, 0), 5);
    assert_eq!(distance_between(-3, 4, 3, -4), 0);
    assert_eq!(distance_between(i64::MIN, 0, 0, 0), 1u64 << 63);
}

#[test]
fn priority_from_name() {
    assert_eq!(Priority::try_from("Emergency"), Ok(Priority::Emergency));
    assert_eq!(Priority::try_from("Resupply"), Ok(Priority::Resupply));
    assert_eq!(Priority::try_from("resupply"), Err("invalid priority".to_string()));
    assert_eq!(Priority::default(), Priority::Resupply);
}

#[test]
fn destination_distances() {
    let a = Destination { name: DestinationName::from_str("a"), north_m: 300, east_m: 0 };
    let b = Destination { name: DestinationName::from_str("b"), north_m: 0, east_m: 400 };
    assert_eq!(a.distance_from_origin(), 300);
    assert_eq!(a.distance_from_other(&b), 500);
    assert_eq!(a.name.to_string(), "a");
}

#[test]
fn later_destination_of_a_name_replaces_the_earlier() {
    let mut set = DestinationSet::new();
    assert!(set.get(&DestinationName::from_str("a")).is_none());
    set.insert(Destination { name: DestinationName::from_str("a"), north_m: 1, east_m: 2 });
    set.insert(Destination { name: DestinationName::from_str("b"), north_m: 3, east_m: 4 });
    set.insert(Destination { name: DestinationName::from_str("a"), north_m: 5, east_m: 6 });
    assert_eq!(set.get(&DestinationName::from_str("a")).unwrap().north_m, 5);
    assert_eq!(set.get(&DestinationName::from_str("b")).unwrap().east_m, 4);
    assert!(set.contains(&DestinationName::from_str("b")));
    assert!(!set.contains(&DestinationName::from_str("B")));
    let listed = DestinationSet::from_list(vec![
        Destination { name: DestinationName::from_str("a"), north_m: 1, east_m: 2 },
        Destination { name: DestinationName::from_str("a"), north_m: 7, east_m: 8 },
    ]);
    assert_eq!(listed.get(&DestinationName::from_str("a")).unwrap().north_m, 7);
}

#[test]
fn names_are_equal_if_they_spell_the_same() {
    let a = DestinationName::from_str("Camp");
    assert!(a.same_as(&DestinationName::from_str("Camp")));
    assert!(!a.same_as(&DestinationName::from_str("camp")));
    assert_eq!(a.clone(), a);
    assert_eq!(DestinationName::default().to_string(), "");
}
