//! Destinations, orders and their priorities.

use crate::geometry::{distance_between, separation};
use vstd::prelude::*;

verus! {

/// How urgent an order is.
#[derive(Clone, Copy, Debug, PartialEq, Eq, Structural)]
pub enum Priority {
    Emergency,
    Resupply,
}

impl Default for Priority {
    fn default() -> (priority: Self)
        ensures
            priority == Priority::Resupply,
    {
        Priority::Resupply
    }
}

impl Priority {
    /// The priority that `name` spells, if it spells one.
    pub open spec fn named(name: Seq<char>) -> Option<Priority> {
        if name == "Emergency"@ {
            Some(Priority::Emergency)
        } else if name == "Resupply"@ {
            Some(Priority::Resupply)
        } else {
            None
        }
    }

    /// Reads a priority from its name, `Emergency` or `Resupply`.
    pub fn try_from(s: &str) -> (parsed: Result<Priority, String>)
        ensures
            match Priority::named(s@) {
                Some(priority) => parsed == Ok::<Priority, String>(priority),
                None => parsed is Err && parsed->Err_0@ == "invalid priority"@,
            },
    {
        let given = s.to_owned();
        if given == "Emergency".to_owned() {
            Ok(Priority::Emergency)
        } else if given == "Resupply".to_owned() {
            Ok(Priority::Resupply)
        } else {
            Err("invalid priority".to_owned())
        }
    }
}

/// The name of a destination: a case-sensitive key.
#[derive(Debug, PartialEq, Eq, Hash)]
pub struct DestinationName(String);

impl View for DestinationName {
    type V = Seq<char>;

    closed spec fn view(&self) -> Seq<char> {
        self.0@
    }
}

impl Default for DestinationName {
    fn default() -> (name: Self)
        ensures
            name@ == Seq::<char>::empty(),
    {
        DestinationName(String::new())
    }
}

impl Clone for DestinationName {
    fn clone(&self) -> (copy: Self)
        ensures
            copy == *self,
    {
        DestinationName(self.0.clone())
    }
}

impl DestinationName {
    /// The name that the text spells.
    pub fn from_str(s: &str) -> (name: Self)
        ensures
            name@ == s@,
    {
        DestinationName(s.to_owned())
    }

    /// The text of the name.
    pub fn to_string(&self) -> (text: String)
        ensures
            text@ == self@,
    {
        self.0.clone()
    }

    /// Whether two names spell the same text.
    pub fn same_as(&self, other: &DestinationName) -> (same: bool)
        ensures
            same == (self@ == other@),
    {
        self.0 == other.0
    }
}

/// A place to which carriers deliver orders.
#[derive(Debug, PartialEq, Eq)]
pub struct Destination {
    /// The name of the destination
    pub name: DestinationName,
    /// Offset to the north of the depot in metres
    pub north_m: i64,
    /// Offset to the east of the depot in metres
    pub east_m: i64,
}

impl Default for Destination {
    fn default() -> (destination: Self)
        ensures
            destination.name@ == Seq::<char>::empty(),
            destination.north_m == 0,
            destination.east_m == 0,
    {
        Destination { name: DestinationName::default(), north_m: 0, east_m: 0 }
    }
}

impl Clone for Destination {
    fn clone(&self) -> (copy: Self)
        ensures
            copy == *self,
    {
        Destination { name: self.name.clone(), north_m: self.north_m, east_m: self.east_m }
    }
}

impl Destination {
    /// The distance in whole metres between two destinations.
    pub open spec fn distance(self, other: Destination) -> nat {
        separation(
            self.north_m as int,
            self.east_m as int,
            other.north_m as int,
            other.east_m as int,
        )
    }

    /// The distance in whole metres between a destination and the depot.
    pub open spec fn distance_to_depot(self) -> nat {
        separation(self.north_m as int, self.east_m as int, 0, 0)
    }

    /// Returns the destination's distance from another destination in metres
    pub fn distance_from_other(&self, other: &Destination) -> (metres: u64)
        ensures
            metres == self.distance(*other),
    {
        distance_between(self.north_m, self.east_m, other.north_m, other.east_m)
    }

    /// Returns the destination's distance from the depot in metres
    pub fn distance_from_origin(&self) -> (metres: u64)
        ensures
            metres == self.distance_to_depot(),
    {
        distance_between(self.north_m, self.east_m, 0, 0)
    }
}

/// A request for delivery of something to a destination.
#[derive(Debug, PartialEq, Eq)]
pub struct Order {
    /// Time in seconds since midnight at which the order was placed
    pub time: u64,
    /// Name of the destination
    pub destination: DestinationName,
    /// Priority of the order
    pub priority: Priority,
}

impl Default for Order {
    fn default() -> (order: Self)
        ensures
            order.time == 0,
            order.destination@ == Seq::<char>::empty(),
            order.priority == Priority::Resupply,
    {
        Order { time: 0, destination: DestinationName::default(), priority: Priority::Resupply }
    }
}

impl Clone for Order {
    fn clone(&self) -> (copy: Self)
        ensures
            copy == *self,
    {
        Order {
            time: self.time,
            destination: self.destination.clone(),
            priority: self.priority,
        }
    }
}

impl Order {
    /// Whether the order is an emergency.
    pub open spec fn urgent(self) -> bool {
        self.priority == Priority::Emergency
    }

    /// Whether the order is an emergency.
    pub fn is_emergency(&self) -> (urgent: bool)
        ensures
            urgent == self.urgent(),
    {
        match self.priority {
            Priority::Emergency => true,
            Priority::Resupply => false,
        }
    }
}

} // verus!
