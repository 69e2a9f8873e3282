//! Scheduling and simulation of a fleet of short-range delivery carriers
//! that fly from a single depot to a fixed set of named destinations.
//!
//! Orders are queued with a scheduler, which packs them into flights under
//! the limits of the carriers: how many orders one holds, how far one
//! flies, and how many are kept back for emergencies. A simulation plays
//! the orders of a day against a scheduler and takes snapshots of the
//! fleet, and a hub hands the snapshots to every observer that has
//! subscribed.
//!
//! Times are whole seconds since midnight. Distances are whole metres: the
//! distance between two places is rounded down, leg by leg.

pub mod destinations;
pub mod entities;
pub mod error;
pub mod flight;
pub mod geometry;
pub mod hub;
pub mod launch;
pub mod packing;
pub mod proto;
pub mod records;
pub mod runner;
pub mod scheduler;
pub mod speed;

pub use destinations::DestinationSet;
pub use entities::{Destination, DestinationName, Order, Priority};
pub use error::ConfigError;
pub use flight::{Flight, RoutePosition};
pub use geometry::{distance_between, integer_sqrt};
pub use hub::{Event, Hub};
pub use launch::NUM_RESERVE_CARRIERS;
pub use proto::ToFromProto;
pub use records::RecordError;
pub use runner::{run_day, Runner, Simulation, StatusUpdate};
pub use scheduler::{NaiveScheduler, Scheduler};
pub use speed::{Multiplier, Speed, MAX_UPDATES_PER_SECOND, NANOS_PER_SECOND};
