//! What can go wrong in a run.

use vstd::prelude::*;

verus! {

/// A fault in the data that a run was given.
#[derive(Clone, Copy, Debug, PartialEq, Eq, Structural)]
pub enum ConfigError {
    /// The list of orders is empty.
    NoOrders,
    /// An order names a destination that the fleet does not serve.
    UnknownDestination,
}

impl ConfigError {
    /// A description of the fault.
    pub fn message(&self) -> (text: String)
        ensures
            text@ == match *self {
                ConfigError::NoOrders => "No orders"@,
                ConfigError::UnknownDestination => "Unknown destination"@,
            },
    {
        match self {
            ConfigError::NoOrders => "No orders".to_owned(),
            ConfigError::UnknownDestination => "Unknown destination".to_owned(),
        }
    }
}

} // verus!
