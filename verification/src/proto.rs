//! Conversion between the values of this library and the messages that
//! carry them on the wire.

use vstd::prelude::*;

verus! {

/// A value that can be turned into a message of type `Proto` and read back
/// from one.
pub trait ToFromProto<Proto>: Sized {
    /// Reads the value from a message, if the message holds one.
    fn try_from_proto(proto: Proto) -> Option<Self>;

    /// Turns the value into a message.
    fn into_proto(self) -> Proto;
}

} // verus!
