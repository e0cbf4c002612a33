//! Typed errors for the memory backend and the join engines.

use vstd::prelude::*;

verus! {

/// The error kinds that the library's operations can surface.
///
/// - `Allocation`: a bad size, an unsupported kind/placement combination, or a
///   size computation that overflows.
/// - `Policy`: accelerator-only memory was requested where a host pointer is
///   required.
/// - `Data`: malformed input data, such as a key equal to the null sentinel or
///   non-unique keys under perfect hashing.
/// - `Device`: a driver or kernel-launch failure (raised only by unverified
///   device drivers around the library).
/// - `Runtime`: an execution failure, such as a linear-probing scan exhausting
///   a full table.
#[derive(Clone, Copy, Debug, PartialEq, Eq, Structural)]
pub enum Error {
    Allocation,
    Policy,
    Data,
    Device,
    Runtime,
}

impl Error {
    /// A short human-readable description of the error kind.
    pub fn describe(&self) -> (r: &'static str)
        ensures
            r@.len() > 0,
    {
        proof {
            reveal_strlit("allocation failure: bad size, unsupported kind, or overflow");
            reveal_strlit("policy violation: no host-addressable view of this memory kind");
            reveal_strlit("data error: sentinel key or non-unique keys under perfect hashing");
            reveal_strlit("device error: driver or kernel-launch failure");
            reveal_strlit("runtime error: operation could not complete");
        }
        match self {
            Error::Allocation => "allocation failure: bad size, unsupported kind, or overflow",
            Error::Policy => "policy violation: no host-addressable view of this memory kind",
            Error::Data => "data error: sentinel key or non-unique keys under perfect hashing",
            Error::Device => "device error: driver or kernel-launch failure",
            Error::Runtime => "runtime error: operation could not complete",
        }
    }
}

} // verus!
