//! The relation model: an immutable pair of equal-length key and payload
//! arrays (columnar layout), populated by an external generator before a run.

use vstd::prelude::*;

use crate::error::Error;
use crate::memory::MemoryRegion;

verus! {

/// A relation: keys and payloads stored as separate equal-length arrays so
/// that the engines can access them with independent patterns. The engines
/// treat a relation as read-only for the duration of a run.
pub struct Relation {
    /// The key column.
    pub keys: MemoryRegion,
    /// The payload column.
    pub payloads: MemoryRegion,
}

impl Relation {
    /// The key column's contents.
    pub open spec fn keys(&self) -> Seq<u64> {
        self.keys@
    }

    /// The payload column's contents.
    pub open spec fn payloads(&self) -> Seq<u64> {
        self.payloads@
    }

    /// Both columns expose a host-addressable view.
    pub open spec fn is_host_addressable(&self) -> bool {
        self.keys.is_host_addressable() && self.payloads.is_host_addressable()
    }

    /// Well-formedness: the two columns have equal length.
    pub open spec fn wf(&self) -> bool {
        self.keys().len() == self.payloads().len()
    }

    /// Assemble a relation from its two columns; the columns must have equal
    /// length.
    pub fn new(keys: MemoryRegion, payloads: MemoryRegion) -> (r: Result<Relation, Error>)
        ensures
            match r {
                Ok(rel) => {
                    &&& keys@.len() == payloads@.len()
                    &&& rel.wf()
                    &&& rel.keys() == keys@
                    &&& rel.payloads() == payloads@
                    &&& rel.is_host_addressable() == (keys.is_host_addressable()
                        && payloads.is_host_addressable())
                },
                Err(e) => e == Error::Data && keys@.len() != payloads@.len(),
            },
    {
        if keys.len() != payloads.len() {
            return Err(Error::Data);
        }
        Ok(Relation { keys, payloads })
    }

    /// Number of tuples.
    pub fn len(&self) -> (n: usize)
        ensures
            n == self.keys().len(),
    {
        self.keys.len()
    }
}

} // verus!
