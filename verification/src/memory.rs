//! The memory backend: tagged, fixed-size memory regions of a chosen kind and
//! placement, and the allocator that hands them out.
//!
//! A region's contents are modelled as the sequence of 64-bit words it stores,
//! wherever those words physically live. Kinds that are not host-addressable
//! (accelerator-resident memory) refuse the public host view; the engines that
//! are allowed to reach such memory use crate-internal accessors instead.

use vstd::prelude::*;

use crate::error::Error;

verus! {

/// Bytes occupied by one 64-bit element of a region.
pub const ELEM_BYTES: usize = 8;

/// Elements per 4 KiB page; touching one element out of every
/// `PAGE_STRIDE_ELEMS` touches every page of a region.
pub const PAGE_STRIDE_ELEMS: usize = 512;

/// The closed set of memory kinds a region can be allocated in.
///
/// All kinds except `Device` expose a host-addressable view. `Unified` and
/// `Device` are reachable from the accelerator.
#[derive(Clone, Copy, Debug, PartialEq, Eq, Structural)]
pub enum MemType {
    /// Plain host memory.
    System,
    /// Host memory bound to the given NUMA node. Pages are not guaranteed to
    /// be physically placed on that node until each page is first written.
    Numa(u16),
    /// Pinned (page-locked, DMA-eligible) host memory.
    Pinned,
    /// Memory addressable by both host and accelerator, migrated on demand.
    Unified,
    /// Accelerator-resident memory with no host pointer.
    Device,
}

/// A tagged memory region of fixed length, never resized after creation.
pub struct MemoryRegion {
    kind: MemType,
    data: Vec<u64>,
    backed: bool,
    pinned: bool,
}

impl View for MemoryRegion {
    type V = Seq<u64>;

    closed spec fn view(&self) -> Seq<u64> {
        self.data@
    }
}

impl MemoryRegion {
    /// The kind this region was allocated in.
    pub closed spec fn kind(&self) -> MemType {
        self.kind
    }

    /// Whether every page of the region is known to be physically backed.
    pub closed spec fn backed(&self) -> bool {
        self.backed
    }

    /// Whether the region's pages are locked for DMA use.
    pub closed spec fn pinned(&self) -> bool {
        self.pinned
    }

    /// Every kind but accelerator-resident memory has a host pointer.
    pub open spec fn is_host_addressable(&self) -> bool {
        !(self.kind() is Device)
    }

    /// Kinds the accelerator can reach with its native instructions.
    pub open spec fn is_accel_reachable(&self) -> bool {
        self.kind() is Unified || self.kind() is Device
    }

    /// The region's contents live in one allocation, so its length fits in a
    /// `usize`.
    pub proof fn lemma_len_fits(&self)
        ensures
            self@.len() <= usize::MAX,
    {
        vstd::std_specs::vec::axiom_spec_len(&self.data);
    }

    /// Number of 64-bit elements in the region.
    pub fn len(&self) -> (n: usize)
        ensures
            n == self@.len(),
    {
        self.data.len()
    }

    /// The region's kind tag.
    pub fn mem_type(&self) -> (k: MemType)
        ensures
            k == self.kind(),
    {
        self.kind
    }

    /// Whether every page of the region is known to be physically backed.
    pub fn is_backed(&self) -> (b: bool)
        ensures
            b == self.backed(),
    {
        self.backed
    }

    /// Whether the region's pages are locked for DMA use.
    pub fn is_pinned(&self) -> (b: bool)
        ensures
            b == self.pinned(),
    {
        self.pinned
    }

    /// Read one element through the host-addressable view.
    pub fn read(&self, i: usize) -> (v: u64)
        requires
            self.is_host_addressable(),
            i < self@.len(),
        ensures
            v == self@[i as int],
    {
        self.data[i]
    }

    /// Write one element through the host-addressable view.
    pub fn write(&mut self, i: usize, v: u64)
        requires
            old(self).is_host_addressable(),
            i < old(self)@.len(),
        ensures
            final(self)@ == old(self)@.update(i as int, v),
            final(self).kind() == old(self).kind(),
            final(self).backed() == old(self).backed(),
            final(self).pinned() == old(self).pinned(),
    {
        self.data.set(i, v);
    }

    /// Read one element regardless of kind; stands for the access an engine
    /// performs on whichever side of the machine can reach this region.
    pub(crate) fn read_any(&self, i: usize) -> (v: u64)
        requires
            i < self@.len(),
        ensures
            v == self@[i as int],
    {
        self.data[i]
    }

    /// Write one element regardless of kind; see `read_any`.
    pub(crate) fn write_any(&mut self, i: usize, v: u64)
        requires
            i < old(self)@.len(),
        ensures
            final(self)@ == old(self)@.update(i as int, v),
            final(self).kind() == old(self).kind(),
            final(self).backed() == old(self).backed(),
            final(self).pinned() == old(self).pinned(),
    {
        self.data.set(i, v);
    }

    /// Touch one element of every page-sized stride so that deferred page
    /// placement by the OS cannot leave pages unbacked (or on the wrong NUMA
    /// node). Leaves the contents unchanged; afterwards the region is known to
    /// be physically backed. Fails with a policy error on memory that has no
    /// host pointer.
    pub fn ensure_physically_backed(&mut self) -> (r: Result<(), Error>)
        ensures
            final(self)@ == old(self)@,
            final(self).kind() == old(self).kind(),
            final(self).pinned() == old(self).pinned(),
            match r {
                Ok(()) => old(self).is_host_addressable() && final(self).backed(),
                Err(e) => {
                    &&& e == Error::Policy
                    &&& !old(self).is_host_addressable()
                    &&& final(self).backed() == old(self).backed()
                },
            },
    {
        if matches!(self.kind, MemType::Device) {
            return Err(Error::Policy);
        }
        let n = self.data.len();
        let mut i: usize = 0;
        while i < n
            invariant
                self@ == old(self)@,
                self.kind() == old(self).kind(),
                self.pinned() == old(self).pinned(),
                n == self@.len(),
            decreases n - i,
        {
            let v = self.data[i];
            self.data.set(i, v);
            proof {
                assert(self@ =~= old(self)@);
            }
            if PAGE_STRIDE_ELEMS < n - i {
                i = i + PAGE_STRIDE_ELEMS;
            } else {
                i = n;
            }
        }
        self.backed = true;
        Ok(())
    }

    /// Page-lock a NUMA region for DMA use. Only the NUMA kind supports an
    /// explicit lock after allocation; every other kind is refused.
    pub fn page_lock(&mut self) -> (r: Result<(), Error>)
        ensures
            final(self)@ == old(self)@,
            final(self).kind() == old(self).kind(),
            final(self).backed() == old(self).backed(),
            match r {
                Ok(()) => old(self).kind() is Numa && final(self).pinned(),
                Err(e) => {
                    &&& e == Error::Policy
                    &&& !(old(self).kind() is Numa)
                    &&& final(self).pinned() == old(self).pinned()
                },
            },
    {
        match self.kind {
            MemType::Numa(_) => {
                self.pinned = true;
                Ok(())
            },
            _ => Err(Error::Policy),
        }
    }
}

/// The observable state of the allocator: how much it currently has handed
/// out. Allocation and freeing must balance exactly — see
/// `lemma_allocate_free_no_leak`.
pub struct AllocatorState {
    pub bytes_in_use: nat,
    pub regions_in_use: nat,
}

/// What a successful allocation of `bytes` does to the allocator state.
pub open spec fn alloc_effect(s: AllocatorState, bytes: nat) -> AllocatorState {
    AllocatorState { bytes_in_use: s.bytes_in_use + bytes, regions_in_use: s.regions_in_use + 1 }
}

/// What freeing a region of `bytes` does to the allocator state.
pub open spec fn free_effect(s: AllocatorState, bytes: nat) -> AllocatorState {
    AllocatorState {
        bytes_in_use: (s.bytes_in_use - bytes) as nat,
        regions_in_use: (s.regions_in_use - 1) as nat,
    }
}

/// Law: a free exactly undoes the allocation it pairs with, so repeated
/// allocate/free cycles of a fixed kind and size leave the observable
/// allocator state unchanged — no leak.
pub proof fn lemma_allocate_free_no_leak(s: AllocatorState, bytes: nat)
    ensures
        free_effect(alloc_effect(s, bytes), bytes) == s,
{
}

/// The memory backend's allocator. It tracks the bytes and regions currently
/// outstanding; `allocate` and `free` account against that state.
pub struct Allocator {
    bytes_in_use: usize,
    regions_in_use: usize,
}

impl View for Allocator {
    type V = AllocatorState;

    closed spec fn view(&self) -> AllocatorState {
        AllocatorState {
            bytes_in_use: self.bytes_in_use as nat,
            regions_in_use: self.regions_in_use as nat,
        }
    }
}

impl Allocator {
    /// A fresh allocator with nothing outstanding.
    pub fn new() -> (a: Allocator)
        ensures
            a@.bytes_in_use == 0,
            a@.regions_in_use == 0,
    {
        Allocator { bytes_in_use: 0, regions_in_use: 0 }
    }

    /// Bytes currently handed out.
    pub fn bytes_in_use(&self) -> (n: usize)
        ensures
            n == self@.bytes_in_use,
    {
        self.bytes_in_use
    }

    /// Regions currently handed out.
    pub fn regions_in_use(&self) -> (n: usize)
        ensures
            n == self@.regions_in_use,
    {
        self.regions_in_use
    }

    /// Whether an allocation of `len` elements can be accounted for.
    pub open spec fn can_allocate(&self, len: usize) -> bool {
        &&& len * ELEM_BYTES <= usize::MAX
        &&& self@.bytes_in_use + len * ELEM_BYTES <= usize::MAX
        &&& self@.regions_in_use + 1 <= usize::MAX
    }

    /// Allocate a region of `len` 64-bit elements in the given kind. The new
    /// region is zero-filled; a NUMA region is not yet physically backed, and
    /// only the pinned kind starts out page-locked. Fails with an allocation
    /// error exactly when the size accounting overflows.
    pub fn allocate(&mut self, kind: MemType, len: usize) -> (r: Result<MemoryRegion, Error>)
        ensures
            match r {
                Ok(region) => {
                    &&& old(self).can_allocate(len)
                    &&& final(self)@ == alloc_effect(old(self)@, (len * ELEM_BYTES) as nat)
                    &&& region.kind() == kind
                    &&& region@ == Seq::new(len as nat, |i: int| 0u64)
                    &&& region.backed() == !(kind is Numa)
                    &&& region.pinned() == (kind is Pinned)
                },
                Err(e) => {
                    &&& e == Error::Allocation
                    &&& !old(self).can_allocate(len)
                    &&& final(self)@ == old(self)@
                },
            },
    {
        let bytes = match len.checked_mul(ELEM_BYTES) {
            Some(b) => b,
            None => {
                return Err(Error::Allocation);
            },
        };
        let new_bytes = match self.bytes_in_use.checked_add(bytes) {
            Some(b) => b,
            None => {
                return Err(Error::Allocation);
            },
        };
        let new_regions = match self.regions_in_use.checked_add(1) {
            Some(c) => c,
            None => {
                return Err(Error::Allocation);
            },
        };
        let mut data: Vec<u64> = Vec::new();
        let mut i: usize = 0;
        while i < len
            invariant
                i <= len,
                data@ =~= Seq::new(i as nat, |j: int| 0u64),
            decreases len - i,
        {
            data.push(0u64);
            i = i + 1;
        }
        self.bytes_in_use = new_bytes;
        self.regions_in_use = new_regions;
        Ok(
            MemoryRegion {
                kind,
                data,
                backed: !matches!(kind, MemType::Numa(_)),
                pinned: matches!(kind, MemType::Pinned),
            },
        )
    }

    /// The restricted, dereferenceable variant of `allocate`: it refuses the
    /// accelerator-resident kind with a policy error, since that kind has no
    /// host pointer, and otherwise behaves exactly like `allocate`.
    pub fn allocate_deref(&mut self, kind: MemType, len: usize) -> (r: Result<
        MemoryRegion,
        Error,
    >)
        ensures
            match r {
                Ok(region) => {
                    &&& !(kind is Device)
                    &&& old(self).can_allocate(len)
                    &&& final(self)@ == alloc_effect(old(self)@, (len * ELEM_BYTES) as nat)
                    &&& region.kind() == kind
                    &&& region.is_host_addressable()
                    &&& region@ == Seq::new(len as nat, |i: int| 0u64)
                    &&& region.backed() == !(kind is Numa)
                    &&& region.pinned() == (kind is Pinned)
                },
                Err(e) => {
                    &&& final(self)@ == old(self)@
                    &&& (e == Error::Policy <==> kind is Device)
                    &&& (kind is Device || (e == Error::Allocation && !old(self).can_allocate(
                        len,
                    )))
                },
            },
    {
        if matches!(kind, MemType::Device) {
            return Err(Error::Policy);
        }
        self.allocate(kind, len)
    }

    /// Return a region to the allocator. The accounting precondition states
    /// that the region is one this allocator handed out and still has on its
    /// books.
    pub fn free(&mut self, region: MemoryRegion)
        requires
            region@.len() * ELEM_BYTES <= old(self)@.bytes_in_use,
            old(self)@.regions_in_use >= 1,
        ensures
            final(self)@ == free_effect(old(self)@, (region@.len() * ELEM_BYTES) as nat),
    {
        let bytes = region.len() * ELEM_BYTES;
        self.bytes_in_use = self.bytes_in_use - bytes;
        self.regions_in_use = self.regions_in_use - 1;
    }
}

} // verus!
