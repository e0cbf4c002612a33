//! The hash table: a fixed-capacity array of key/value slots built on a
//! memory region, addressable under two disciplines.
//!
//! *Perfect hashing* indexes a slot directly by key value and is valid only
//! when the build keys form a dense, unique integer domain inside the
//! capacity; collisions are a caller precondition, stated here as `requires`.
//!
//! *Linear probing* starts at `hash(key) & (capacity - 1)` (the hash is the
//! identity) and scans forward with wraparound. An insert claims the first
//! sentinel-valued slot; a probe replays the identical scan and treats a
//! sentinel slot as a definitive miss, which is sound because this table
//! never deletes, so probe chains have no gaps. The scan is capped at
//! `capacity` steps: an insert into a full table surfaces a runtime error
//! instead of scanning forever.

use vstd::prelude::*;

use vstd::arithmetic::power2::{pow2, lemma_pow2_pos, lemma_pow2_strictly_increases, lemma2_to64,
    lemma2_to64_rest};
use vstd::arithmetic::div_mod::{lemma_small_mod, lemma_add_mod_noop_right,
    lemma_mod_division_less_than_divisor, lemma_mod_multiples_vanish};
use vstd::bits::{low_bits_mask, lemma_u64_low_bits_mask_is_mod};

use crate::error::Error;
use crate::memory::{MemType, MemoryRegion};

verus! {

/// The reserved sentinel marking an empty slot. It must never appear as a
/// real key; the insert and probe operations require that of their callers.
pub const NULL_KEY: u64 = u64::MAX;

/// The two addressing disciplines the table supports.
#[derive(Clone, Copy, Debug, PartialEq, Eq, Structural)]
pub enum HashingScheme {
    /// Direct indexing by key value; valid only for dense unique key domains.
    Perfect,
    /// Open addressing with a forward scan and wraparound.
    LinearProbing,
}

/// Whether `n` is a power of two.
pub open spec fn is_pow2(n: nat) -> bool {
    exists|e: nat| n == pow2(e)
}

/// The home slot of a key: the identity hash reduced modulo the capacity.
pub open spec fn home_slot(key: u64, cap: nat) -> int {
    (key as int) % (cap as int)
}

/// One scan step forward, wrapping at the capacity.
pub open spec fn next_slot(pos: int, cap: nat) -> int {
    if pos + 1 == cap {
        0int
    } else {
        pos + 1
    }
}

/// The linear-probing scan for `key`: the first slot holding `key` within
/// `steps` slots starting at `pos`, stopping early at a sentinel slot.
pub open spec fn lp_find_from(slots: Seq<(u64, u64)>, key: u64, pos: int, steps: nat) -> Option<
    int,
>
    decreases steps,
{
    if steps == 0 {
        None
    } else if slots[pos].0 == key {
        Some(pos)
    } else if slots[pos].0 == NULL_KEY {
        None
    } else {
        lp_find_from(slots, key, next_slot(pos, slots.len()), (steps - 1) as nat)
    }
}

/// The slot at which a probe for `key` terminates with a match, if any.
pub open spec fn lp_find(slots: Seq<(u64, u64)>, key: u64) -> Option<int> {
    lp_find_from(slots, key, home_slot(key, slots.len()), slots.len())
}

/// The payload a linear-probing lookup returns for `key`.
pub open spec fn lp_lookup(slots: Seq<(u64, u64)>, key: u64) -> Option<u64> {
    match lp_find(slots, key) {
        Some(p) => Some(slots[p].1),
        None => None,
    }
}

/// The first sentinel-valued slot within `steps` slots starting at `pos`:
/// the slot an insert scanning from `pos` claims.
pub open spec fn lp_claim_from(slots: Seq<(u64, u64)>, pos: int, steps: nat) -> Option<int>
    decreases steps,
{
    if steps == 0 {
        None
    } else if slots[pos].0 == NULL_KEY {
        Some(pos)
    } else {
        lp_claim_from(slots, next_slot(pos, slots.len()), (steps - 1) as nat)
    }
}

/// The slot an insert of `key` claims, scanning the whole table from the
/// key's home slot.
pub open spec fn lp_claim(slots: Seq<(u64, u64)>, key: u64) -> Option<int> {
    lp_claim_from(slots, home_slot(key, slots.len()), slots.len())
}

/// The payload a perfect-hashing lookup returns for `key`: direct indexing,
/// a match exactly when the slot at index `key` holds `key`.
pub open spec fn perfect_lookup(slots: Seq<(u64, u64)>, key: u64) -> Option<u64> {
    if key < slots.len() && slots[key as int].0 == key {
        Some(slots[key as int].1)
    } else {
        None
    }
}

/// Whether a probe for `key` under `scheme` terminates with a match.
pub open spec fn probe_hit(slots: Seq<(u64, u64)>, scheme: HashingScheme, key: u64) -> bool {
    match scheme {
        HashingScheme::Perfect => perfect_lookup(slots, key) is Some,
        HashingScheme::LinearProbing => lp_find(slots, key) is Some,
    }
}

/// The payload a probe for `key` under `scheme` returns.
pub open spec fn probe_value(slots: Seq<(u64, u64)>, scheme: HashingScheme, key: u64) -> Option<
    u64,
> {
    match scheme {
        HashingScheme::Perfect => perfect_lookup(slots, key),
        HashingScheme::LinearProbing => lp_lookup(slots, key),
    }
}

/// How one successful insert of `(key, value)` under `scheme` rewrites the
/// slot array.
pub open spec fn insert_effect(
    old_slots: Seq<(u64, u64)>,
    new_slots: Seq<(u64, u64)>,
    scheme: HashingScheme,
    key: u64,
    value: u64,
) -> bool {
    match scheme {
        HashingScheme::Perfect => new_slots == old_slots.update(key as int, (key, value)),
        HashingScheme::LinearProbing => {
            &&& lp_claim(old_slots, key) is Some
            &&& new_slots == old_slots.update(lp_claim(old_slots, key).unwrap(), (key, value))
        },
    }
}

/// Number of occupied (non-sentinel) slots.
pub open spec fn count_occupied(slots: Seq<(u64, u64)>) -> nat
    decreases slots.len(),
{
    if slots.len() == 0 {
        0
    } else {
        count_occupied(slots.drop_last()) + if slots.last().0 != NULL_KEY {
            1nat
        } else {
            0nat
        }
    }
}

/// What a completed build of `keys`/`payloads` guarantees about the table:
/// every inserted key probes to a hit; every key that hit before still hits;
/// occupied slots are never overwritten; and a slot changes only by a claim
/// that fills a sentinel slot with one of the inserted tuples.
pub open spec fn build_effect(
    old_slots: Seq<(u64, u64)>,
    new_slots: Seq<(u64, u64)>,
    scheme: HashingScheme,
    keys: Seq<u64>,
    payloads: Seq<u64>,
) -> bool {
    &&& new_slots.len() == old_slots.len()
    &&& (forall|i: int| 0 <= i < keys.len() ==> probe_hit(new_slots, scheme, #[trigger] keys[i]))
    &&& (forall|k: u64|
        k != NULL_KEY && #[trigger] probe_hit(old_slots, scheme, k) ==> probe_hit(
            new_slots,
            scheme,
            k,
        ))
    &&& (forall|p: int|
        0 <= p < old_slots.len() && (#[trigger] old_slots[p]).0 != NULL_KEY ==> new_slots[p]
            == old_slots[p])
    &&& (forall|p: int|
        0 <= p < old_slots.len() && new_slots[p] != #[trigger] old_slots[p] ==> old_slots[p].0
            == NULL_KEY && (exists|i: int|
            0 <= i < keys.len() && new_slots[p] == (#[trigger] keys[i], payloads[i])))
}

/// A fixed-capacity hash table of key/value slots laid out on a memory
/// region: slot `p` occupies elements `2p` (key) and `2p + 1` (value).
pub struct HashTable {
    mem: MemoryRegion,
    capacity: usize,
    cap_exp: Ghost<nat>,
}

impl HashTable {
    /// Number of slots.
    pub closed spec fn cap(&self) -> nat {
        self.capacity as nat
    }

    /// The kind of the memory region the table is built on.
    pub closed spec fn mem_kind(&self) -> MemType {
        self.mem.kind()
    }

    /// The slot array: the mathematical contents of the table.
    pub closed spec fn slots(&self) -> Seq<(u64, u64)> {
        Seq::new(self.capacity as nat, |i: int| (self.mem@[2 * i], self.mem@[2 * i + 1]))
    }

    /// Well-formedness: the capacity is a power of two and the backing region
    /// holds exactly two elements per slot.
    pub closed spec fn wf(&self) -> bool {
        &&& self.capacity == pow2(self.cap_exp@)
        &&& self.mem@.len() == 2 * self.capacity
    }

    /// The capacity is positive and the slot array matches it.
    pub proof fn lemma_wf_facts(&self)
        requires
            self.wf(),
        ensures
            self.cap() >= 1,
            self.slots().len() == self.cap(),
            is_pow2(self.cap()),
            2 * self.cap() <= usize::MAX,
    {
        lemma_pow2_pos(self.cap_exp@);
        self.mem.lemma_len_fits();
    }

    /// Number of slots.
    pub fn capacity(&self) -> (c: usize)
        ensures
            c == self.cap(),
    {
        self.capacity
    }

    /// The kind tag of the memory region the table is built on.
    pub fn table_mem_type(&self) -> (k: MemType)
        ensures
            k == self.mem_kind(),
    {
        self.mem.mem_type()
    }

    /// Construct a table over host-addressable memory, clearing every slot to
    /// the sentinel. Succeeds exactly when the region has a host view and its
    /// length is two elements per slot.
    pub fn new_on_cpu(mem: MemoryRegion, capacity: usize) -> (r: Result<HashTable, Error>)
        requires
            is_pow2(capacity as nat),
        ensures
            match r {
                Ok(t) => {
                    &&& mem.is_host_addressable()
                    &&& mem@.len() == 2 * capacity
                    &&& t.wf()
                    &&& t.cap() == capacity
                    &&& t.mem_kind() == mem.kind()
                    &&& t.slots() == Seq::new(capacity as nat, |i: int| (NULL_KEY, 0u64))
                },
                Err(e) => {
                    &&& (e == Error::Policy <==> !mem.is_host_addressable())
                    &&& (mem.is_host_addressable() ==> e == Error::Allocation && mem@.len() != 2
                        * capacity)
                },
            },
    {
        if !matches!(mem.mem_type(), MemType::Device) {
            Self::construct(mem, capacity)
        } else {
            Err(Error::Policy)
        }
    }

    /// Construct a table over accelerator-reachable memory (unified or
    /// accelerator-resident), clearing every slot to the sentinel. Pinned or
    /// plain host memory is an invalid target for this path.
    pub fn new_on_gpu(mem: MemoryRegion, capacity: usize) -> (r: Result<HashTable, Error>)
        requires
            is_pow2(capacity as nat),
        ensures
            match r {
                Ok(t) => {
                    &&& mem.is_accel_reachable()
                    &&& mem@.len() == 2 * capacity
                    &&& t.wf()
                    &&& t.cap() == capacity
                    &&& t.mem_kind() == mem.kind()
                    &&& t.slots() == Seq::new(capacity as nat, |i: int| (NULL_KEY, 0u64))
                },
                Err(e) => {
                    &&& (e == Error::Policy <==> !mem.is_accel_reachable())
                    &&& (mem.is_accel_reachable() ==> e == Error::Allocation && mem@.len() != 2
                        * capacity)
                },
            },
    {
        if matches!(mem.mem_type(), MemType::Unified) || matches!(mem.mem_type(), MemType::Device) {
            Self::construct(mem, capacity)
        } else {
            Err(Error::Policy)
        }
    }

    /// Shared constructor: check the region length and clear every slot.
    fn construct(mem: MemoryRegion, capacity: usize) -> (r: Result<HashTable, Error>)
        requires
            is_pow2(capacity as nat),
        ensures
            match r {
                Ok(t) => {
                    &&& mem@.len() == 2 * capacity
                    &&& t.wf()
                    &&& t.cap() == capacity
                    &&& t.mem_kind() == mem.kind()
                    &&& t.slots() == Seq::new(capacity as nat, |i: int| (NULL_KEY, 0u64))
                },
                Err(e) => e == Error::Allocation && mem@.len() != 2 * capacity,
            },
    {
        let needed = match capacity.checked_mul(2) {
            Some(n) => n,
            None => {
                proof {
                    mem.lemma_len_fits();
                }
                return Err(Error::Allocation);
            },
        };
        let mut mem = mem;
        if mem.len() != needed {
            return Err(Error::Allocation);
        }
        let ghost kind0 = mem.kind();
        let mut s: usize = 0;
        while s < capacity
            invariant
                s <= capacity,
                2 * capacity <= usize::MAX,
                mem@.len() == 2 * capacity,
                mem.kind() == kind0,
                forall|j: int|
                    0 <= j < 2 * s ==> #[trigger] mem@[j] == if j % 2 == 0 {
                        NULL_KEY
                    } else {
                        0u64
                    },
            decreases capacity - s,
        {
            mem.write_any(2 * s, NULL_KEY);
            mem.write_any(2 * s + 1, 0u64);
            s = s + 1;
        }
        let ghost e = choose|e: nat| capacity as nat == pow2(e);
        let t = HashTable { mem, capacity, cap_exp: Ghost(e) };
        proof {
            assert(t.slots() =~= Seq::new(capacity as nat, |i: int| (NULL_KEY, 0u64)));
        }
        Ok(t)
    }

    /// The home index of `key`: the identity hash masked by `capacity - 1`,
    /// which equals the hash reduced modulo the capacity because the capacity
    /// is a power of two.
    fn home_index(&self, key: u64) -> (h: usize)
        requires
            self.wf(),
        ensures
            h as int == home_slot(key, self.cap()),
            h < self.cap(),
    {
        proof {
            self.lemma_wf_facts();
            let e = self.cap_exp@;
            lemma_cap_exp_in_range(e);
            lemma_u64_low_bits_mask_is_mod(key, e);
            lemma_mod_division_less_than_divisor(key as int, self.capacity as int);
        }
        let mask: u64 = (self.capacity as u64) - 1;
        (key & mask) as usize
    }

    /// Insert `(key, value)` under `scheme`.
    ///
    /// Under linear probing the first sentinel slot of the scan is claimed;
    /// the scan is capped at `capacity` steps, and a table with no sentinel
    /// slot left surfaces a runtime error with the table unchanged. Under
    /// perfect hashing the key indexes its slot directly; the caller's
    /// precondition (a dense unique key domain) makes that slot empty, and
    /// the insert cannot fail.
    pub fn insert(&mut self, scheme: HashingScheme, key: u64, value: u64) -> (r: Result<
        (),
        Error,
    >)
        requires
            old(self).wf(),
            key != NULL_KEY,
            scheme is Perfect ==> (key as nat) < old(self).cap() && old(self).slots()[key as int].0
                == NULL_KEY,
        ensures
            final(self).wf(),
            final(self).cap() == old(self).cap(),
            final(self).mem_kind() == old(self).mem_kind(),
            match r {
                Ok(()) => insert_effect(
                    old(self).slots(),
                    final(self).slots(),
                    scheme,
                    key,
                    value,
                ),
                Err(e) => {
                    &&& e == Error::Runtime
                    &&& scheme is LinearProbing
                    &&& lp_claim(old(self).slots(), key) is None
                    &&& final(self).slots() == old(self).slots()
                },
            },
    {
        proof {
            self.lemma_wf_facts();
        }
        match scheme {
            HashingScheme::Perfect => {
                let p = key as usize;
                self.mem.write_any(2 * p, key);
                self.mem.write_any(2 * p + 1, value);
                proof {
                    assert(self.slots() =~= old(self).slots().update(key as int, (key, value)));
                }
                Ok(())
            },
            HashingScheme::LinearProbing => {
                let cap = self.capacity;
                let mut pos = self.home_index(key);
                let mut step: usize = 0;
                while step < cap
                    invariant
                        self == old(self),
                        self.wf(),
                        scheme is LinearProbing,
                        cap == self.cap(),
                        2 * cap <= usize::MAX,
                        key != NULL_KEY,
                        pos < cap,
                        step <= cap,
                        lp_claim(self.slots(), key) == lp_claim_from(
                            self.slots(),
                            pos as int,
                            (cap - step) as nat,
                        ),
                    decreases cap - step,
                {
                    let k = self.mem.read_any(2 * pos);
                    if k == NULL_KEY {
                        self.mem.write_any(2 * pos, key);
                        self.mem.write_any(2 * pos + 1, value);
                        proof {
                            assert(lp_claim(old(self).slots(), key) == Some(pos as int));
                            assert(self.slots() =~= old(self).slots().update(
                                pos as int,
                                (key, value),
                            ));
                        }
                        return Ok(());
                    }
                    pos = if pos + 1 == cap {
                        0
                    } else {
                        pos + 1
                    };
                    step = step + 1;
                }
                Err(Error::Runtime)
            },
        }
    }

    /// Probe for `key` under `scheme`, returning the payload of the matching
    /// slot. Under linear probing the probe replays the insert's scan exactly;
    /// under perfect hashing it indexes the slot directly, so the key must lie
    /// inside the table's dense domain.
    pub fn probe(&self, scheme: HashingScheme, key: u64) -> (r: Option<u64>)
        requires
            self.wf(),
            key != NULL_KEY,
            scheme is Perfect ==> (key as nat) < self.cap(),
        ensures
            r == probe_value(self.slots(), scheme, key),
    {
        proof {
            self.lemma_wf_facts();
        }
        match scheme {
            HashingScheme::Perfect => {
                let p = key as usize;
                let k = self.mem.read_any(2 * p);
                if k == key {
                    Some(self.mem.read_any(2 * p + 1))
                } else {
                    None
                }
            },
            HashingScheme::LinearProbing => {
                let cap = self.capacity;
                let mut pos = self.home_index(key);
                let mut step: usize = 0;
                while step < cap
                    invariant
                        self.wf(),
                        scheme is LinearProbing,
                        cap == self.cap(),
                        2 * cap <= usize::MAX,
                        key != NULL_KEY,
                        pos < cap,
                        step <= cap,
                        lp_find(self.slots(), key) == lp_find_from(
                            self.slots(),
                            key,
                            pos as int,
                            (cap - step) as nat,
                        ),
                    decreases cap - step,
                {
                    let k = self.mem.read_any(2 * pos);
                    if k == key {
                        return Some(self.mem.read_any(2 * pos + 1));
                    }
                    if k == NULL_KEY {
                        return None;
                    }
                    pos = if pos + 1 == cap {
                        0
                    } else {
                        pos + 1
                    };
                    step = step + 1;
                }
                None
            },
        }
    }

    /// Scan the whole table and count the occupied (non-sentinel) slots.
    pub fn occupied_slots(&self) -> (n: usize)
        requires
            self.wf(),
        ensures
            n == count_occupied(self.slots()),
    {
        proof {
            self.lemma_wf_facts();
        }
        let cap = self.capacity;
        let mut n: usize = 0;
        let mut s: usize = 0;
        while s < cap
            invariant
                self.wf(),
                cap == self.cap(),
                2 * cap <= usize::MAX,
                s <= cap,
                n <= s,
                n == count_occupied(self.slots().take(s as int)),
            decreases cap - s,
        {
            let k = self.mem.read_any(2 * s);
            proof {
                assert(self.slots().take(s as int + 1).drop_last() =~= self.slots().take(
                    s as int,
                ));
                assert(self.slots().take(s as int + 1).last() == self.slots()[s as int]);
            }
            if k != NULL_KEY {
                n = n + 1;
            }
            s = s + 1;
        }
        proof {
            assert(self.slots().take(cap as int) =~= self.slots());
        }
        n
    }
}

/// A power of two that fits in a `usize` has an exponent below 64, so the
/// 64-bit mask lemmas apply.
proof fn lemma_cap_exp_in_range(e: nat)
    requires
        pow2(e) <= usize::MAX,
    ensures
        e < 64,
        low_bits_mask(e) == pow2(e) - 1,
{
    lemma_pow2_pos(e);
    if e >= 64 {
        lemma2_to64();
        lemma2_to64_rest();
        if e > 64 {
            lemma_pow2_strictly_increases(64, e);
        }
        assert(false);
    }
}

/// A claimed slot is in range and empty.
proof fn lemma_claim_from_props(slots: Seq<(u64, u64)>, pos: int, steps: nat)
    requires
        0 <= pos < slots.len(),
    ensures
        match lp_claim_from(slots, pos, steps) {
            Some(j) => 0 <= j < slots.len() && slots[j].0 == NULL_KEY,
            None => true,
        },
    decreases steps,
{
    if steps > 0 && slots[pos].0 != NULL_KEY {
        lemma_claim_from_props(slots, next_slot(pos, slots.len()), (steps - 1) as nat);
    }
}

/// A found slot is in range and holds the key.
proof fn lemma_find_from_props(slots: Seq<(u64, u64)>, key: u64, pos: int, steps: nat)
    requires
        0 <= pos < slots.len(),
    ensures
        match lp_find_from(slots, key, pos, steps) {
            Some(p) => 0 <= p < slots.len() && slots[p].0 == key,
            None => true,
        },
    decreases steps,
{
    if steps > 0 && slots[pos].0 != key && slots[pos].0 != NULL_KEY {
        lemma_find_from_props(slots, key, next_slot(pos, slots.len()), (steps - 1) as nat);
    }
}

/// After an insert claims the scan's first empty slot for `key`, the same
/// scan finds `key`.
proof fn lemma_claimed_key_found_from(
    slots: Seq<(u64, u64)>,
    key: u64,
    value: u64,
    pos: int,
    steps: nat,
)
    requires
        0 <= pos < slots.len(),
        key != NULL_KEY,
        lp_claim_from(slots, pos, steps) is Some,
    ensures
        lp_find_from(
            slots.update(lp_claim_from(slots, pos, steps).unwrap(), (key, value)),
            key,
            pos,
            steps,
        ) is Some,
    decreases steps,
{
    let j = lp_claim_from(slots, pos, steps).unwrap();
    let s2 = slots.update(j, (key, value));
    lemma_claim_from_props(slots, pos, steps);
    if slots[pos].0 == NULL_KEY {
    } else {
        if s2[pos].0 == key {
        } else {
            lemma_claimed_key_found_from(
                slots,
                key,
                value,
                next_slot(pos, slots.len()),
                (steps - 1) as nat,
            );
        }
    }
}

/// Claiming an empty slot elsewhere does not disturb an existing scan that
/// terminates with a match: the scan finds the same slot as before.
proof fn lemma_find_from_stable(
    slots: Seq<(u64, u64)>,
    key: u64,
    j: int,
    entry: (u64, u64),
    pos: int,
    steps: nat,
)
    requires
        0 <= pos < slots.len(),
        0 <= j < slots.len(),
        slots[j].0 == NULL_KEY,
        key != NULL_KEY,
        lp_find_from(slots, key, pos, steps) is Some,
    ensures
        lp_find_from(slots.update(j, entry), key, pos, steps) == lp_find_from(
            slots,
            key,
            pos,
            steps,
        ),
    decreases steps,
{
    let s2 = slots.update(j, entry);
    if slots[pos].0 == key {
    } else if slots[pos].0 == NULL_KEY {
    } else {
        lemma_find_from_stable(
            slots,
            key,
            j,
            entry,
            next_slot(pos, slots.len()),
            (steps - 1) as nat,
        );
    }
}

/// A scan cannot find a key that no slot holds.
proof fn lemma_find_from_none_of_absent(slots: Seq<(u64, u64)>, key: u64, pos: int, steps: nat)
    requires
        0 <= pos < slots.len(),
        forall|p: int| 0 <= p < slots.len() ==> (#[trigger] slots[p]).0 != key,
    ensures
        lp_find_from(slots, key, pos, steps) is None,
    decreases steps,
{
    if steps > 0 && slots[pos].0 != NULL_KEY {
        lemma_find_from_none_of_absent(slots, key, next_slot(pos, slots.len()), (steps - 1) as nat);
    }
}

/// A probe for a key that no slot holds is a definitive miss.
pub proof fn lemma_absent_key_misses(slots: Seq<(u64, u64)>, key: u64)
    requires
        slots.len() > 0,
        forall|p: int| 0 <= p < slots.len() ==> (#[trigger] slots[p]).0 != key,
    ensures
        lp_find(slots, key) is None,
{
    lemma_mod_division_less_than_divisor(key as int, slots.len() as int);
    lemma_find_from_none_of_absent(slots, key, home_slot(key, slots.len()), slots.len());
}

/// A scan that fails to claim covers every one of the `steps` slots it
/// visited, so each of them is occupied.
proof fn lemma_claim_from_none_full(slots: Seq<(u64, u64)>, pos: int, steps: nat)
    requires
        0 <= pos < slots.len(),
        lp_claim_from(slots, pos, steps) is None,
    ensures
        forall|i: int|
            0 <= i < steps ==> (#[trigger] slots[(pos + i) % (slots.len() as int)]).0 != NULL_KEY,
    decreases steps,
{
    let len = slots.len() as int;
    if steps > 0 {
        lemma_claim_from_none_full(slots, next_slot(pos, slots.len()), (steps - 1) as nat);
        assert forall|i: int|
            0 <= i < steps implies (#[trigger] slots[(pos + i) % len]).0 != NULL_KEY by {
            if i == 0 {
                lemma_small_mod(pos as nat, len as nat);
            } else {
                let nx = next_slot(pos, slots.len());
                if pos + 1 == len {
                    assert((pos + i) % len == (nx + (i - 1)) % len) by {
                        lemma_mod_multiples_vanish(1, i - 1, len);
                    }
                } else {
                    assert((pos + i) % len == (nx + (i - 1)) % len);
                }
            }
        }
    }
}

/// In a table with no empty slot, no scan can claim.
proof fn lemma_claim_from_full_none(slots: Seq<(u64, u64)>, pos: int, steps: nat)
    requires
        0 <= pos < slots.len(),
        forall|p: int| 0 <= p < slots.len() ==> (#[trigger] slots[p]).0 != NULL_KEY,
    ensures
        lp_claim_from(slots, pos, steps) is None,
    decreases steps,
{
    if steps > 0 {
        lemma_claim_from_full_none(slots, next_slot(pos, slots.len()), (steps - 1) as nat);
    }
}

/// An insert's scan fails exactly when the table has no empty slot left.
pub proof fn lemma_claim_none_iff_full(slots: Seq<(u64, u64)>, key: u64)
    requires
        slots.len() > 0,
    ensures
        lp_claim(slots, key) is None <==> (forall|p: int|
            0 <= p < slots.len() ==> (#[trigger] slots[p]).0 != NULL_KEY),
{
    let len = slots.len() as int;
    let home = home_slot(key, slots.len());
    lemma_mod_division_less_than_divisor(key as int, len);
    if lp_claim(slots, key) is None {
        lemma_claim_from_none_full(slots, home, slots.len());
        assert forall|p: int| 0 <= p < len implies (#[trigger] slots[p]).0 != NULL_KEY by {
            let i = (p - home) % len;
            lemma_mod_division_less_than_divisor(p - home, len);
            assert((home + i) % len == p) by {
                lemma_add_mod_noop_right(home, p - home, len);
                lemma_small_mod(p as nat, len as nat);
            }
            assert(slots[(home + i) % len].0 != NULL_KEY);
        }
    }
    if forall|p: int| 0 <= p < slots.len() ==> (#[trigger] slots[p]).0 != NULL_KEY {
        lemma_claim_from_full_none(slots, home, slots.len());
    }
}

/// Filling an empty slot raises the occupied count by exactly one.
pub proof fn lemma_count_occupied_update(slots: Seq<(u64, u64)>, j: int, entry: (u64, u64))
    requires
        0 <= j < slots.len(),
        slots[j].0 == NULL_KEY,
        entry.0 != NULL_KEY,
    ensures
        count_occupied(slots.update(j, entry)) == count_occupied(slots) + 1,
    decreases slots.len(),
{
    let s2 = slots.update(j, entry);
    if j == slots.len() - 1 {
        assert(s2.drop_last() =~= slots.drop_last());
    } else {
        assert(s2.drop_last() =~= slots.drop_last().update(j, entry));
        lemma_count_occupied_update(slots.drop_last(), j, entry);
    }
}

/// The occupied count never exceeds the capacity.
pub proof fn lemma_count_occupied_le(slots: Seq<(u64, u64)>)
    ensures
        count_occupied(slots) <= slots.len(),
    decreases slots.len(),
{
    if slots.len() > 0 {
        lemma_count_occupied_le(slots.drop_last());
    }
}

/// The occupied count reaches the capacity exactly when every slot is
/// occupied.
pub proof fn lemma_count_occupied_full(slots: Seq<(u64, u64)>)
    ensures
        (count_occupied(slots) == slots.len()) <==> (forall|p: int|
            0 <= p < slots.len() ==> (#[trigger] slots[p]).0 != NULL_KEY),
    decreases slots.len(),
{
    if slots.len() > 0 {
        let dl = slots.drop_last();
        lemma_count_occupied_full(dl);
        lemma_count_occupied_le(dl);
        if count_occupied(slots) == slots.len() {
            assert forall|p: int| 0 <= p < slots.len() implies (#[trigger] slots[p]).0
                != NULL_KEY by {
                if p < slots.len() - 1 {
                    assert(dl[p].0 != NULL_KEY);
                }
            }
        }
        if forall|p: int| 0 <= p < slots.len() ==> (#[trigger] slots[p]).0 != NULL_KEY {
            assert forall|p: int| 0 <= p < dl.len() implies (#[trigger] dl[p]).0 != NULL_KEY by {
                assert(slots[p].0 != NULL_KEY);
            }
        }
    }
}

/// A cleared table has no occupied slot.
pub proof fn lemma_count_occupied_cleared(slots: Seq<(u64, u64)>)
    requires
        forall|p: int| 0 <= p < slots.len() ==> (#[trigger] slots[p]).0 == NULL_KEY,
    ensures
        count_occupied(slots) == 0,
    decreases slots.len(),
{
    if slots.len() > 0 {
        let dl = slots.drop_last();
        assert forall|p: int| 0 <= p < dl.len() implies (#[trigger] dl[p]).0 == NULL_KEY by {
            assert(slots[p].0 == NULL_KEY);
        }
        lemma_count_occupied_cleared(dl);
    }
}

/// Law: when a build inserts `n` tuples into a freshly cleared table, a
/// full-table scan afterwards finds exactly `n` occupied slots — no tuple
/// lost or duplicated, whichever workers inserted them.
pub proof fn lemma_build_occupancy(old_slots: Seq<(u64, u64)>, new_slots: Seq<(u64, u64)>, n: nat)
    requires
        forall|p: int| 0 <= p < old_slots.len() ==> (#[trigger] old_slots[p]).0 == NULL_KEY,
        count_occupied(new_slots) == count_occupied(old_slots) + n,
    ensures
        count_occupied(new_slots) == n,
{
    lemma_count_occupied_cleared(old_slots);
}

/// Everything the build drivers need to know about one successful insert:
/// the key now hits, prior hits are undisturbed, occupied slots persist, the
/// only change is the claimed slot, and the occupied count grew by one.
pub proof fn lemma_insert_effect(
    old_slots: Seq<(u64, u64)>,
    new_slots: Seq<(u64, u64)>,
    scheme: HashingScheme,
    key: u64,
    value: u64,
)
    requires
        old_slots.len() > 0,
        key != NULL_KEY,
        scheme is Perfect ==> (key as nat) < old_slots.len() && old_slots[key as int].0
            == NULL_KEY,
        insert_effect(old_slots, new_slots, scheme, key, value),
    ensures
        new_slots.len() == old_slots.len(),
        probe_hit(new_slots, scheme, key),
        forall|k: u64|
            k != NULL_KEY && #[trigger] probe_hit(old_slots, scheme, k) ==> probe_hit(
                new_slots,
                scheme,
                k,
            ),
        forall|p: int|
            0 <= p < old_slots.len() && (#[trigger] old_slots[p]).0 != NULL_KEY ==> new_slots[p]
                == old_slots[p],
        forall|p: int|
            0 <= p < old_slots.len() && new_slots[p] != #[trigger] old_slots[p] ==> old_slots[p].0
                == NULL_KEY && new_slots[p] == (key, value),
        count_occupied(new_slots) == count_occupied(old_slots) + 1,
{
    match scheme {
        HashingScheme::Perfect => {
            lemma_count_occupied_update(old_slots, key as int, (key, value));
        },
        HashingScheme::LinearProbing => {
            let len = old_slots.len();
            let home = home_slot(key, len);
            lemma_mod_division_less_than_divisor(key as int, len as int);
            let j = lp_claim(old_slots, key).unwrap();
            lemma_claim_from_props(old_slots, home, len);
            lemma_claimed_key_found_from(old_slots, key, value, home, len);
            lemma_count_occupied_update(old_slots, j, (key, value));
            assert forall|k: u64|
                k != NULL_KEY && #[trigger] probe_hit(
                    old_slots,
                    HashingScheme::LinearProbing,
                    k,
                ) implies probe_hit(new_slots, HashingScheme::LinearProbing, k) by {
                lemma_mod_division_less_than_divisor(k as int, len as int);
                lemma_find_from_stable(
                    old_slots,
                    k,
                    j,
                    (key, value),
                    home_slot(k, len),
                    len,
                );
            }
        },
    }
}

/// A build that inserted nothing leaves the table as it was.
pub proof fn lemma_build_effect_refl(
    slots: Seq<(u64, u64)>,
    scheme: HashingScheme,
    keys: Seq<u64>,
    payloads: Seq<u64>,
)
    requires
        keys.len() == 0,
    ensures
        build_effect(slots, slots, scheme, keys, payloads),
{
}

/// Extending a build by one successful insert extends its effect by one
/// inserted tuple.
pub proof fn lemma_build_effect_step(
    s0: Seq<(u64, u64)>,
    s1: Seq<(u64, u64)>,
    s2: Seq<(u64, u64)>,
    scheme: HashingScheme,
    keys: Seq<u64>,
    payloads: Seq<u64>,
    n: int,
)
    requires
        s1.len() > 0,
        payloads.len() == keys.len(),
        0 <= n < keys.len(),
        forall|i: int| 0 <= i <= n ==> #[trigger] keys[i] != NULL_KEY,
        build_effect(s0, s1, scheme, keys.take(n), payloads.take(n)),
        insert_effect(s1, s2, scheme, keys[n], payloads[n]),
        scheme is Perfect ==> (keys[n] as nat) < s1.len() && s1[keys[n] as int].0 == NULL_KEY,
    ensures
        build_effect(s0, s2, scheme, keys.take(n + 1), payloads.take(n + 1)),
{
    lemma_insert_effect(s1, s2, scheme, keys[n], payloads[n]);
    let ks = keys.take(n + 1);
    let ps = payloads.take(n + 1);
    assert forall|i: int| 0 <= i < ks.len() implies probe_hit(s2, scheme, #[trigger] ks[i]) by {
        assert(ks[i] == keys[i]);
        if i < n {
            assert(probe_hit(s1, scheme, keys.take(n)[i]));
            assert(keys.take(n)[i] == keys[i]);
        }
    }
    assert forall|k: u64|
        k != NULL_KEY && #[trigger] probe_hit(s0, scheme, k) implies probe_hit(s2, scheme, k) by {
        assert(probe_hit(s1, scheme, k));
    }
    assert forall|p: int|
        0 <= p < s0.len() && (#[trigger] s0[p]).0 != NULL_KEY implies s2[p] == s0[p] by {
        assert(s1[p] == s0[p]);
    }
    assert forall|p: int|
        0 <= p < s0.len() && s2[p] != #[trigger] s0[p] implies s0[p].0 == NULL_KEY && (exists|i: int|
        0 <= i < ks.len() && s2[p] == (#[trigger] ks[i], ps[i])) by {
        if s2[p] == s1[p] {
            assert(s1[p] != s0[p]);
            let i = choose|i: int|
                0 <= i < keys.take(n).len() && s1[p] == (
                #[trigger] keys.take(n)[i],
                payloads.take(n)[i],
                );
            assert(ks[i] == keys.take(n)[i] && ps[i] == payloads.take(n)[i]);
            assert(0 <= i < ks.len() && s2[p] == (ks[i], ps[i]));
        } else {
            assert(s1[p].0 == NULL_KEY && s2[p] == (keys[n], payloads[n]));
            if s1[p] != s0[p] {
                assert(s0[p].0 == NULL_KEY);
            }
            assert(ks[n] == keys[n] && ps[n] == payloads[n]);
            assert(0 <= n < ks.len() && s2[p] == (ks[n], ps[n]));
        }
    }
}

/// Law of perfect hashing: build unique keys from the table's dense domain
/// into a cleared table, and a probe hits exactly the inserted keys — every
/// inserted key returns a match, every other in-domain key a miss.
pub proof fn lemma_perfect_build_then_probe(
    old_slots: Seq<(u64, u64)>,
    new_slots: Seq<(u64, u64)>,
    keys: Seq<u64>,
    payloads: Seq<u64>,
    probe_key: u64,
)
    requires
        old_slots.len() > 0,
        forall|p: int| 0 <= p < old_slots.len() ==> (#[trigger] old_slots[p]).0 == NULL_KEY,
        build_effect(old_slots, new_slots, HashingScheme::Perfect, keys, payloads),
        probe_key != NULL_KEY,
        (probe_key as nat) < old_slots.len(),
    ensures
        probe_hit(new_slots, HashingScheme::Perfect, probe_key) <==> keys.contains(probe_key),
{
    if probe_hit(new_slots, HashingScheme::Perfect, probe_key) {
        let p = probe_key as int;
        assert(new_slots[p].0 == probe_key);
        assert(old_slots[p].0 == NULL_KEY);
        assert(new_slots[p] != old_slots[p]);
        let i = choose|i: int| 0 <= i < keys.len() && new_slots[p] == (#[trigger] keys[i], payloads[i]);
        assert(keys[i] == probe_key);
    }
    if keys.contains(probe_key) {
        let i = choose|i: int| 0 <= i < keys.len() && keys[i] == probe_key;
        assert(probe_hit(new_slots, HashingScheme::Perfect, keys[i]));
    }
}

/// Law of linear probing: after a successful build, every inserted key is
/// found, and a key that was never inserted and that no slot held before is
/// reported as a definitive miss.
pub proof fn lemma_lp_build_then_probe(
    old_slots: Seq<(u64, u64)>,
    new_slots: Seq<(u64, u64)>,
    keys: Seq<u64>,
    payloads: Seq<u64>,
    probe_key: u64,
)
    requires
        old_slots.len() > 0,
        build_effect(old_slots, new_slots, HashingScheme::LinearProbing, keys, payloads),
        probe_key != NULL_KEY,
        !keys.contains(probe_key),
        forall|p: int| 0 <= p < old_slots.len() ==> (#[trigger] old_slots[p]).0 != probe_key,
    ensures
        forall|i: int| 0 <= i < keys.len() ==> lp_find(new_slots, #[trigger] keys[i]) is Some,
        lp_find(new_slots, probe_key) is None,
{
    assert forall|p: int| 0 <= p < new_slots.len() implies (#[trigger] new_slots[p]).0
        != probe_key by {
        if new_slots[p] == old_slots[p] {
        } else {
            let i = choose|i: int|
                0 <= i < keys.len() && new_slots[p] == (#[trigger] keys[i], payloads[i]);
            assert(keys[i] != probe_key);
        }
    }
    lemma_absent_key_misses(new_slots, probe_key);
}

} // verus!
