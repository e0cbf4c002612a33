//! The build/probe join drivers.
//!
//! The CPU driver partitions a relation into near-equal contiguous chunks,
//! one per worker, the last absorbing the remainder; each worker inserts or
//! probes its whole chunk. The GPU driver processes a relation in grid-stride
//! order: a logical grid of `grid x block` threads in which thread `t`
//! handles the indices `t, t + gb, t + 2gb, ...` for `gb = grid * block`,
//! and a probe accumulates matches into a per-thread slot of a result-count
//! buffer that the host reduces after the run.

use vstd::prelude::*;

use vstd::arithmetic::power2::{pow2, lemma_pow2_pos, lemma_pow2_unfold, lemma_pow2_adds,
    lemma_pow2_strictly_increases, lemma2_to64};
use vstd::arithmetic::div_mod::{lemma_fundamental_div_mod, lemma_fundamental_div_mod_converse,
    lemma_mod_division_less_than_divisor};
use vstd::arithmetic::mul::{lemma_mul_inequality, lemma_mul_is_associative, lemma_mul_is_commutative};

use crate::error::Error;
use crate::hash_table::{HashingScheme, HashTable, NULL_KEY, probe_hit, count_occupied,
    build_effect, is_pow2, lemma_insert_effect, lemma_claim_none_iff_full,
    lemma_count_occupied_full, lemma_count_occupied_le, lemma_build_effect_refl,
    lemma_build_effect_step};
use crate::memory::MemType;
use crate::relation::Relation;

verus! {

/// No key of the relation may collide with the sentinel.
pub open spec fn keys_valid(keys: Seq<u64>) -> bool {
    forall|i: int| 0 <= i < keys.len() ==> #[trigger] keys[i] != NULL_KEY
}

/// The caller precondition of a perfect-hashing build: unique keys, each
/// inside the table's dense domain with its slot still empty.
pub open spec fn perfect_build_pre(slots: Seq<(u64, u64)>, keys: Seq<u64>) -> bool {
    &&& (forall|i: int|
        0 <= i < keys.len() ==> (#[trigger] keys[i]) < slots.len() && slots[keys[i] as int].0
            == NULL_KEY)
    &&& (forall|i: int, j: int| 0 <= i < j < keys.len() ==> #[trigger] keys[i] != #[trigger] keys[j])
}

/// The caller precondition of a perfect-hashing probe: every probe key lies
/// inside the table's dense domain.
pub open spec fn perfect_probe_pre(cap: nat, keys: Seq<u64>) -> bool {
    forall|i: int| 0 <= i < keys.len() ==> (#[trigger] keys[i]) < cap
}

/// Number of probe keys with index in `[lo, hi)` that hit the table.
pub open spec fn count_hits(
    slots: Seq<(u64, u64)>,
    scheme: HashingScheme,
    keys: Seq<u64>,
    lo: int,
    hi: int,
) -> nat
    decreases hi - lo,
{
    if lo >= hi {
        0
    } else {
        count_hits(slots, scheme, keys, lo, hi - 1) + if probe_hit(slots, scheme, keys[hi - 1]) {
            1nat
        } else {
            0nat
        }
    }
}

/// Number of probe keys with index below `n` in thread `t`'s grid-stride
/// class (indices congruent to `t` modulo `gb`) that hit the table.
pub open spec fn count_hits_stride(
    slots: Seq<(u64, u64)>,
    scheme: HashingScheme,
    keys: Seq<u64>,
    t: int,
    gb: int,
    n: int,
) -> nat
    decreases n,
{
    if n <= 0 {
        0
    } else {
        count_hits_stride(slots, scheme, keys, t, gb, n - 1) + if (n - 1) % gb == t && probe_hit(
            slots,
            scheme,
            keys[n - 1],
        ) {
            1nat
        } else {
            0nat
        }
    }
}

/// Sum of a sequence of match counters.
pub open spec fn sum_u64(s: Seq<u64>) -> int
    decreases s.len(),
{
    if s.len() == 0 {
        0
    } else {
        sum_u64(s.drop_last()) + s.last()
    }
}

/// Sum of a sequence of per-worker tuple counts.
pub open spec fn sum_usize(s: Seq<usize>) -> int
    decreases s.len(),
{
    if s.len() == 0 {
        0
    } else {
        sum_usize(s.drop_last()) + s.last()
    }
}

/// Hit counts over index ranges add up.
pub proof fn lemma_count_hits_split(
    slots: Seq<(u64, u64)>,
    scheme: HashingScheme,
    keys: Seq<u64>,
    lo: int,
    mid: int,
    hi: int,
)
    requires
        lo <= mid <= hi,
    ensures
        count_hits(slots, scheme, keys, lo, hi) == count_hits(slots, scheme, keys, lo, mid)
            + count_hits(slots, scheme, keys, mid, hi),
    decreases hi - mid,
{
    if hi > mid {
        lemma_count_hits_split(slots, scheme, keys, lo, mid, hi - 1);
    }
}

/// A thread's stride class yields at most `n` hits.
pub proof fn lemma_count_hits_stride_le(
    slots: Seq<(u64, u64)>,
    scheme: HashingScheme,
    keys: Seq<u64>,
    t: int,
    gb: int,
    n: int,
)
    ensures
        count_hits_stride(slots, scheme, keys, t, gb, n) <= if n >= 0 {
            n
        } else {
            0
        },
    decreases n,
{
    if n > 0 {
        lemma_count_hits_stride_le(slots, scheme, keys, t, gb, n - 1);
    }
}

/// A thread whose index is at or past the relation length has an empty
/// stride class: its result counter stays zero.
pub proof fn lemma_count_hits_stride_empty(
    slots: Seq<(u64, u64)>,
    scheme: HashingScheme,
    keys: Seq<u64>,
    t: int,
    gb: int,
    n: int,
)
    requires
        0 <= n <= t < gb,
    ensures
        count_hits_stride(slots, scheme, keys, t, gb, n) == 0,
    decreases n,
{
    if n > 0 {
        lemma_count_hits_stride_empty(slots, scheme, keys, t, gb, n - 1);
        lemma_small_mod_int(n - 1, gb);
    }
}

/// Small-value modulo, stated over `int` indices.
proof fn lemma_small_mod_int(x: int, m: int)
    requires
        0 <= x < m,
    ensures
        x % m == x,
{
    vstd::arithmetic::div_mod::lemma_small_mod(x as nat, m as nat);
}

/// Sum of the stride-class counts of threads `0 .. tc`.
pub open spec fn sum_stride_counts(
    slots: Seq<(u64, u64)>,
    scheme: HashingScheme,
    keys: Seq<u64>,
    tc: int,
    gb: int,
    n: int,
) -> nat
    decreases tc,
{
    if tc <= 0 {
        0
    } else {
        sum_stride_counts(slots, scheme, keys, tc - 1, gb, n) + count_hits_stride(
            slots,
            scheme,
            keys,
            tc - 1,
            gb,
            n,
        )
    }
}

proof fn lemma_sum_stride_counts_zero(
    slots: Seq<(u64, u64)>,
    scheme: HashingScheme,
    keys: Seq<u64>,
    tc: int,
    gb: int,
)
    ensures
        sum_stride_counts(slots, scheme, keys, tc, gb, 0) == 0,
    decreases tc,
{
    if tc > 0 {
        lemma_sum_stride_counts_zero(slots, scheme, keys, tc - 1, gb);
    }
}

proof fn lemma_sum_stride_counts_step(
    slots: Seq<(u64, u64)>,
    scheme: HashingScheme,
    keys: Seq<u64>,
    tc: int,
    gb: int,
    n: int,
)
    requires
        n >= 1,
    ensures
        sum_stride_counts(slots, scheme, keys, tc, gb, n) == sum_stride_counts(
            slots,
            scheme,
            keys,
            tc,
            gb,
            n - 1,
        ) + if 0 <= (n - 1) % gb < tc && probe_hit(slots, scheme, keys[n - 1]) {
            1nat
        } else {
            0nat
        },
    decreases tc,
{
    if tc > 0 {
        lemma_sum_stride_counts_step(slots, scheme, keys, tc - 1, gb, n);
    }
}

/// The grid-stride classes of the `gb` threads partition the probe relation:
/// summed over all threads, the per-thread counts cover every index exactly
/// once, so they add up to the total number of matches.
pub proof fn lemma_stride_partition(
    slots: Seq<(u64, u64)>,
    scheme: HashingScheme,
    keys: Seq<u64>,
    gb: int,
    n: int,
)
    requires
        gb >= 1,
        n >= 0,
    ensures
        sum_stride_counts(slots, scheme, keys, gb, gb, n) == count_hits(slots, scheme, keys, 0, n),
    decreases n,
{
    if n == 0 {
        lemma_sum_stride_counts_zero(slots, scheme, keys, gb, gb);
    } else {
        lemma_stride_partition(slots, scheme, keys, gb, n - 1);
        lemma_mod_division_less_than_divisor(n - 1, gb);
        lemma_sum_stride_counts_step(slots, scheme, keys, gb, gb, n);
    }
}

/// A result-count buffer in which slot `t` holds thread `t`'s stride-class
/// count sums to the total number of matches over the whole relation.
pub proof fn lemma_result_counts_cover(
    slots: Seq<(u64, u64)>,
    scheme: HashingScheme,
    keys: Seq<u64>,
    counts: Seq<u64>,
    gb: int,
)
    requires
        gb >= 1,
        counts.len() == gb,
        forall|t: int|
            0 <= t < gb ==> #[trigger] counts[t] == count_hits_stride(
                slots,
                scheme,
                keys,
                t,
                gb,
                keys.len() as int,
            ),
    ensures
        sum_u64(counts) == count_hits(slots, scheme, keys, 0, keys.len() as int),
{
    lemma_sum_prefix_eq_stride(slots, scheme, keys, counts, gb, gb);
    lemma_stride_partition(slots, scheme, keys, gb, keys.len() as int);
    assert(counts.take(gb) =~= counts);
}

proof fn lemma_sum_prefix_eq_stride(
    slots: Seq<(u64, u64)>,
    scheme: HashingScheme,
    keys: Seq<u64>,
    counts: Seq<u64>,
    tc: int,
    gb: int,
)
    requires
        0 <= tc <= gb,
        counts.len() == gb,
        forall|t: int|
            0 <= t < gb ==> #[trigger] counts[t] == count_hits_stride(
                slots,
                scheme,
                keys,
                t,
                gb,
                keys.len() as int,
            ),
    ensures
        sum_u64(counts.take(tc)) == sum_stride_counts(
            slots,
            scheme,
            keys,
            tc,
            gb,
            keys.len() as int,
        ),
    decreases tc,
{
    if tc > 0 {
        lemma_sum_prefix_eq_stride(slots, scheme, keys, counts, tc - 1, gb);
        assert(counts.take(tc).drop_last() =~= counts.take(tc - 1));
        assert(counts.take(tc).last() == counts[tc - 1]);
    }
}

/// The smallest power of two at or above `n` (and 1 for `n == 0`).
pub open spec fn spec_next_pow2(n: nat) -> nat
    decreases n,
{
    if n <= 1 {
        1
    } else {
        2 * spec_next_pow2(((n + 1) / 2) as nat)
    }
}

/// `spec_next_pow2` is a power of two at or above its argument.
pub proof fn lemma_next_pow2_bounds(n: nat)
    ensures
        spec_next_pow2(n) >= n,
        spec_next_pow2(n) >= 1,
        is_pow2(spec_next_pow2(n)),
    decreases n,
{
    if n <= 1 {
        lemma2_to64();
        assert(spec_next_pow2(n) == pow2(0));
    } else {
        let m = ((n + 1) / 2) as nat;
        lemma_next_pow2_bounds(m);
        let e = choose|e: nat| spec_next_pow2(m) == pow2(e);
        lemma_pow2_adds(e, 1);
        lemma2_to64();
        assert(spec_next_pow2(n) == pow2(e + 1));
    }
}

/// `spec_next_pow2` is the least power of two at or above its argument.
pub proof fn lemma_next_pow2_min(n: nat, q: nat)
    requires
        is_pow2(q),
        q >= n,
    ensures
        spec_next_pow2(n) <= q,
    decreases n,
{
    let f = choose|f: nat| q == pow2(f);
    lemma_pow2_pos(f);
    if n <= 1 {
    } else {
        let m = ((n + 1) / 2) as nat;
        if f == 0 {
            lemma2_to64();
            assert(false);
        }
        lemma_pow2_unfold(f);
        let half = (q / 2) as nat;
        assert(half == pow2((f - 1) as nat));
        assert(q % 2 == 0) by {
            assert(q == 2 * pow2((f - 1) as nat));
        }
        assert(half >= m);
        lemma_next_pow2_min(m, half);
    }
}

/// Two powers of two are at least a factor of two apart.
pub proof fn lemma_pow2_gap(p: nat, q: nat)
    requires
        is_pow2(p),
        is_pow2(q),
        p < q,
    ensures
        2 * p <= q,
{
    let a = choose|a: nat| p == pow2(a);
    let b = choose|b: nat| q == pow2(b);
    if a >= b {
        if a > b {
            lemma_pow2_strictly_increases(b, a);
        }
        assert(false);
    }
    lemma_pow2_adds(a, 1);
    lemma2_to64();
    if a + 1 < b {
        lemma_pow2_strictly_increases(a + 1, b);
    }
}

/// The smallest power of two at or above `n`, or `None` when that value
/// does not fit in a `usize`.
pub fn next_pow2(n: usize) -> (r: Option<usize>)
    ensures
        match r {
            Some(p) => p as nat == spec_next_pow2(n as nat),
            None => spec_next_pow2(n as nat) > usize::MAX,
        },
{
    proof {
        lemma_next_pow2_bounds(n as nat);
        lemma2_to64();
    }
    let mut p: usize = 1;
    while p < n
        invariant
            1 <= p,
            is_pow2(p as nat),
            p as nat <= spec_next_pow2(n as nat),
            spec_next_pow2(n as nat) >= n,
            is_pow2(spec_next_pow2(n as nat)),
        decreases usize::MAX - p,
    {
        if p > usize::MAX / 2 {
            proof {
                lemma_pow2_gap(p as nat, spec_next_pow2(n as nat));
            }
            return None;
        }
        proof {
            lemma2_to64();
            lemma_pow2_gap(p as nat, spec_next_pow2(n as nat));
            let a = choose|a: nat| p as nat == pow2(a);
            lemma_pow2_adds(a, 1);
            assert((2 * p) as nat == pow2(a + 1));
        }
        p = 2 * p;
    }
    proof {
        lemma_next_pow2_min(n as nat, p as nat);
    }
    Some(p)
}

/// The hash table capacity for a build relation of `build_len` tuples:
/// the next power of two at or above `build_len`, scaled by the load factor
/// and the slots-per-entry factor. Fails with an allocation error exactly
/// when the result overflows a `usize`.
pub fn hash_table_len(build_len: usize, load_factor: usize, elems_per_entry: usize) -> (r: Result<
    usize,
    Error,
>)
    requires
        load_factor >= 1,
        elems_per_entry >= 1,
    ensures
        match r {
            Ok(c) => c as nat == spec_next_pow2(build_len as nat) * load_factor * elems_per_entry,
            Err(e) => {
                &&& e == Error::Allocation
                &&& spec_next_pow2(build_len as nat) * load_factor * elems_per_entry > usize::MAX
            },
        },
{
    proof {
        lemma_next_pow2_bounds(build_len as nat);
    }
    let ghost np_spec = spec_next_pow2(build_len as nat);
    let ghost lf = load_factor as int;
    let ghost epe = elems_per_entry as int;
    proof {
        lemma_mul_is_associative(np_spec as int, lf, epe);
    }
    let np = match next_pow2(build_len) {
        Some(p) => p,
        None => {
            proof {
                lemma_mul_inequality(1, lf, np_spec as int);
                assert(np_spec as int <= np_spec as int * lf) by {
                    lemma_mul_is_commutative(np_spec as int, lf);
                }
                lemma_mul_inequality(1, epe, np_spec as int * lf);
                assert(np_spec as int * lf <= np_spec as int * lf * epe) by {
                    lemma_mul_is_commutative(np_spec as int * lf, epe);
                }
            }
            return Err(Error::Allocation);
        },
    };
    let factor = match load_factor.checked_mul(elems_per_entry) {
        Some(f) => f,
        None => {
            proof {
                lemma_mul_inequality(1, np_spec as int, lf * epe);
                assert(lf * epe <= np_spec as int * (lf * epe)) by {
                    lemma_mul_is_commutative(np_spec as int, lf * epe);
                }
            }
            return Err(Error::Allocation);
        },
    };
    match np.checked_mul(factor) {
        Some(c) => Ok(c),
        None => Err(Error::Allocation),
    }
}

/// The chunk size the CPU driver uses for `len` tuples over `workers`
/// workers: the ceiling of their quotient, so that `workers` chunks always
/// cover the whole relation and the last chunk absorbs the remainder.
pub fn chunk_size(len: usize, workers: usize) -> (c: usize)
    requires
        1 <= workers,
    ensures
        c == (len + workers - 1) as int / workers as int,
        workers * c >= len,
        len > 0 ==> c >= 1,
{
    let q = len / workers;
    let r = len % workers;
    proof {
        lemma_fundamental_div_mod(len as int, workers as int);
        assert(q as int * workers as int == workers as int * q as int) by (nonlinear_arith);
        assert((q as int + 1) * workers as int == workers as int * q as int + workers as int)
            by (nonlinear_arith);
        if r == 0 {
            lemma_fundamental_div_mod_converse(
                len as int + workers as int - 1,
                workers as int,
                q as int,
                workers as int - 1,
            );
            assert(workers as int * q as int >= len);
            if len > 0 {
                assert(q >= 1) by (nonlinear_arith)
                    requires
                        workers >= 1,
                        len >= 1,
                        len as int == workers as int * (q as int),
                ;
            }
        } else {
            lemma_fundamental_div_mod_converse(
                len as int + workers as int - 1,
                workers as int,
                q as int + 1,
                r as int - 1,
            );
            assert(workers as int * (q as int + 1) >= len) by (nonlinear_arith)
                requires
                    workers >= 1,
                    r as int >= 1,
                    r < workers,
                    len as int == workers as int * (q as int) + r as int,
            ;
            assert(workers as int * (q as int + 1) == workers as int * (q as int) + workers as int)
                by (nonlinear_arith);
            assert(q as int + 1 <= usize::MAX) by (nonlinear_arith)
                requires
                    workers >= 2,
                    len <= usize::MAX,
                    r as int >= 0,
                    len as int == workers as int * (q as int) + r as int,
                    q >= 0,
            ;
        }
    }
    if r != 0 {
        q + 1
    } else {
        q
    }
}

/// Where chunk `w` starts: `w * chunk_size`, clamped to the relation length.
pub open spec fn chunk_start(len: int, cs: int, w: int) -> int {
    if w * cs > len {
        len
    } else {
        w * cs
    }
}

/// How many tuples chunk `w` holds.
pub open spec fn chunk_len(len: int, cs: int, w: int) -> int {
    chunk_start(len, cs, w + 1) - chunk_start(len, cs, w)
}

/// The ceiling quotient the CPU driver chunks by.
pub open spec fn spec_chunk_size(len: int, workers: int) -> int {
    (len + workers - 1) / workers
}

/// The CPU join engine: a hash table plus the chosen hashing scheme, driven
/// over host-addressable memory in per-worker chunks.
///
/// Worker chunks are statically assigned and contiguous, but their key
/// ranges need not be disjoint: correctness rests only on the table's
/// per-slot claim (one atomic compare-and-exchange per slot in the
/// concurrent setting), whose guarantees the insert contract states, and
/// never on how the tuples are divided among workers.
pub struct CpuHashJoin {
    table: HashTable,
    scheme: HashingScheme,
}

impl CpuHashJoin {
    /// The engine's hashing scheme.
    pub closed spec fn scheme(&self) -> HashingScheme {
        self.scheme
    }

    /// The table's slot array.
    pub closed spec fn slots(&self) -> Seq<(u64, u64)> {
        self.table.slots()
    }

    /// The table's capacity in slots.
    pub closed spec fn cap(&self) -> nat {
        self.table.cap()
    }

    /// Well-formedness: a well-formed table that the host can address.
    pub closed spec fn wf(&self) -> bool {
        &&& self.table.wf()
        &&& !(self.table.mem_kind() is Device)
    }

    /// Assemble a CPU engine around a table. The table must be
    /// host-addressable: accelerator-resident memory is refused.
    pub fn new(table: HashTable, scheme: HashingScheme) -> (r: Result<CpuHashJoin, Error>)
        requires
            table.wf(),
        ensures
            match r {
                Ok(j) => {
                    &&& j.wf()
                    &&& j.scheme() == scheme
                    &&& j.slots() == table.slots()
                    &&& j.cap() == table.cap()
                    &&& !(table.mem_kind() is Device)
                },
                Err(e) => e == Error::Policy && table.mem_kind() is Device,
            },
    {
        if matches!(table.table_mem_type(), MemType::Device) {
            return Err(Error::Policy);
        }
        Ok(CpuHashJoin { table, scheme })
    }

    /// Hand the table back, ending the engine's run.
    pub fn into_table(self) -> (t: HashTable)
        ensures
            t.slots() == self.slots(),
            t.cap() == self.cap(),
            self.wf() ==> t.wf(),
    {
        self.table
    }

    /// Build the table from a relation, partitioned into `workers` contiguous
    /// near-equal chunks (the last absorbs the remainder), each inserted in
    /// full by its worker.
    ///
    /// On success the returned vector holds, per worker, how many tuples that
    /// worker inserted: exactly its chunk length, summing to the relation
    /// length, and the occupied-slot count has grown by exactly the relation
    /// length — no tuple lost or duplicated. Under linear probing the build
    /// fails with a runtime error exactly when the relation does not fit in
    /// the table's free slots; the table is then full.
    pub fn build(&mut self, rel: &Relation, workers: usize) -> (r: Result<Vec<usize>, Error>)
        requires
            old(self).wf(),
            rel.wf(),
            rel.is_host_addressable(),
            1 <= workers,
            keys_valid(rel.keys()),
            old(self).scheme() is Perfect ==> perfect_build_pre(old(self).slots(), rel.keys()),
        ensures
            final(self).wf(),
            final(self).scheme() == old(self).scheme(),
            final(self).cap() == old(self).cap(),
            match r {
                Ok(counts) => {
                    &&& build_effect(
                        old(self).slots(),
                        final(self).slots(),
                        old(self).scheme(),
                        rel.keys(),
                        rel.payloads(),
                    )
                    &&& count_occupied(final(self).slots()) == count_occupied(old(self).slots())
                        + rel.keys().len()
                    &&& (old(self).scheme() is LinearProbing ==> count_occupied(old(self).slots())
                        + rel.keys().len() <= old(self).cap())
                    &&& counts@.len() == workers
                    &&& (forall|w: int|
                        0 <= w < workers ==> #[trigger] counts@[w] == chunk_len(
                            rel.keys().len() as int,
                            spec_chunk_size(rel.keys().len() as int, workers as int),
                            w,
                        ))
                    &&& sum_usize(counts@) == rel.keys().len()
                },
                Err(e) => {
                    &&& e == Error::Runtime
                    &&& old(self).scheme() is LinearProbing
                    &&& count_occupied(old(self).slots()) + rel.keys().len() > old(self).cap()
                    &&& count_occupied(final(self).slots()) == old(self).cap()
                },
            },
    {
        let len = rel.len();
        let cs = chunk_size(len, workers);
        let mut counts: Vec<usize> = Vec::new();
        let mut done: usize = 0;
        let ghost s0 = self.slots();
        let ghost scheme = self.scheme();
        let mut w: usize = 0;
        proof {
            self.table.lemma_wf_facts();
            assert(rel.keys().take(0) =~= Seq::<u64>::empty());
            lemma_build_effect_refl(s0, scheme, rel.keys().take(0), rel.payloads().take(0));
            assert(chunk_start(len as int, cs as int, 0) == 0);
        }
        while w < workers
            invariant
                self.wf(),
                self.scheme() == scheme,
                scheme == old(self).scheme(),
                self.cap() == old(self).cap(),
                s0 == old(self).slots(),
                s0.len() == self.cap(),
                rel.wf(),
                rel.is_host_addressable(),
                keys_valid(rel.keys()),
                scheme is Perfect ==> perfect_build_pre(s0, rel.keys()),
                len == rel.keys().len(),
                1 <= workers,
                cs == spec_chunk_size(len as int, workers as int),
                workers as int * cs as int >= len,
                w <= workers,
                counts@.len() == w,
                done as int == chunk_start(len as int, cs as int, w as int),
                done <= len,
                forall|w2: int|
                    0 <= w2 < w ==> #[trigger] counts@[w2] == chunk_len(
                        len as int,
                        cs as int,
                        w2,
                    ),
                sum_usize(counts@) == done,
                build_effect(
                    s0,
                    self.slots(),
                    scheme,
                    rel.keys().take(done as int),
                    rel.payloads().take(done as int),
                ),
                count_occupied(self.slots()) == count_occupied(s0) + done,
                scheme is Perfect ==> (forall|ii: int|
                    done <= ii < len ==> self.slots()[rel.keys()[ii] as int].0 == NULL_KEY),
            decreases workers - w,
        {
            proof {
                assert((w as int + 1) * cs as int == w as int * cs as int + cs as int)
                    by (nonlinear_arith);
            }
            let end = if len - done > cs {
                done + cs
            } else {
                len
            };
            proof {
                assert(end as int == chunk_start(len as int, cs as int, w as int + 1));
            }
            let mut i = done;
            while i < end
                invariant
                    self.wf(),
                    self.scheme() == scheme,
                    scheme == old(self).scheme(),
                    self.cap() == old(self).cap(),
                    s0 == old(self).slots(),
                    s0.len() == self.cap(),
                    rel.wf(),
                    rel.is_host_addressable(),
                    keys_valid(rel.keys()),
                    scheme is Perfect ==> perfect_build_pre(s0, rel.keys()),
                    len == rel.keys().len(),
                    done <= i <= end,
                    end <= len,
                    build_effect(
                        s0,
                        self.slots(),
                        scheme,
                        rel.keys().take(i as int),
                        rel.payloads().take(i as int),
                    ),
                    count_occupied(self.slots()) == count_occupied(s0) + i,
                    scheme is Perfect ==> (forall|ii: int|
                        i <= ii < len ==> self.slots()[rel.keys()[ii] as int].0 == NULL_KEY),
                decreases end - i,
            {
                let key = rel.keys.read(i);
                let pay = rel.payloads.read(i);
                let ghost mid = self.slots();
                proof {
                    self.table.lemma_wf_facts();
                }
                let res = self.table.insert(self.scheme, key, pay);
                match res {
                    Ok(()) => {
                        proof {
                            lemma_insert_effect(mid, self.slots(), scheme, key, pay);
                            lemma_build_effect_step(
                                s0,
                                mid,
                                self.slots(),
                                scheme,
                                rel.keys(),
                                rel.payloads(),
                                i as int,
                            );
                            if scheme is Perfect {
                                assert forall|ii: int|
                                    i + 1 <= ii < len implies self.slots()[rel.keys()[ii] as int].0
                                    == NULL_KEY by {
                                    assert(rel.keys()[ii] != rel.keys()[i as int]);
                                    assert(mid[rel.keys()[ii] as int].0 == NULL_KEY);
                                }
                            }
                        }
                    },
                    Err(e) => {
                        proof {
                            lemma_claim_none_iff_full(self.slots(), key);
                            lemma_count_occupied_full(self.slots());
                        }
                        return Err(e);
                    },
                }
                i = i + 1;
            }
            let ghost counts_before = counts@;
            counts.push(end - done);
            proof {
                assert(counts@.drop_last() =~= counts_before);
                assert forall|w2: int|
                    0 <= w2 < w + 1 implies #[trigger] counts@[w2] == chunk_len(
                    len as int,
                    cs as int,
                    w2,
                ) by {
                    if w2 < w {
                        assert(counts@[w2] == counts_before[w2]);
                    }
                }
            }
            done = end;
            w = w + 1;
        }
        proof {
            assert(done == len) by {
                assert(chunk_start(len as int, cs as int, workers as int) == len);
            }
            assert(rel.keys().take(len as int) =~= rel.keys());
            assert(rel.payloads().take(len as int) =~= rel.payloads());
            if scheme is LinearProbing {
                lemma_count_occupied_le(self.slots());
            }
        }
        Ok(counts)
    }

    /// Probe the table with a relation, partitioned into `workers` contiguous
    /// chunks exactly as the build partitions its relation; each worker scans
    /// its chunk and accumulates a private match counter. The returned vector
    /// holds, per worker, the number of its probe keys that matched, and the
    /// counters sum to the total number of matches over the whole relation.
    /// This operator counts matches only; it does not materialize output rows.
    pub fn probe_count(&self, rel: &Relation, workers: usize) -> (r: Vec<u64>)
        requires
            self.wf(),
            rel.wf(),
            rel.is_host_addressable(),
            1 <= workers,
            keys_valid(rel.keys()),
            self.scheme() is Perfect ==> perfect_probe_pre(self.cap(), rel.keys()),
        ensures
            r@.len() == workers,
            forall|w: int|
                0 <= w < workers ==> #[trigger] r@[w] as nat == count_hits(
                    self.slots(),
                    self.scheme(),
                    rel.keys(),
                    chunk_start(
                        rel.keys().len() as int,
                        spec_chunk_size(rel.keys().len() as int, workers as int),
                        w,
                    ),
                    chunk_start(
                        rel.keys().len() as int,
                        spec_chunk_size(rel.keys().len() as int, workers as int),
                        w + 1,
                    ),
                ),
            sum_u64(r@) == count_hits(
                self.slots(),
                self.scheme(),
                rel.keys(),
                0,
                rel.keys().len() as int,
            ),
    {
        let len = rel.len();
        let cs = chunk_size(len, workers);
        let mut counts: Vec<u64> = Vec::new();
        let mut done: usize = 0;
        let ghost scheme = self.scheme();
        let mut w: usize = 0;
        while w < workers
            invariant
                self.wf(),
                self.scheme() == scheme,
                rel.wf(),
                rel.is_host_addressable(),
                keys_valid(rel.keys()),
                scheme is Perfect ==> perfect_probe_pre(self.cap(), rel.keys()),
                len == rel.keys().len(),
                1 <= workers,
                cs == spec_chunk_size(len as int, workers as int),
                workers as int * cs as int >= len,
                w <= workers,
                counts@.len() == w,
                done as int == chunk_start(len as int, cs as int, w as int),
                done <= len,
                forall|w2: int|
                    0 <= w2 < w ==> #[trigger] counts@[w2] as nat == count_hits(
                        self.slots(),
                        scheme,
                        rel.keys(),
                        chunk_start(len as int, cs as int, w2),
                        chunk_start(len as int, cs as int, w2 + 1),
                    ),
                sum_u64(counts@) == count_hits(self.slots(), scheme, rel.keys(), 0, done as int),
            decreases workers - w,
        {
            proof {
                assert((w as int + 1) * cs as int == w as int * cs as int + cs as int)
                    by (nonlinear_arith);
            }
            let end = if len - done > cs {
                done + cs
            } else {
                len
            };
            proof {
                assert(end as int == chunk_start(len as int, cs as int, w as int + 1));
            }
            let mut cnt: u64 = 0;
            let mut i = done;
            while i < end
                invariant
                    self.wf(),
                    self.scheme() == scheme,
                    rel.wf(),
                    rel.is_host_addressable(),
                    keys_valid(rel.keys()),
                    scheme is Perfect ==> perfect_probe_pre(self.cap(), rel.keys()),
                    len == rel.keys().len(),
                    done <= i <= end,
                    end <= len,
                    cnt as nat == count_hits(self.slots(), scheme, rel.keys(), done as int, i as int),
                    cnt <= i - done,
                decreases end - i,
            {
                let key = rel.keys.read(i);
                let hit = self.table.probe(self.scheme, key);
                if hit.is_some() {
                    cnt = cnt + 1;
                }
                i = i + 1;
            }
            let ghost counts_before = counts@;
            counts.push(cnt);
            proof {
                assert(counts@.drop_last() =~= counts_before);
                assert forall|w2: int|
                    0 <= w2 < w + 1 implies #[trigger] counts@[w2] as nat == count_hits(
                    self.slots(),
                    scheme,
                    rel.keys(),
                    chunk_start(len as int, cs as int, w2),
                    chunk_start(len as int, cs as int, w2 + 1),
                ) by {
                    if w2 < w {
                        assert(counts@[w2] == counts_before[w2]);
                    }
                }
                lemma_count_hits_split(
                    self.slots(),
                    scheme,
                    rel.keys(),
                    0,
                    done as int,
                    end as int,
                );
            }
            done = end;
            w = w + 1;
        }
        proof {
            assert(done == len) by {
                assert(chunk_start(len as int, cs as int, workers as int) == len);
            }
        }
        counts
    }
}

/// Within one stride of an index in thread `t`'s class, no other index
/// belongs to the same class.
proof fn lemma_stride_gap(base: int, i: int, gb: int, t: int)
    requires
        0 <= t < gb,
        0 <= base,
        base % gb == t,
        base < i < base + gb,
    ensures
        i % gb != t,
{
    let d = i - base;
    lemma_small_mod_int(d, gb);
    lemma_small_mod_int(t, gb);
    vstd::arithmetic::div_mod::lemma_add_mod_noop(base, d, gb);
    if t + d < gb {
        lemma_small_mod_int(t + d, gb);
    } else {
        vstd::arithmetic::div_mod::lemma_mod_multiples_vanish(1, t + d - gb, gb);
        lemma_small_mod_int(t + d - gb, gb);
    }
}

/// The GPU join engine: a hash table on accelerator-reachable memory plus
/// the chosen scheme and the kernel launch dimensions. Build and probe each
/// run as a logical grid of `grid x block` threads; every thread processes
/// its grid-stride subset of the relation, decoupling the launch
/// configuration from the relation size.
pub struct CudaHashJoin {
    table: HashTable,
    scheme: HashingScheme,
    build_grid: usize,
    build_block: usize,
    probe_grid: usize,
    probe_block: usize,
}

impl CudaHashJoin {
    /// The engine's hashing scheme.
    pub closed spec fn scheme(&self) -> HashingScheme {
        self.scheme
    }

    /// The table's slot array.
    pub closed spec fn slots(&self) -> Seq<(u64, u64)> {
        self.table.slots()
    }

    /// The table's capacity in slots.
    pub closed spec fn cap(&self) -> nat {
        self.table.cap()
    }

    /// Total threads of the build grid.
    pub closed spec fn build_threads(&self) -> int {
        self.build_grid as int * self.build_block as int
    }

    /// Total threads of the probe grid.
    pub closed spec fn probe_threads(&self) -> int {
        self.probe_grid as int * self.probe_block as int
    }

    /// Well-formedness: a well-formed table in accelerator-reachable memory,
    /// and non-degenerate launch dimensions whose products fit in a `usize`.
    pub closed spec fn wf(&self) -> bool {
        &&& self.table.wf()
        &&& (self.table.mem_kind() is Unified || self.table.mem_kind() is Device)
        &&& 1 <= self.build_threads() <= usize::MAX
        &&& 1 <= self.probe_threads() <= usize::MAX
    }

    /// Assemble a GPU engine around a table with build and probe launch
    /// dimensions, each a `(grid, block)` pair. The table must live in an
    /// accelerator-reachable kind (unified or accelerator-resident); pinned
    /// or plain host memory is refused with a policy error. Degenerate or
    /// overflowing dimensions are refused with a device error.
    pub fn new(
        table: HashTable,
        scheme: HashingScheme,
        build_dim: (usize, usize),
        probe_dim: (usize, usize),
    ) -> (r: Result<CudaHashJoin, Error>)
        requires
            table.wf(),
        ensures
            match r {
                Ok(j) => {
                    &&& j.wf()
                    &&& j.scheme() == scheme
                    &&& j.slots() == table.slots()
                    &&& j.cap() == table.cap()
                    &&& j.build_threads() == build_dim.0 as int * build_dim.1 as int
                    &&& j.probe_threads() == probe_dim.0 as int * probe_dim.1 as int
                },
                Err(e) => {
                    &&& (e == Error::Policy <==> !(table.mem_kind() is Unified
                        || table.mem_kind() is Device))
                    &&& ((table.mem_kind() is Unified || table.mem_kind() is Device) ==> e
                        == Error::Device && !(1 <= build_dim.0 as int * build_dim.1 as int
                        <= usize::MAX && 1 <= probe_dim.0 as int * probe_dim.1 as int
                        <= usize::MAX))
                },
            },
    {
        let kind_ok = match table.table_mem_type() {
            MemType::Unified => true,
            MemType::Device => true,
            _ => false,
        };
        if !kind_ok {
            return Err(Error::Policy);
        }
        let bt = match build_dim.0.checked_mul(build_dim.1) {
            Some(n) => n,
            None => {
                return Err(Error::Device);
            },
        };
        let pt = match probe_dim.0.checked_mul(probe_dim.1) {
            Some(n) => n,
            None => {
                return Err(Error::Device);
            },
        };
        if bt == 0 || pt == 0 {
            return Err(Error::Device);
        }
        Ok(
            CudaHashJoin {
                table,
                scheme,
                build_grid: build_dim.0,
                build_block: build_dim.1,
                probe_grid: probe_dim.0,
                probe_block: probe_dim.1,
            },
        )
    }

    /// Hand the table back, ending the engine's run.
    pub fn into_table(self) -> (t: HashTable)
        ensures
            t.slots() == self.slots(),
            t.cap() == self.cap(),
            self.wf() ==> t.wf(),
    {
        self.table
    }

    /// Build the table from a relation in grid-stride order: thread `t` of
    /// the build grid inserts the tuples at indices `t, t + gb, t + 2gb, ...`
    /// where `gb` is the total thread count. Each slot claim is a single
    /// atomic compare-and-exchange on the accelerator; here every claim is
    /// the table's verified insert, and the guarantees are the same as the
    /// CPU build's: every tuple inserted exactly once, no occupied slot
    /// overwritten, and under linear probing a runtime error exactly when
    /// the relation does not fit.
    pub fn build(&mut self, rel: &Relation) -> (r: Result<(), Error>)
        requires
            old(self).wf(),
            rel.wf(),
            keys_valid(rel.keys()),
            old(self).scheme() is Perfect ==> perfect_build_pre(old(self).slots(), rel.keys()),
        ensures
            final(self).wf(),
            final(self).scheme() == old(self).scheme(),
            final(self).cap() == old(self).cap(),
            final(self).probe_threads() == old(self).probe_threads(),
            match r {
                Ok(()) => {
                    &&& build_effect(
                        old(self).slots(),
                        final(self).slots(),
                        old(self).scheme(),
                        rel.keys(),
                        rel.payloads(),
                    )
                    &&& count_occupied(final(self).slots()) == count_occupied(old(self).slots())
                        + rel.keys().len()
                    &&& (old(self).scheme() is LinearProbing ==> count_occupied(old(self).slots())
                        + rel.keys().len() <= old(self).cap())
                },
                Err(e) => {
                    &&& e == Error::Runtime
                    &&& old(self).scheme() is LinearProbing
                    &&& count_occupied(old(self).slots()) + rel.keys().len() > old(self).cap()
                    &&& count_occupied(final(self).slots()) == old(self).cap()
                },
            },
    {
        proof {
            self.table.lemma_wf_facts();
        }
        let len = rel.len();
        let gb = self.build_grid * self.build_block;
        let ghost s0 = self.slots();
        let ghost scheme = self.scheme();
        let ghost mut done: Set<int> = Set::empty();
        proof {
            broadcast use vstd::set::axiom_set_empty_len;
            broadcast use vstd::set::axiom_set_empty;
            broadcast use vstd::set::axiom_set_empty_finite;
            assert(Set::<int>::empty().len() == 0);
            assert(Set::<int>::empty().finite());
        }
        let mut t: usize = 0;
        while t < gb
            invariant
                self.wf(),
                self.scheme() == scheme,
                scheme == old(self).scheme(),
                self.cap() == old(self).cap(),
                self.probe_threads() == old(self).probe_threads(),
                s0 == old(self).slots(),
                s0.len() == self.cap(),
                rel.wf(),
                keys_valid(rel.keys()),
                scheme is Perfect ==> perfect_build_pre(s0, rel.keys()),
                len == rel.keys().len(),
                1 <= gb,
                t <= gb,
                done.finite(),
                forall|i: int|
                    #[trigger] done.contains(i) <==> (0 <= i < len && i % (gb as int) < t),
                count_occupied(self.slots()) == count_occupied(s0) + done.len(),
                forall|i: int|
                    #[trigger] done.contains(i) ==> probe_hit(self.slots(), scheme, rel.keys()[i]),
                forall|k: u64|
                    k != NULL_KEY && #[trigger] probe_hit(s0, scheme, k) ==> probe_hit(
                        self.slots(),
                        scheme,
                        k,
                    ),
                forall|p: int|
                    0 <= p < s0.len() && (#[trigger] s0[p]).0 != NULL_KEY ==> self.slots()[p]
                        == s0[p],
                forall|p: int|
                    0 <= p < s0.len() && self.slots()[p] != #[trigger] s0[p] ==> s0[p].0 == NULL_KEY
                        && (exists|i: int|
                        #[trigger] done.contains(i) && self.slots()[p] == (
                        rel.keys()[i],
                        rel.payloads()[i],
                        )),
                scheme is Perfect ==> (forall|ii: int|
                    0 <= ii < len && !done.contains(ii) ==> self.slots()[rel.keys()[ii] as int].0
                        == NULL_KEY),
            decreases gb - t,
        {
            let mut idx: usize = t;
            proof {
                lemma_small_mod_int(t as int, gb as int);
                assert forall|i: int|
                    #[trigger] done.contains(i) <==> (0 <= i < len && (i % (gb as int) < t || (i % (
                    gb as int) == t && i < idx))) by {
                    if 0 <= i < len && i % (gb as int) == t && i < t {
                        if i < gb {
                            lemma_small_mod_int(i, gb as int);
                        }
                    }
                }
            }
            while idx < len
                invariant
                    self.wf(),
                    self.scheme() == scheme,
                    scheme == old(self).scheme(),
                    self.cap() == old(self).cap(),
                    self.probe_threads() == old(self).probe_threads(),
                    s0 == old(self).slots(),
                    s0.len() == self.cap(),
                    rel.wf(),
                    keys_valid(rel.keys()),
                    scheme is Perfect ==> perfect_build_pre(s0, rel.keys()),
                    len == rel.keys().len(),
                    1 <= gb,
                    t < gb,
                    idx < len ==> idx as int % (gb as int) == t,
                    done.finite(),
                    forall|i: int|
                        #[trigger] done.contains(i) <==> (0 <= i < len && (i % (gb as int) < t || (
                        i % (gb as int) == t && i < idx))),
                    count_occupied(self.slots()) == count_occupied(s0) + done.len(),
                    forall|i: int|
                        #[trigger] done.contains(i) ==> probe_hit(
                            self.slots(),
                            scheme,
                            rel.keys()[i],
                        ),
                    forall|k: u64|
                        k != NULL_KEY && #[trigger] probe_hit(s0, scheme, k) ==> probe_hit(
                            self.slots(),
                            scheme,
                            k,
                        ),
                    forall|p: int|
                        0 <= p < s0.len() && (#[trigger] s0[p]).0 != NULL_KEY ==> self.slots()[p]
                            == s0[p],
                    forall|p: int|
                        0 <= p < s0.len() && self.slots()[p] != #[trigger] s0[p] ==> s0[p].0
                            == NULL_KEY && (exists|i: int|
                            #[trigger] done.contains(i) && self.slots()[p] == (
                            rel.keys()[i],
                            rel.payloads()[i],
                            )),
                    scheme is Perfect ==> (forall|ii: int|
                        0 <= ii < len && !done.contains(ii) ==> self.slots()[rel.keys()[ii] as int].0
                            == NULL_KEY),
                decreases len - idx,
            {
                let key = rel.keys.read_any(idx);
                let pay = rel.payloads.read_any(idx);
                let ghost mid = self.slots();
                proof {
                    self.table.lemma_wf_facts();
                    assert(!done.contains(idx as int));
                }
                let res = self.table.insert(self.scheme, key, pay);
                match res {
                    Ok(()) => {
                        proof {
                            lemma_insert_effect(mid, self.slots(), scheme, key, pay);
                            vstd::set::axiom_set_insert_len(done, idx as int);
                            vstd::set::axiom_set_insert_finite(done, idx as int);
                        }
                    },
                    Err(e) => {
                        proof {
                            lemma_claim_none_iff_full(self.slots(), key);
                            lemma_count_occupied_full(self.slots());
                            lemma_int_range_done_bound(done, idx as int, len as int);
                        }
                        return Err(e);
                    },
                }
                let ghost done_prev = done;
                proof {
                    done = done.insert(idx as int);
                }
                let next = if gb < len - idx {
                    idx + gb
                } else {
                    len
                };
                proof {
                    vstd::arithmetic::div_mod::lemma_mod_multiples_vanish(1, idx as int, gb as int);
                    assert forall|i: int|
                        #[trigger] done.contains(i) <==> (0 <= i < len && (i % (gb as int) < t || (
                        i % (gb as int) == t && i < next))) by {
                        if 0 <= i < len && i % (gb as int) == t && idx < i < next {
                            lemma_stride_gap(idx as int, i, gb as int, t as int);
                        }
                    }
                    assert forall|i: int|
                        #[trigger] done.contains(i) implies probe_hit(
                        self.slots(),
                        scheme,
                        rel.keys()[i],
                    ) by {
                        if done_prev.contains(i) {
                            assert(probe_hit(mid, scheme, rel.keys()[i]));
                        }
                    }
                    assert forall|p: int|
                        0 <= p < s0.len() && self.slots()[p] != #[trigger] s0[p] implies s0[p].0
                        == NULL_KEY && (exists|i: int|
                        #[trigger] done.contains(i) && self.slots()[p] == (
                        rel.keys()[i],
                        rel.payloads()[i],
                        )) by {
                        if self.slots()[p] == mid[p] {
                            let i = choose|i: int|
                                #[trigger] done_prev.contains(i) && mid[p] == (
                                rel.keys()[i],
                                rel.payloads()[i],
                                );
                            assert(done.contains(i) && self.slots()[p] == (
                            rel.keys()[i],
                            rel.payloads()[i],
                            ));
                        } else {
                            assert(done.contains(idx as int) && self.slots()[p] == (
                            rel.keys()[idx as int],
                            rel.payloads()[idx as int],
                            ));
                        }
                    }
                    if scheme is Perfect {
                        assert forall|ii: int|
                            0 <= ii < len && !done.contains(ii) implies self.slots()[rel.keys()[ii] as int].0
                            == NULL_KEY by {
                            assert(rel.keys()[ii] != rel.keys()[idx as int]);
                            assert(mid[rel.keys()[ii] as int].0 == NULL_KEY);
                        }
                    }
                }
                idx = next;
            }
            t = t + 1;
        }
        proof {
            self.table.lemma_wf_facts();
            assert forall|i: int| 0 <= i < len implies #[trigger] done.contains(i) by {
                lemma_mod_division_less_than_divisor(i, gb as int);
            }
            assert(done =~= vstd::set_lib::set_int_range(0, len as int));
            vstd::set_lib::lemma_int_range(0, len as int);
            assert forall|i: int|
                0 <= i < rel.keys().len() implies probe_hit(
                self.slots(),
                scheme,
                #[trigger] rel.keys()[i],
            ) by {
                assert(done.contains(i));
            }
            assert forall|p: int|
                0 <= p < s0.len() && self.slots()[p] != #[trigger] s0[p] implies s0[p].0 == NULL_KEY
                && (exists|i: int|
                0 <= i < rel.keys().len() && self.slots()[p] == (
                #[trigger] rel.keys()[i],
                rel.payloads()[i],
                )) by {
                let i = choose|i: int|
                    #[trigger] done.contains(i) && self.slots()[p] == (
                    rel.keys()[i],
                    rel.payloads()[i],
                    );
                assert(0 <= i < rel.keys().len() && self.slots()[p] == (
                rel.keys()[i],
                rel.payloads()[i],
                ));
            }
            if scheme is LinearProbing {
                lemma_count_occupied_le(self.slots());
            }
        }
        Ok(())
    }

    /// Probe the table with a relation in grid-stride order. Thread `t` of
    /// the probe grid looks up the keys at indices `t, t + gb, t + 2gb, ...`
    /// and accumulates its private match count into slot `t` of the returned
    /// result-count buffer of length `gb`; there is no in-kernel reduction —
    /// the host reduces the buffer after the run (`reduce_result_counts`).
    /// Threads whose first index lies past the relation count nothing: only
    /// slots below the relation length can be nonzero.
    pub fn probe_count(&self, rel: &Relation) -> (r: Vec<u64>)
        requires
            self.wf(),
            rel.wf(),
            keys_valid(rel.keys()),
            self.scheme() is Perfect ==> perfect_probe_pre(self.cap(), rel.keys()),
        ensures
            r@.len() == self.probe_threads(),
            forall|t: int|
                0 <= t < r@.len() ==> #[trigger] r@[t] as nat == count_hits_stride(
                    self.slots(),
                    self.scheme(),
                    rel.keys(),
                    t,
                    self.probe_threads(),
                    rel.keys().len() as int,
                ),
            forall|t: int| rel.keys().len() <= t < r@.len() ==> #[trigger] r@[t] == 0,
            sum_u64(r@) == count_hits(
                self.slots(),
                self.scheme(),
                rel.keys(),
                0,
                rel.keys().len() as int,
            ),
    {
        proof {
            self.table.lemma_wf_facts();
        }
        let len = rel.len();
        let gb = self.probe_grid * self.probe_block;
        let ghost scheme = self.scheme();
        let mut counts: Vec<u64> = Vec::new();
        let mut t: usize = 0;
        while t < gb
            invariant
                self.wf(),
                self.scheme() == scheme,
                self.probe_threads() == gb,
                rel.wf(),
                keys_valid(rel.keys()),
                scheme is Perfect ==> perfect_probe_pre(self.cap(), rel.keys()),
                len == rel.keys().len(),
                1 <= gb,
                t <= gb,
                counts@.len() == t,
                forall|t2: int|
                    0 <= t2 < t ==> #[trigger] counts@[t2] as nat == count_hits_stride(
                        self.slots(),
                        scheme,
                        rel.keys(),
                        t2,
                        gb as int,
                        len as int,
                    ),
            decreases gb - t,
        {
            let mut cnt: u64 = 0;
            let mut idx: usize = t;
            proof {
                lemma_small_mod_int(t as int, gb as int);
                lemma_count_hits_stride_empty(
                    self.slots(),
                    scheme,
                    rel.keys(),
                    t as int,
                    gb as int,
                    if idx < len {
                        idx as int
                    } else {
                        len as int
                    },
                );
            }
            while idx < len
                invariant
                    self.wf(),
                    self.scheme() == scheme,
                    rel.wf(),
                    keys_valid(rel.keys()),
                    scheme is Perfect ==> perfect_probe_pre(self.cap(), rel.keys()),
                    len == rel.keys().len(),
                    1 <= gb,
                    t < gb,
                    idx < len ==> idx as int % (gb as int) == t,
                    cnt as nat == count_hits_stride(
                        self.slots(),
                        scheme,
                        rel.keys(),
                        t as int,
                        gb as int,
                        if idx < len {
                            idx as int
                        } else {
                            len as int
                        },
                    ),
                    cnt <= len,
                decreases len - idx,
            {
                let key = rel.keys.read_any(idx);
                let hit = self.table.probe(self.scheme, key);
                proof {
                    lemma_count_hits_stride_le(
                        self.slots(),
                        scheme,
                        rel.keys(),
                        t as int,
                        gb as int,
                        idx as int,
                    );
                }
                if hit.is_some() {
                    cnt = cnt + 1;
                }
                let next = if gb < len - idx {
                    idx + gb
                } else {
                    len
                };
                proof {
                    vstd::arithmetic::div_mod::lemma_mod_multiples_vanish(1, idx as int, gb as int);
                    assert forall|j: int| idx + 1 <= j < next implies #[trigger] (j % (gb as int))
                        != t by {
                        lemma_stride_gap(idx as int, j, gb as int, t as int);
                    }
                    lemma_stride_count_skip(
                        self.slots(),
                        scheme,
                        rel.keys(),
                        t as int,
                        gb as int,
                        idx as int + 1,
                        next as int,
                    );
                }
                idx = next;
            }
            let ghost counts_before = counts@;
            counts.push(cnt);
            proof {
                assert forall|t2: int|
                    0 <= t2 < t + 1 implies #[trigger] counts@[t2] as nat == count_hits_stride(
                    self.slots(),
                    scheme,
                    rel.keys(),
                    t2,
                    gb as int,
                    len as int,
                ) by {
                    if t2 < t {
                        assert(counts@[t2] == counts_before[t2]);
                    }
                }
            }
            t = t + 1;
        }
        proof {
            assert forall|t2: int| len <= t2 < gb implies #[trigger] counts@[t2] == 0 by {
                lemma_count_hits_stride_empty(
                    self.slots(),
                    scheme,
                    rel.keys(),
                    t2,
                    gb as int,
                    len as int,
                );
            }
            lemma_result_counts_cover(self.slots(), scheme, rel.keys(), counts@, gb as int);
        }
        counts
    }
}

/// A set of processed indices that excludes one index below `len` has fewer
/// than `len` members.
proof fn lemma_int_range_done_bound(done: Set<int>, idx: int, len: int)
    requires
        done.finite(),
        0 <= idx < len,
        !done.contains(idx),
        forall|i: int| #[trigger] done.contains(i) ==> 0 <= i < len,
    ensures
        done.len() < len,
{
    let range = vstd::set_lib::set_int_range(0, len);
    vstd::set_lib::lemma_int_range(0, len);
    let smaller = range.remove(idx);
    vstd::set::axiom_set_remove_finite(range, idx);
    vstd::set::axiom_set_remove_len(range, idx);
    assert(done.subset_of(smaller));
    vstd::set_lib::lemma_len_subset(done, smaller);
}

/// Stride-class counts do not change across index ranges that contain no
/// member of the class.
proof fn lemma_stride_count_skip(
    slots: Seq<(u64, u64)>,
    scheme: HashingScheme,
    keys: Seq<u64>,
    t: int,
    gb: int,
    a: int,
    b: int,
)
    requires
        0 <= a <= b,
        forall|j: int| a <= j < b ==> #[trigger] (j % gb) != t,
    ensures
        count_hits_stride(slots, scheme, keys, t, gb, b) == count_hits_stride(
            slots,
            scheme,
            keys,
            t,
            gb,
            a,
        ),
    decreases b - a,
{
    if b > a {
        lemma_stride_count_skip(slots, scheme, keys, t, gb, a, b - 1);
    }
}

/// Reduce a result-count buffer on the host: the total of the per-thread
/// match counters.
pub fn reduce_result_counts(counts: &Vec<u64>) -> (total: u64)
    requires
        sum_u64(counts@) <= u64::MAX,
    ensures
        total == sum_u64(counts@),
{
    let mut total: u64 = 0;
    let mut i: usize = 0;
    while i < counts.len()
        invariant
            i <= counts@.len(),
            total == sum_u64(counts@.take(i as int)),
            sum_u64(counts@) <= u64::MAX,
        decreases counts@.len() - i,
    {
        proof {
            lemma_sum_u64_take_le(counts@, i as int + 1);
            assert(counts@.take(i as int + 1).drop_last() =~= counts@.take(i as int));
            assert(counts@.take(i as int + 1).last() == counts@[i as int]);
            lemma_sum_u64_nonneg(counts@.take(i as int));
        }
        total = total + counts[i];
        i = i + 1;
    }
    proof {
        assert(counts@.take(counts@.len() as int) =~= counts@);
    }
    total
}

/// Every counter is nonnegative, so prefix sums are bounded by the total.
proof fn lemma_sum_u64_nonneg(s: Seq<u64>)
    ensures
        sum_u64(s) >= 0,
    decreases s.len(),
{
    if s.len() > 0 {
        lemma_sum_u64_nonneg(s.drop_last());
    }
}

proof fn lemma_sum_u64_take_le(s: Seq<u64>, i: int)
    requires
        0 <= i <= s.len(),
    ensures
        sum_u64(s.take(i)) <= sum_u64(s),
    decreases s.len() - i,
{
    if i < s.len() {
        lemma_sum_u64_take_le(s, i + 1);
        assert(s.take(i + 1).drop_last() =~= s.take(i));
        assert(s.take(i + 1).last() == s[i]);
    } else {
        assert(s.take(i) =~= s);
    }
}

/// Builder for the CPU join engine.
pub struct CpuHashJoinBuilder {
    hashing_scheme: HashingScheme,
}

impl Default for CpuHashJoinBuilder {
    /// A builder with the default scheme, linear probing.
    fn default() -> (r: Self)
        ensures
            r.scheme() == HashingScheme::LinearProbing,
    {
        CpuHashJoinBuilder { hashing_scheme: HashingScheme::LinearProbing }
    }
}

impl CpuHashJoinBuilder {
    /// The scheme the built engine will use.
    pub closed spec fn scheme(&self) -> HashingScheme {
        self.hashing_scheme
    }

    /// Choose the hashing scheme.
    pub fn hashing_scheme(self, hashing_scheme: HashingScheme) -> (r: Self)
        ensures
            r.scheme() == hashing_scheme,
    {
        CpuHashJoinBuilder { hashing_scheme }
    }

    /// Build the engine around a table; see `CpuHashJoin::new`.
    pub fn build(&self, table: HashTable) -> (r: Result<CpuHashJoin, Error>)
        requires
            table.wf(),
        ensures
            match r {
                Ok(j) => {
                    &&& j.wf()
                    &&& j.scheme() == self.scheme()
                    &&& j.slots() == table.slots()
                    &&& j.cap() == table.cap()
                },
                Err(e) => e == Error::Policy && table.mem_kind() is Device,
            },
    {
        CpuHashJoin::new(table, self.hashing_scheme)
    }
}

/// Builder for the GPU join engine.
pub struct CudaHashJoinBuilder {
    hashing_scheme: HashingScheme,
    build_dim: (usize, usize),
    probe_dim: (usize, usize),
}

impl Default for CudaHashJoinBuilder {
    /// A builder with the default scheme, linear probing, and a minimal
    /// one-thread grid for both kernels.
    fn default() -> (r: Self)
        ensures
            r.scheme() == HashingScheme::LinearProbing,
            r.build_dim() == (1usize, 1usize),
            r.probe_dim() == (1usize, 1usize),
    {
        CudaHashJoinBuilder {
            hashing_scheme: HashingScheme::LinearProbing,
            build_dim: (1, 1),
            probe_dim: (1, 1),
        }
    }
}

impl CudaHashJoinBuilder {
    /// The scheme the built engine will use.
    pub closed spec fn scheme(&self) -> HashingScheme {
        self.hashing_scheme
    }

    /// The build kernel's (grid, block) dimensions.
    pub closed spec fn build_dim(&self) -> (usize, usize) {
        self.build_dim
    }

    /// The probe kernel's (grid, block) dimensions.
    pub closed spec fn probe_dim(&self) -> (usize, usize) {
        self.probe_dim
    }

    /// Choose the hashing scheme.
    pub fn hashing_scheme(self, hashing_scheme: HashingScheme) -> (r: Self)
        ensures
            r.scheme() == hashing_scheme,
            r.build_dim() == self.build_dim(),
            r.probe_dim() == self.probe_dim(),
    {
        CudaHashJoinBuilder { hashing_scheme, ..self }
    }

    /// Choose the build kernel's grid and block sizes.
    pub fn build_dims(self, grid: usize, block: usize) -> (r: Self)
        ensures
            r.scheme() == self.scheme(),
            r.build_dim() == (grid, block),
            r.probe_dim() == self.probe_dim(),
    {
        CudaHashJoinBuilder { build_dim: (grid, block), ..self }
    }

    /// Choose the probe kernel's grid and block sizes.
    pub fn probe_dims(self, grid: usize, block: usize) -> (r: Self)
        ensures
            r.scheme() == self.scheme(),
            r.build_dim() == self.build_dim(),
            r.probe_dim() == (grid, block),
    {
        CudaHashJoinBuilder { probe_dim: (grid, block), ..self }
    }

    /// Build the engine around a table; see `CudaHashJoin::new`.
    pub fn build(&self, table: HashTable) -> (r: Result<CudaHashJoin, Error>)
        requires
            table.wf(),
        ensures
            match r {
                Ok(j) => {
                    &&& j.wf()
                    &&& j.scheme() == self.scheme()
                    &&& j.slots() == table.slots()
                    &&& j.cap() == table.cap()
                    &&& j.build_threads() == self.build_dim().0 as int * self.build_dim().1 as int
                    &&& j.probe_threads() == self.probe_dim().0 as int * self.probe_dim().1 as int
                },
                Err(e) => {
                    &&& (e == Error::Policy <==> !(table.mem_kind() is Unified
                        || table.mem_kind() is Device))
                    &&& ((table.mem_kind() is Unified || table.mem_kind() is Device) ==> e
                        == Error::Device)
                },
            },
    {
        CudaHashJoin::new(table, self.hashing_scheme, self.build_dim, self.probe_dim)
    }
}

} // verus!
