//! The memory-latency microbenchmark's measurement logic.
//!
//! A measurement sweeps a grid of power-of-two strides and buffer ranges.
//! For every (stride, range) pair the driver prepares a pointer-chase
//! pattern in the buffer, runs the platform's stride kernel `repeat + 1`
//! times (the first run marked as warm-up), and records one data point per
//! run. This module computes the sweep plan, the chase pattern and the data
//! points; the drivers that pin threads, touch devices and run the kernels
//! live outside the library and feed their raw `(cycles, ns)` outcomes back
//! in.

use vstd::prelude::*;

use vstd::arithmetic::div_mod::lemma_fundamental_div_mod_converse;

use crate::hash_table::is_pow2;
use crate::hash_join::{next_pow2, spec_next_pow2, lemma_next_pow2_bounds, lemma_next_pow2_min};

verus! {

/// Bytes per element of a latency measurement buffer.
pub const LATENCY_ELEM_BYTES: usize = 4;

/// The memory-latency measurement operator.
pub struct MemoryLatency;

impl MemoryLatency {
    /// Number of buffer elements covering `range_end + 1` bytes.
    pub fn buffer_len(range_end: usize) -> (n: usize)
        requires
            range_end < usize::MAX,
        ensures
            n == (range_end + 1) / (LATENCY_ELEM_BYTES as int),
    {
        (range_end + 1) / LATENCY_ELEM_BYTES
    }
}

/// One record of a measurement run.
pub struct DataPoint {
    pub hostname: String,
    pub device_type: String,
    pub device_codename: String,
    pub memory_node: Option<u16>,
    pub warm_up: bool,
    pub range_bytes: usize,
    pub stride_bytes: usize,
    pub iterations: u32,
    pub cycles: u64,
    pub ns: u64,
}

/// One cell of the sweep grid: a buffer range, a stride, and how many chase
/// steps one kernel run performs (`range / stride`, truncated to 32 bits as
/// the kernels take it).
pub struct MeasurementParameters {
    pub range: usize,
    pub stride: usize,
    pub iterations: u32,
}

/// Whether `n` is a power of two, decided by comparing `n` against the least
/// power of two at or above it.
pub fn is_power_of_two(n: usize) -> (b: bool)
    ensures
        b == is_pow2(n as nat),
{
    proof {
        lemma_next_pow2_bounds(n as nat);
    }
    match next_pow2(n) {
        Some(p) => {
            proof {
                if is_pow2(n as nat) {
                    lemma_next_pow2_min(n as nat, n as nat);
                }
            }
            p == n
        },
        None => {
            proof {
                if is_pow2(n as nat) {
                    lemma_next_pow2_min(n as nat, n as nat);
                }
            }
            false
        },
    }
}

/// The ascending list of powers of two in `[lo, hi]`.
pub open spec fn pow2_values(lo: int, hi: int) -> Seq<int>
    decreases hi + 1 - lo,
{
    if lo > hi {
        Seq::empty()
    } else if is_pow2(lo as nat) {
        seq![lo] + pow2_values(lo + 1, hi)
    } else {
        pow2_values(lo + 1, hi)
    }
}

/// The sweep plan as (stride, range) pairs: for each power-of-two stride in
/// the stride interval, every power-of-two range in the range interval, in
/// ascending order.
pub open spec fn plan_pairs(s_lo: int, s_hi: int, r_lo: int, r_hi: int) -> Seq<(int, int)>
    decreases s_hi + 1 - s_lo,
{
    if s_lo > s_hi {
        Seq::empty()
    } else if is_pow2(s_lo as nat) {
        pow2_values(r_lo, r_hi).map(|i: int, r: int| (s_lo, r)) + plan_pairs(
            s_lo + 1,
            s_hi,
            r_lo,
            r_hi,
        )
    } else {
        plan_pairs(s_lo + 1, s_hi, r_lo, r_hi)
    }
}

/// What one recorded data point must hold: the template's device fields, the
/// sweep cell it belongs to, the raw outcome of its run, and whether it was
/// the warm-up run.
pub open spec fn data_point_matches(
    dp: DataPoint,
    template: DataPoint,
    pair: (int, int),
    outcome: (u64, u64),
    warm_up: bool,
) -> bool {
    &&& dp.hostname@ == template.hostname@
    &&& dp.device_type@ == template.device_type@
    &&& dp.device_codename@ == template.device_codename@
    &&& dp.memory_node == template.memory_node
    &&& dp.warm_up == warm_up
    &&& dp.stride_bytes == pair.0
    &&& dp.range_bytes == pair.1
    &&& dp.iterations == ((pair.1 / pair.0) as u32)
    &&& dp.cycles == outcome.0
    &&& dp.ns == outcome.1
}

/// A measurement: inclusive byte intervals for the ranges and strides to
/// sweep, and the template data point carrying the device description.
pub struct Measurement {
    pub range: (usize, usize),
    pub stride: (usize, usize),
    pub template: DataPoint,
}

impl Measurement {
    /// Assemble a measurement over inclusive range and stride intervals.
    pub fn new(range: (usize, usize), stride: (usize, usize), template: DataPoint) -> (r:
        Measurement)
        ensures
            r.range == range,
            r.stride == stride,
            r.template.hostname@ == template.hostname@,
            r.template.device_type@ == template.device_type@,
            r.template.device_codename@ == template.device_codename@,
            r.template.memory_node == template.memory_node,
    {
        Measurement { range, stride, template }
    }

    /// The sweep plan of this measurement.
    pub open spec fn plan(&self) -> Seq<(int, int)> {
        plan_pairs(
            self.stride.0 as int,
            self.stride.1 as int,
            self.range.0 as int,
            self.range.1 as int,
        )
    }

    /// Enumerate the sweep grid: one cell per power-of-two stride and
    /// power-of-two range, in stride-major ascending order, each with its
    /// iteration count. The driver runs the kernels over exactly this plan.
    pub fn points(&self) -> (r: Vec<MeasurementParameters>)
        requires
            self.stride.1 < usize::MAX,
            self.range.1 < usize::MAX,
        ensures
            r@.len() == self.plan().len(),
            forall|k: int|
                0 <= k < r@.len() ==> {
                    &&& ((#[trigger] r@[k]).stride as int, r@[k].range as int) == self.plan()[k]
                    &&& r@[k].iterations == ((self.plan()[k].1 / self.plan()[k].0) as u32)
                },
    {
        let mut r: Vec<MeasurementParameters> = Vec::new();
        let mut s: usize = self.stride.0;
        let ghost plan = self.plan();
        proof {
            assert(plan =~= pairs_of(r@) + plan_pairs(
                s as int,
                self.stride.1 as int,
                self.range.0 as int,
                self.range.1 as int,
            ));
        }
        while s <= self.stride.1
            invariant
                self.stride.1 < usize::MAX,
                self.range.1 < usize::MAX,
                plan == self.plan(),
                plan =~= pairs_of(r@) + plan_pairs(
                    s as int,
                    self.stride.1 as int,
                    self.range.0 as int,
                    self.range.1 as int,
                ),
                forall|k: int|
                    0 <= k < r@.len() ==> (#[trigger] r@[k]).iterations == ((r@[k].range as int
                        / r@[k].stride as int) as u32),
            decreases self.stride.1 + 1 - s,
        {
            if is_power_of_two(s) {
                let mut rg: usize = self.range.0;
                proof {
                    let e = choose|e: nat| s as nat == vstd::arithmetic::power2::pow2(e);
                    vstd::arithmetic::power2::lemma_pow2_pos(e);
                    assert(plan =~= pairs_of(r@) + pow2_values(
                        self.range.0 as int,
                        self.range.1 as int,
                    ).map(|i: int, x: int| (s as int, x)) + plan_pairs(
                        s as int + 1,
                        self.stride.1 as int,
                        self.range.0 as int,
                        self.range.1 as int,
                    ));
                }
                while rg <= self.range.1
                    invariant
                        self.stride.1 < usize::MAX,
                        self.range.1 < usize::MAX,
                        s >= 1,
                        plan == self.plan(),
                        plan =~= pairs_of(r@) + pow2_values(rg as int, self.range.1 as int).map(
                            |i: int, x: int| (s as int, x),
                        ) + plan_pairs(
                            s as int + 1,
                            self.stride.1 as int,
                            self.range.0 as int,
                            self.range.1 as int,
                        ),
                        forall|k: int|
                            0 <= k < r@.len() ==> (#[trigger] r@[k]).iterations == ((
                            r@[k].range as int / r@[k].stride as int) as u32),
                    decreases self.range.1 + 1 - rg,
                {
                    if is_power_of_two(rg) {
                        let ghost r_before = r@;
                        #[verifier::truncate]
                        let iterations = (rg / s) as u32;
                        r.push(MeasurementParameters { range: rg, stride: s, iterations });
                        proof {
                            assert(pairs_of(r@) =~= pairs_of(r_before) + seq![
                                (s as int, rg as int),
                            ]);
                            assert(pow2_values(rg as int, self.range.1 as int).map(
                                |i: int, x: int| (s as int, x),
                            ) =~= seq![(s as int, rg as int)] + pow2_values(
                                rg as int + 1,
                                self.range.1 as int,
                            ).map(|i: int, x: int| (s as int, x)));
                            assert(plan =~= pairs_of(r@) + pow2_values(
                                rg as int + 1,
                                self.range.1 as int,
                            ).map(|i: int, x: int| (s as int, x)) + plan_pairs(
                                s as int + 1,
                                self.stride.1 as int,
                                self.range.0 as int,
                                self.range.1 as int,
                            ));
                        }
                    } else {
                        proof {
                            assert(pow2_values(rg as int, self.range.1 as int) == pow2_values(
                                rg as int + 1,
                                self.range.1 as int,
                            ));
                        }
                    }
                    rg = rg + 1;
                }
                proof {
                    assert(pow2_values(rg as int, self.range.1 as int).map(
                        |i: int, x: int| (s as int, x),
                    ) =~= Seq::<(int, int)>::empty());
                    assert(plan =~= pairs_of(r@) + plan_pairs(
                        s as int + 1,
                        self.stride.1 as int,
                        self.range.0 as int,
                        self.range.1 as int,
                    ));
                }
            }
            s = s + 1;
        }
        proof {
            assert(plan_pairs(
                s as int,
                self.stride.1 as int,
                self.range.0 as int,
                self.range.1 as int,
            ) == Seq::<(int, int)>::empty());
            assert(plan =~= pairs_of(r@));
            assert forall|k: int| 0 <= k < r@.len() implies {
                &&& ((#[trigger] r@[k]).stride as int, r@[k].range as int) == self.plan()[k]
                &&& r@[k].iterations == ((self.plan()[k].1 / self.plan()[k].0) as u32)
            } by {
                assert(pairs_of(r@)[k] == (r@[k].stride as int, r@[k].range as int));
            }
        }
        r
    }

    /// Fold the raw outcomes of the runs into data points. The driver runs
    /// each plan cell `repeat + 1` times, in plan order, and hands back one
    /// `(cycles, ns)` pair per run; the first run of each cell is the
    /// warm-up. Returns `None` when the outcome list does not match the plan.
    pub fn measure(&self, runs: &Vec<(u64, u64)>, repeat: u32) -> (r: Option<Vec<DataPoint>>)
        requires
            self.stride.1 < usize::MAX,
            self.range.1 < usize::MAX,
            repeat < u32::MAX,
        ensures
            match r {
                Some(points) => {
                    &&& runs@.len() == self.plan().len() * (repeat + 1)
                    &&& points@.len() == runs@.len()
                    &&& forall|k: int|
                        0 <= k < points@.len() ==> data_point_matches(
                            #[trigger] points@[k],
                            self.template,
                            self.plan()[k / (repeat + 1) as int],
                            runs@[k],
                            k % (repeat + 1) as int == 0,
                        )
                },
                None => runs@.len() != self.plan().len() * (repeat + 1),
            },
    {
        let cells = self.points();
        let runs_per_cell = (repeat as usize) + 1;
        let expected = match cells.len().checked_mul(runs_per_cell) {
            Some(n) => n,
            None => {
                proof {
                    vstd::std_specs::vec::axiom_spec_len(runs);
                }
                return None;
            },
        };
        if runs.len() != expected {
            return None;
        }
        proof {
            vstd::std_specs::vec::axiom_spec_len(runs);
        }
        let mut points: Vec<DataPoint> = Vec::new();
        let mut p: usize = 0;
        let mut k: usize = 0;
        while p < cells.len()
            invariant
                cells@.len() * runs_per_cell == runs@.len(),
                runs_per_cell == repeat + 1,
                repeat < u32::MAX,
                p <= cells@.len(),
                k == p * runs_per_cell,
                k <= runs@.len(),
                runs@.len() <= usize::MAX,
                points@.len() == k,
                cells@.len() == self.plan().len(),
                forall|k2: int|
                    0 <= k2 < cells@.len() ==> {
                        &&& ((#[trigger] cells@[k2]).stride as int, cells@[k2].range as int)
                            == self.plan()[k2]
                        &&& cells@[k2].iterations == ((self.plan()[k2].1 / self.plan()[k2].0) as u32)
                    },
                forall|k2: int|
                    0 <= k2 < points@.len() ==> data_point_matches(
                        #[trigger] points@[k2],
                        self.template,
                        self.plan()[k2 / (repeat + 1) as int],
                        runs@[k2],
                        k2 % (repeat + 1) as int == 0,
                    ),
            decreases cells@.len() - p,
        {
            proof {
                assert((p as int + 1) * runs_per_cell as int == p as int * runs_per_cell as int
                    + runs_per_cell as int) by (nonlinear_arith);
                assert((p as int + 1) * runs_per_cell as int <= cells@.len() as int
                    * runs_per_cell as int) by (nonlinear_arith)
                    requires
                        p as int + 1 <= cells@.len() as int,
                        runs_per_cell as int >= 1,
                ;
            }
            let mut j: usize = 0;
            while j < runs_per_cell
                invariant
                    cells@.len() * runs_per_cell == runs@.len(),
                    runs_per_cell == repeat + 1,
                    repeat < u32::MAX,
                    p < cells@.len(),
                    j <= runs_per_cell,
                    k == p * runs_per_cell + j,
                    k <= runs@.len(),
                    runs@.len() <= usize::MAX,
                    p as int * runs_per_cell as int + runs_per_cell as int <= runs@.len(),
                    points@.len() == k,
                    cells@.len() == self.plan().len(),
                    forall|k2: int|
                        0 <= k2 < cells@.len() ==> {
                            &&& ((#[trigger] cells@[k2]).stride as int, cells@[k2].range as int)
                                == self.plan()[k2]
                            &&& cells@[k2].iterations == ((self.plan()[k2].1
                                / self.plan()[k2].0) as u32)
                        },
                    forall|k2: int|
                        0 <= k2 < points@.len() ==> data_point_matches(
                            #[trigger] points@[k2],
                            self.template,
                            self.plan()[k2 / (repeat + 1) as int],
                            runs@[k2],
                            k2 % (repeat + 1) as int == 0,
                        ),
                decreases runs_per_cell - j,
            {
                let cell = &cells[p];
                let run = runs[k];
                let dp = DataPoint {
                    hostname: self.template.hostname.clone(),
                    device_type: self.template.device_type.clone(),
                    device_codename: self.template.device_codename.clone(),
                    memory_node: self.template.memory_node,
                    warm_up: j == 0,
                    range_bytes: cell.range,
                    stride_bytes: cell.stride,
                    iterations: cell.iterations,
                    cycles: run.0,
                    ns: run.1,
                };
                points.push(dp);
                proof {
                    lemma_fundamental_div_mod_converse(
                        k as int,
                        (repeat + 1) as int,
                        p as int,
                        j as int,
                    );
                }
                k = k + 1;
                j = j + 1;
            }
            p = p + 1;
        }
        proof {
            assert(k == runs@.len()) by {
                assert(p == cells@.len());
            }
        }
        Some(points)
    }
}

/// The (stride, range) pairs a parameter list describes.
pub open spec fn pairs_of(cells: Seq<MeasurementParameters>) -> Seq<(int, int)> {
    cells.map(|i: int, mp: MeasurementParameters| (mp.stride as int, mp.range as int))
}

/// The CPU-side latency driver's state: the NUMA node whose memory the
/// measurement chases. Pinning the measuring thread to that node is the
/// caller's (operating-system) side of the protocol.
pub struct CpuMemoryLatency {
    device_id: u16,
}

impl CpuMemoryLatency {
    /// The NUMA node this driver measures.
    pub closed spec fn node(&self) -> u16 {
        self.device_id
    }

    /// A driver for the given NUMA node.
    pub fn new(device_id: u16) -> (r: CpuMemoryLatency)
        ensures
            r.node() == device_id,
    {
        CpuMemoryLatency { device_id }
    }

    /// Prepare one measurement: write the pointer-chase pattern for the
    /// cell's stride into the buffer.
    pub fn prepare(state: &mut CpuMemoryLatency, mem: &mut Vec<u32>, mp: &MeasurementParameters)
        requires
            old(mem)@.len() > 0,
            mp.stride / LATENCY_ELEM_BYTES + old(mem)@.len() <= usize::MAX,
        ensures
            *final(state) == *old(state),
            final(mem)@.len() == old(mem)@.len(),
            forall|i: int|
                0 <= i < final(mem)@.len() ==> final(mem)@[i] == (((mp.stride
                    / LATENCY_ELEM_BYTES + i) % old(mem)@.len() as int) as u32),
    {
        write_strides(mem, mp.stride);
    }
}

/// Fill the buffer with the pointer-chase pattern for `stride`: element `i`
/// holds the element index `(stride / 4 + i) mod len`, so that following the
/// stored indices from element 0 walks the buffer in stride-sized steps with
/// wraparound. Returns the number of elements written.
pub fn write_strides(data: &mut Vec<u32>, stride: usize) -> (n: usize)
    requires
        old(data)@.len() > 0,
        stride / LATENCY_ELEM_BYTES + old(data)@.len() <= usize::MAX,
    ensures
        n == old(data)@.len(),
        final(data)@.len() == old(data)@.len(),
        forall|i: int|
            0 <= i < final(data)@.len() ==> final(data)@[i] == (((stride / LATENCY_ELEM_BYTES + i)
                % old(data)@.len() as int) as u32),
{
    let len = data.len();
    let first = stride / LATENCY_ELEM_BYTES;
    let mut i: usize = 0;
    while i < len
        invariant
            len == data@.len(),
            len > 0,
            first + len <= usize::MAX,
            first == stride / LATENCY_ELEM_BYTES,
            i <= len,
            forall|i2: int|
                0 <= i2 < i ==> data@[i2] == (((stride / LATENCY_ELEM_BYTES + i2)
                    % len as int) as u32),
        decreases len - i,
    {
        #[verifier::truncate]
        let v = ((first + i) % len) as u32;
        data.set(i, v);
        i = i + 1;
    }
    len
}

/// Convert a cycle count to nanoseconds at the given clock rate in MHz.
pub fn cycles_to_ns(cycles: u64, clock_rate_mhz: u32) -> (ns: u64)
    requires
        clock_rate_mhz > 0,
        cycles * 1000 <= u64::MAX,
    ensures
        ns == cycles * 1000 / (clock_rate_mhz as int),
{
    (cycles * 1000) / (clock_rate_mhz as u64)
}

} // verus!
