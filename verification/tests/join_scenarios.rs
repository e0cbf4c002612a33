use numa_gpu::error::Error;
use numa_gpu::hash_join::{
    chunk_size, hash_table_len, next_pow2, reduce_result_counts, CpuHashJoinBuilder,
    CudaHashJoinBuilder,
};
use numa_gpu::hash_table::{HashTable, HashingScheme};
use numa_gpu::memory::{Allocator, MemType, MemoryRegion};
use numa_gpu::relation::Relation;

fn region_with(kind: MemType, vals: &[u64]) -> MemoryRegion {
    let mut alloc = Allocator::new();
    let mut region = alloc.allocate(kind, vals.len()).unwrap();
    for (i, v) in vals.iter().enumerate() {
        region.write(i, *v);
    }
    region
}

fn relation_with(kind: MemType, keys: &[u64]) -> Relation {
    let payloads: Vec<u64> = keys.iter().map(|k| k + 10_000).collect();
    Relation::new(region_with(kind, keys), region_with(kind, &payloads)).unwrap()
}

fn cpu_table(capacity: usize) -> HashTable {
    let mut alloc = Allocator::new();
    let region = alloc.allocate(MemType::System, 2 * capacity).unwrap();
    HashTable::new_on_cpu(region, capacity).unwrap()
}

fn gpu_table(capacity: usize) -> HashTable {
    let mut alloc = Allocator::new();
    let region = alloc.allocate(MemType::Unified, 2 * capacity).unwrap();
    HashTable::new_on_gpu(region, capacity).unwrap()
}

#[test]
fn capacity_formula_matches_load_factor_two() {
    // next_pow2(1000) * load_factor 2 * elems_per_entry 2 == 4096.
    assert_eq!(next_pow2(1000), Some(1024));
    assert_eq!(hash_table_len(1000, 2, 2), Ok(4096));
    assert_eq!(hash_table_len(1, 2, 2), Ok(4));
    assert_eq!(hash_table_len(usize::MAX, 2, 2).err(), Some(Error::Allocation));
}

#[test]
fn all_probe_keys_from_build_domain_hit() {
    // Build keys 0..1000 (unique, sequential); probe keys drawn from the
    // build domain; linear probing with capacity 4096: every probe hits.
    let build_keys: Vec<u64> = (0..1000).collect();
    let probe_keys: Vec<u64> = (0..1000u64).map(|i| (i * 7 + 13) % 1000).collect();
    let capacity = hash_table_len(build_keys.len(), 2, 2).unwrap();
    assert_eq!(capacity, 4096);

    let build_rel = relation_with(MemType::System, &build_keys);
    let probe_rel = relation_with(MemType::System, &probe_keys);
    let mut join = CpuHashJoinBuilder::default()
        .hashing_scheme(HashingScheme::LinearProbing)
        .build(cpu_table(capacity))
        .unwrap();
    join.build(&build_rel, 4).unwrap();
    let counts = join.probe_count(&probe_rel, 4);
    let total: u64 = counts.iter().sum();
    assert_eq!(total, 1000);
}

#[test]
fn one_probe_key_outside_build_domain_misses() {
    // The same probe relation with one key replaced by 2000, outside the
    // build domain: exactly one miss, all others hit.
    let build_keys: Vec<u64> = (0..1000).collect();
    let mut probe_keys: Vec<u64> = (0..1000u64).map(|i| (i * 7 + 13) % 1000).collect();
    probe_keys[500] = 2000;
    let capacity = hash_table_len(build_keys.len(), 2, 2).unwrap();

    let build_rel = relation_with(MemType::System, &build_keys);
    let probe_rel = relation_with(MemType::System, &probe_keys);
    let mut join = CpuHashJoinBuilder::default()
        .hashing_scheme(HashingScheme::LinearProbing)
        .build(cpu_table(capacity))
        .unwrap();
    join.build(&build_rel, 4).unwrap();
    let counts = join.probe_count(&probe_rel, 4);
    let total: u64 = counts.iter().sum();
    assert_eq!(total, 999);
}

#[test]
fn four_workers_chunk_1001_tuples_as_251_251_251_248() {
    assert_eq!(chunk_size(1001, 4), 251);
    let build_keys: Vec<u64> = (0..1001).collect();
    let capacity = hash_table_len(build_keys.len(), 2, 2).unwrap();
    let build_rel = relation_with(MemType::System, &build_keys);
    let mut join = CpuHashJoinBuilder::default()
        .hashing_scheme(HashingScheme::LinearProbing)
        .build(cpu_table(capacity))
        .unwrap();
    let counts = join.build(&build_rel, 4).unwrap();
    assert_eq!(counts, vec![251, 251, 251, 248]);
    let total: usize = counts.iter().sum();
    assert_eq!(total, 1001);
    // A full-table scan sees exactly the inserted tuples.
    assert_eq!(join.into_table().occupied_slots(), 1001);
}

#[test]
fn gpu_grid_2x32_probing_10_tuples_fills_only_low_slots() {
    // A grid of 2 blocks x 32 threads probing a relation of length 10:
    // the result-count buffer has 64 slots and only indices below 10 can be
    // nonzero.
    let build_keys: Vec<u64> = (0..10).collect();
    let capacity = hash_table_len(build_keys.len(), 2, 2).unwrap();
    let build_rel = relation_with(MemType::Unified, &build_keys);
    let probe_rel = relation_with(MemType::Unified, &build_keys);
    let mut join = CudaHashJoinBuilder::default()
        .hashing_scheme(HashingScheme::LinearProbing)
        .build_dims(1, 32)
        .probe_dims(2, 32)
        .build(gpu_table(capacity))
        .unwrap();
    join.build(&build_rel).unwrap();
    let counts = join.probe_count(&probe_rel);
    assert_eq!(counts.len(), 64);
    for t in 10..64 {
        assert_eq!(counts[t], 0);
    }
    assert_eq!(reduce_result_counts(&counts), 10);
}

#[test]
fn gpu_and_cpu_paths_count_the_same_matches() {
    let build_keys: Vec<u64> = (0..100).collect();
    let probe_keys: Vec<u64> = (0..200u64).map(|i| i * 3).collect();
    let capacity = hash_table_len(build_keys.len(), 2, 2).unwrap();

    let mut cpu = CpuHashJoinBuilder::default()
        .hashing_scheme(HashingScheme::LinearProbing)
        .build(cpu_table(capacity))
        .unwrap();
    cpu.build(&relation_with(MemType::System, &build_keys), 3).unwrap();
    let cpu_total: u64 = cpu
        .probe_count(&relation_with(MemType::System, &probe_keys), 3)
        .iter()
        .sum();

    let mut gpu = CudaHashJoinBuilder::default()
        .hashing_scheme(HashingScheme::LinearProbing)
        .build_dims(2, 8)
        .probe_dims(4, 4)
        .build(gpu_table(capacity))
        .unwrap();
    gpu.build(&relation_with(MemType::Unified, &build_keys)).unwrap();
    let gpu_total = reduce_result_counts(&gpu.probe_count(&relation_with(
        MemType::Unified,
        &probe_keys,
    )));

    // Keys 0, 3, ..., 99 of the probe stream lie in the build domain.
    assert_eq!(cpu_total, 34);
    assert_eq!(gpu_total, 34);
}

#[test]
fn perfect_scheme_joins_dense_unique_keys() {
    let build_keys: Vec<u64> = (0..16).collect();
    let probe_keys: Vec<u64> = vec![0, 5, 5, 15, 11, 3];
    let mut join = CpuHashJoinBuilder::default()
        .hashing_scheme(HashingScheme::Perfect)
        .build(cpu_table(16))
        .unwrap();
    join.build(&relation_with(MemType::System, &build_keys), 2).unwrap();
    let counts = join.probe_count(&relation_with(MemType::System, &probe_keys), 2);
    let total: u64 = counts.iter().sum();
    assert_eq!(total, 6);
    assert_eq!(join.into_table().occupied_slots(), 16);
}

#[test]
fn cpu_build_overflowing_table_is_runtime_error() {
    let build_keys: Vec<u64> = (0..5).collect();
    let mut join = CpuHashJoinBuilder::default()
        .hashing_scheme(HashingScheme::LinearProbing)
        .build(cpu_table(4))
        .unwrap();
    let r = join.build(&relation_with(MemType::System, &build_keys), 2);
    assert_eq!(r.err(), Some(Error::Runtime));
    // The scan exhausted a full table.
    assert_eq!(join.into_table().occupied_slots(), 4);
}

#[test]
fn gpu_engine_refuses_bad_configurations() {
    let r = CudaHashJoinBuilder::default()
        .build_dims(0, 32)
        .build(gpu_table(8));
    assert_eq!(r.err(), Some(Error::Device));

    let mut alloc = Allocator::new();
    let host_region = alloc.allocate(MemType::System, 16).unwrap();
    let host_table = HashTable::new_on_cpu(host_region, 8).unwrap();
    let r2 = CudaHashJoinBuilder::default().build(host_table);
    assert_eq!(r2.err(), Some(Error::Policy));
}

#[test]
fn relation_columns_must_match() {
    let keys = region_with(MemType::System, &[1, 2, 3]);
    let payloads = region_with(MemType::System, &[1, 2]);
    assert_eq!(Relation::new(keys, payloads).err(), Some(Error::Data));
}

#[test]
fn empty_relation_builds_and_probes_nothing() {
    let empty: Vec<u64> = Vec::new();
    let mut join = CpuHashJoinBuilder::default()
        .hashing_scheme(HashingScheme::LinearProbing)
        .build(cpu_table(4))
        .unwrap();
    let counts = join.build(&relation_with(MemType::System, &empty), 3).unwrap();
    assert_eq!(counts, vec![0, 0, 0]);
    let probe_counts = join.probe_count(&relation_with(MemType::System, &empty), 3);
    assert_eq!(probe_counts, vec![0, 0, 0]);
    assert_eq!(join.into_table().occupied_slots(), 0);
}
