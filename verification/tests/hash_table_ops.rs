use numa_gpu::error::Error;
use numa_gpu::hash_table::{HashTable, HashingScheme, NULL_KEY};
use numa_gpu::memory::{Allocator, MemType, MemoryRegion};

fn table_region(capacity: usize) -> MemoryRegion {
    let mut alloc = Allocator::new();
    alloc.allocate(MemType::System, 2 * capacity).unwrap()
}

#[test]
fn construct_clears_every_slot() {
    let table = HashTable::new_on_cpu(table_region(8), 8).unwrap();
    assert_eq!(table.capacity(), 8);
    assert_eq!(table.occupied_slots(), 0);
}

#[test]
fn construct_checks_region_length() {
    let mut alloc = Allocator::new();
    let region = alloc.allocate(MemType::System, 15).unwrap();
    let r = HashTable::new_on_cpu(region, 8);
    assert_eq!(r.err(), Some(Error::Allocation));
}

#[test]
fn cpu_table_refuses_device_memory() {
    let mut alloc = Allocator::new();
    let region = alloc.allocate(MemType::Device, 16).unwrap();
    let r = HashTable::new_on_cpu(region, 8);
    assert_eq!(r.err(), Some(Error::Policy));
}

#[test]
fn gpu_table_refuses_host_memory() {
    let mut alloc = Allocator::new();
    let region = alloc.allocate(MemType::Pinned, 16).unwrap();
    let r = HashTable::new_on_gpu(region, 8);
    assert_eq!(r.err(), Some(Error::Policy));

    let unified = alloc.allocate(MemType::Unified, 16).unwrap();
    assert!(HashTable::new_on_gpu(unified, 8).is_ok());

    let device = alloc.allocate(MemType::Device, 16).unwrap();
    assert!(HashTable::new_on_gpu(device, 8).is_ok());
}

#[test]
fn perfect_insert_then_probe_hits() {
    let mut table = HashTable::new_on_cpu(table_region(16), 16).unwrap();
    table.insert(HashingScheme::Perfect, 3, 300).unwrap();
    table.insert(HashingScheme::Perfect, 0, 100).unwrap();
    assert_eq!(table.probe(HashingScheme::Perfect, 3), Some(300));
    assert_eq!(table.probe(HashingScheme::Perfect, 0), Some(100));
    assert_eq!(table.probe(HashingScheme::Perfect, 4), None);
    assert_eq!(table.occupied_slots(), 2);
}

#[test]
fn linear_probing_insert_then_probe_hits() {
    let mut table = HashTable::new_on_cpu(table_region(8), 8).unwrap();
    table.insert(HashingScheme::LinearProbing, 21, 1).unwrap();
    table.insert(HashingScheme::LinearProbing, 5, 2).unwrap();
    // 21 % 8 == 5 % 8 == 5: the second insert collides and scans forward.
    assert_eq!(table.probe(HashingScheme::LinearProbing, 21), Some(1));
    assert_eq!(table.probe(HashingScheme::LinearProbing, 5), Some(2));
    assert_eq!(table.probe(HashingScheme::LinearProbing, 13), None);
    assert_eq!(table.occupied_slots(), 2);
}

#[test]
fn linear_probing_wraps_around() {
    let mut table = HashTable::new_on_cpu(table_region(4), 4).unwrap();
    // All keys map to the last slot; later inserts wrap to slot 0.
    table.insert(HashingScheme::LinearProbing, 3, 30).unwrap();
    table.insert(HashingScheme::LinearProbing, 7, 70).unwrap();
    table.insert(HashingScheme::LinearProbing, 11, 110).unwrap();
    assert_eq!(table.probe(HashingScheme::LinearProbing, 3), Some(30));
    assert_eq!(table.probe(HashingScheme::LinearProbing, 7), Some(70));
    assert_eq!(table.probe(HashingScheme::LinearProbing, 11), Some(110));
    assert_eq!(table.occupied_slots(), 3);
}

#[test]
fn linear_probing_duplicates_claim_separate_slots() {
    let mut table = HashTable::new_on_cpu(table_region(8), 8).unwrap();
    table.insert(HashingScheme::LinearProbing, 2, 20).unwrap();
    table.insert(HashingScheme::LinearProbing, 2, 21).unwrap();
    assert_eq!(table.occupied_slots(), 2);
    // The probe terminates at the first matching slot.
    assert_eq!(table.probe(HashingScheme::LinearProbing, 2), Some(20));
}

#[test]
fn linear_probing_full_table_is_runtime_error() {
    let mut table = HashTable::new_on_cpu(table_region(4), 4).unwrap();
    for k in 0..4u64 {
        table.insert(HashingScheme::LinearProbing, k, k).unwrap();
    }
    assert_eq!(table.occupied_slots(), 4);
    let r = table.insert(HashingScheme::LinearProbing, 9, 9);
    assert_eq!(r.err(), Some(Error::Runtime));
    // The failed insert leaves the table unchanged.
    assert_eq!(table.occupied_slots(), 4);
    for k in 0..4u64 {
        assert_eq!(table.probe(HashingScheme::LinearProbing, k), Some(k));
    }
}

#[test]
fn probe_miss_on_sentinel_before_match() {
    let mut table = HashTable::new_on_cpu(table_region(8), 8).unwrap();
    table.insert(HashingScheme::LinearProbing, 1, 10).unwrap();
    // Key 9 shares slot 1 with key 1; the scan passes it and stops at the
    // empty slot 2: a definitive miss.
    assert_eq!(table.probe(HashingScheme::LinearProbing, 9), None);
}

#[test]
fn sentinel_is_reserved() {
    assert_eq!(NULL_KEY, u64::MAX);
}
