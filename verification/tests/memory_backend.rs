use numa_gpu::error::Error;
use numa_gpu::memory::{Allocator, MemType, ELEM_BYTES};

#[test]
fn allocate_zero_fills_and_accounts() {
    let mut alloc = Allocator::new();
    assert_eq!(alloc.bytes_in_use(), 0);
    assert_eq!(alloc.regions_in_use(), 0);
    let region = alloc.allocate(MemType::System, 100).unwrap();
    assert_eq!(region.len(), 100);
    assert_eq!(region.mem_type(), MemType::System);
    for i in 0..100 {
        assert_eq!(region.read(i), 0);
    }
    assert_eq!(alloc.bytes_in_use(), 100 * ELEM_BYTES);
    assert_eq!(alloc.regions_in_use(), 1);
}

#[test]
fn allocate_free_cycles_do_not_leak() {
    let mut alloc = Allocator::new();
    for _ in 0..10 {
        let region = alloc.allocate(MemType::Pinned, 64).unwrap();
        assert_eq!(alloc.bytes_in_use(), 64 * ELEM_BYTES);
        assert_eq!(alloc.regions_in_use(), 1);
        alloc.free(region);
        assert_eq!(alloc.bytes_in_use(), 0);
        assert_eq!(alloc.regions_in_use(), 0);
    }
}

#[test]
fn allocate_overflow_is_allocation_error() {
    let mut alloc = Allocator::new();
    let r = alloc.allocate(MemType::System, usize::MAX);
    assert_eq!(r.err(), Some(Error::Allocation));
    assert_eq!(alloc.bytes_in_use(), 0);
}

#[test]
fn allocate_deref_refuses_device_memory() {
    let mut alloc = Allocator::new();
    let r = alloc.allocate_deref(MemType::Device, 16);
    assert_eq!(r.err(), Some(Error::Policy));
    let ok = alloc.allocate_deref(MemType::Unified, 16);
    assert!(ok.is_ok());
}

#[test]
fn numa_regions_start_unbacked_until_touched() {
    let mut alloc = Allocator::new();
    let mut region = alloc.allocate(MemType::Numa(0), 2048).unwrap();
    assert!(!region.is_backed());
    region.write(5, 77);
    assert!(!region.is_backed());
    region.ensure_physically_backed().unwrap();
    assert!(region.is_backed());
    assert_eq!(region.read(5), 77);
    for i in 0..2048 {
        if i != 5 {
            assert_eq!(region.read(i), 0);
        }
    }
}

#[test]
fn ensure_physically_backed_refuses_device_memory() {
    let mut alloc = Allocator::new();
    let mut region = alloc.allocate(MemType::Device, 16).unwrap();
    assert_eq!(region.ensure_physically_backed().err(), Some(Error::Policy));
}

#[test]
fn page_lock_pins_numa_memory_only() {
    let mut alloc = Allocator::new();
    let mut numa = alloc.allocate(MemType::Numa(1), 8).unwrap();
    assert!(!numa.is_pinned());
    numa.page_lock().unwrap();
    assert!(numa.is_pinned());

    let mut sys = alloc.allocate(MemType::System, 8).unwrap();
    assert_eq!(sys.page_lock().err(), Some(Error::Policy));
    assert!(!sys.is_pinned());

    let pinned = alloc.allocate(MemType::Pinned, 8).unwrap();
    assert!(pinned.is_pinned());
}

#[test]
fn region_writes_are_visible() {
    let mut alloc = Allocator::new();
    let mut region = alloc.allocate(MemType::Unified, 4).unwrap();
    region.write(0, 10);
    region.write(3, 40);
    assert_eq!(region.read(0), 10);
    assert_eq!(region.read(1), 0);
    assert_eq!(region.read(3), 40);
}

#[test]
fn error_descriptions_are_distinct() {
    let kinds = [
        Error::Allocation,
        Error::Policy,
        Error::Data,
        Error::Device,
        Error::Runtime,
    ];
    for (i, a) in kinds.iter().enumerate() {
        assert!(!a.describe().is_empty());
        for (j, b) in kinds.iter().enumerate() {
            if i != j {
                assert_ne!(a.describe(), b.describe());
            }
        }
    }
}
