use numa_gpu::memory_latency::{
    cycles_to_ns, is_power_of_two, write_strides, CpuMemoryLatency, DataPoint, Measurement,
    MeasurementParameters, MemoryLatency,
};
use numa_gpu::partition::{fanout, Tuple};

fn template() -> DataPoint {
    DataPoint {
        hostname: String::from("host"),
        device_type: String::from("CPU"),
        device_codename: String::from("generic"),
        memory_node: Some(0),
        warm_up: false,
        range_bytes: 0,
        stride_bytes: 0,
        iterations: 0,
        cycles: 0,
        ns: 0,
    }
}

#[test]
fn power_of_two_test_matches_definition() {
    assert!(is_power_of_two(1));
    assert!(is_power_of_two(2));
    assert!(is_power_of_two(1024));
    assert!(!is_power_of_two(0));
    assert!(!is_power_of_two(3));
    assert!(!is_power_of_two(1000));
}

#[test]
fn points_sweep_power_of_two_grid_in_order() {
    let mnt = Measurement::new((8, 32), (4, 8), template());
    let points = mnt.points();
    let got: Vec<(usize, usize, u32)> =
        points.iter().map(|p| (p.stride, p.range, p.iterations)).collect();
    // Strides 4 and 8; ranges 8, 16, 32; iterations = range / stride.
    assert_eq!(
        got,
        vec![
            (4, 8, 2),
            (4, 16, 4),
            (4, 32, 8),
            (8, 8, 1),
            (8, 16, 2),
            (8, 32, 4),
        ]
    );
}

#[test]
fn points_skip_non_power_of_two_bounds() {
    let mnt = Measurement::new((9, 15), (3, 5), template());
    let points = mnt.points();
    assert_eq!(points.len(), 0);
}

#[test]
fn measure_folds_outcomes_into_data_points() {
    let mnt = Measurement::new((8, 16), (8, 8), template());
    // Plan: (stride 8, range 8), (stride 8, range 16); repeat = 1 means two
    // runs per cell, the first a warm-up.
    let runs: Vec<(u64, u64)> = vec![(10, 100), (11, 110), (20, 200), (21, 210)];
    let points = mnt.measure(&runs, 1).unwrap();
    assert_eq!(points.len(), 4);

    assert!(points[0].warm_up);
    assert!(!points[1].warm_up);
    assert!(points[2].warm_up);
    assert!(!points[3].warm_up);

    assert_eq!(points[0].stride_bytes, 8);
    assert_eq!(points[0].range_bytes, 8);
    assert_eq!(points[0].iterations, 1);
    assert_eq!(points[0].cycles, 10);
    assert_eq!(points[0].ns, 100);

    assert_eq!(points[3].stride_bytes, 8);
    assert_eq!(points[3].range_bytes, 16);
    assert_eq!(points[3].iterations, 2);
    assert_eq!(points[3].cycles, 21);
    assert_eq!(points[3].ns, 210);

    assert_eq!(points[2].hostname, "host");
    assert_eq!(points[2].device_type, "CPU");
    assert_eq!(points[2].device_codename, "generic");
    assert_eq!(points[2].memory_node, Some(0));
}

#[test]
fn measure_rejects_mismatched_outcome_count() {
    let mnt = Measurement::new((8, 16), (8, 8), template());
    let runs: Vec<(u64, u64)> = vec![(10, 100), (11, 110), (20, 200)];
    assert!(mnt.measure(&runs, 1).is_none());
}

#[test]
fn write_strides_builds_the_chase_pattern() {
    let mut data: Vec<u32> = vec![0; 8];
    let n = write_strides(&mut data, 8);
    assert_eq!(n, 8);
    // Element i holds (8/4 + i) mod 8: the chase advances two elements per
    // step with wraparound.
    assert_eq!(data, vec![2, 3, 4, 5, 6, 7, 0, 1]);
}

#[test]
fn prepare_writes_the_cell_stride_pattern() {
    let mut state = CpuMemoryLatency::new(0);
    let mut data: Vec<u32> = vec![9; 4];
    let mp = MeasurementParameters { range: 16, stride: 4, iterations: 4 };
    CpuMemoryLatency::prepare(&mut state, &mut data, &mp);
    assert_eq!(data, vec![1, 2, 3, 0]);
}

#[test]
fn cycles_convert_to_nanoseconds_at_clock_rate() {
    // 1500 cycles at 1000 MHz is 1500 ns; at 1500 MHz it is 1000 ns.
    assert_eq!(cycles_to_ns(1500, 1000), 1500);
    assert_eq!(cycles_to_ns(1500, 1500), 1000);
    assert_eq!(cycles_to_ns(0, 1200), 0);
}

#[test]
fn buffer_len_counts_elements_of_the_byte_range() {
    assert_eq!(MemoryLatency::buffer_len(1023), 256);
    assert_eq!(MemoryLatency::buffer_len(1024), 256);
    assert_eq!(MemoryLatency::buffer_len(3), 1);
}

#[test]
fn fanout_is_a_power_of_two() {
    assert_eq!(fanout(0), 1);
    assert_eq!(fanout(3), 8);
    assert_eq!(fanout(10), 1024);
}

#[test]
fn tuples_compare_by_fields() {
    let a = Tuple { key: 1u64, value: 2u64 };
    let b = Tuple { key: 1u64, value: 2u64 };
    let c = Tuple { key: 1u64, value: 3u64 };
    assert_eq!(a, b);
    assert_ne!(a, c);
}
