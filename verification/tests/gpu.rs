use scc_lcd_daemon::gpu::{
    busy_events, event_config, event_configs, event_path, perf_event_attr, pmu_type, read_counter, GpuBusy,
};

fn names(all: &[&str]) -> Vec<String> {
    all.iter().map(|s| s.to_string()).collect()
}

#[test]
fn type_is_a_number() {
    assert_eq!(pmu_type(Some("18\n")), Some(18));
    assert_eq!(pmu_type(Some("4294967296\n")), None);
    assert_eq!(pmu_type(Some("\n")), None);
    assert_eq!(pmu_type(None), None);
}

#[test]
fn busy_events_are_picked_and_sorted() {
    let listing = names(&["vcs0-busy", "rcs0-busy", "rcs0-sema", "bcs0-busy", "rcs0-busy.unit", "rcs-busy"]);
    assert_eq!(
        busy_events(&listing),
        names(&["bcs0-busy", "rcs-busy", "rcs0-busy", "vcs0-busy"])
    );
    assert!(busy_events(&vec![]).is_empty());
}

#[test]
fn sorting_is_that_of_the_standard_library() {
    let mut all = Vec::new();
    let mut n = 12345u64;
    for _ in 0..200 {
        n = n.wrapping_mul(6364136223846793005).wrapping_add(1442695040888963407);
        let stem: String =
            (0..(n >> 60)).map(|i| ['a', 'b', 'Z', '0', 'é', '-', '😀'][(n >> (8 + 3 * i)) as usize % 7]).collect();
        all.push(format!("{stem}-busy"));
    }
    let mut sorted = all.clone();
    sorted.sort();
    assert_eq!(busy_events(&all), sorted);
}

#[test]
fn event_descriptions_are_read() {
    assert_eq!(event_path("rcs0-busy"), "/sys/devices/i915/events/rcs0-busy");
    assert_eq!(event_config(Some("config=0x1000\n")), Some(0x1000));
    assert_eq!(event_config(Some("config=0xFFFFffffFFFFffff")), Some(u64::MAX));
    assert_eq!(event_config(Some("config=0x10000000000000000")), None);
    assert_eq!(event_config(Some("config=0x")), None);
    assert_eq!(event_config(Some("config=1000")), None);
    assert_eq!(event_config(None), None);
}

#[test]
fn counter_description_is_laid_out() {
    let attr = perf_event_attr(0x0102_0304, 0x1122_3344_5566_7788);
    assert_eq!(attr.len(), 128);
    assert_eq!(attr[..4], 0x0102_0304u32.to_le_bytes());
    assert_eq!(attr[4..8], 128u32.to_le_bytes());
    assert_eq!(attr[8..16], 0x1122_3344_5566_7788u64.to_le_bytes());
    assert!(attr[16..].iter().all(|&b| b == 0));
}

#[test]
fn counters_are_little_endian() {
    assert_eq!(read_counter(&0x1122_3344_5566_7788u64.to_le_bytes().to_vec()), 0x1122_3344_5566_7788);
    assert_eq!(read_counter(&u64::MAX.to_le_bytes().to_vec()), u64::MAX);
    assert_eq!(read_counter(&vec![1, 2, 3]), 0);
    assert_eq!(read_counter(&vec![]), 0);
}

#[test]
fn load_is_that_of_the_busiest_engine() {
    let mut gpu = GpuBusy::open(vec![100, 200, 300]).unwrap();
    // over 1000 ns: 10 %, 25 %, backwards
    assert_eq!(gpu.percent(vec![200, 450, 0], 1000), 25);
    // since then: 0 %, 0 %, 39.9 %
    assert_eq!(gpu.percent(vec![200, 450, 399], 1000), 39);
    assert_eq!(gpu.percent(vec![200, 450, 399], 1000), 0);
    assert!(GpuBusy::open(vec![]).is_none());
}

#[test]
fn load_is_a_hundred_at_most() {
    let mut gpu = GpuBusy::open(vec![0]).unwrap();
    assert_eq!(gpu.percent(vec![5000], 1000), 100);
    assert_eq!(gpu.percent(vec![6000], 1000), 100);
    assert_eq!(gpu.percent(vec![7000], 0), 0);
    // the greatest share there can be, over a single nanosecond
    assert_eq!(gpu.percent(vec![7000 + u64::MAX / 100], 1), 100);
}

#[test]
fn gains_that_do_not_fit_are_told() {
    let gpu = GpuBusy::open(vec![0, 5]).unwrap();
    assert!(gpu.fits(&vec![u64::MAX / 100, 0], 1));
    assert!(!gpu.fits(&vec![0, u64::MAX], 1));
    assert!(gpu.fits(&vec![0, u64::MAX], 0));
    assert!(gpu.fits(&vec![0], 1));
}

#[test]
fn events_without_a_number_are_left_out() {
    let all = vec![
        Some("config=0x2\n".to_string()),
        None,
        Some("config=zwei\n".to_string()),
        Some("config=0x1\n".to_string()),
    ];
    assert_eq!(event_configs(&all), vec![2, 1]);
    assert!(event_configs(&vec![]).is_empty());
}
