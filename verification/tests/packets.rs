use scc_lcd_daemon::backend::GpuBackend;
use scc_lcd_daemon::date::{date_payload, now_local, DateParts, LocalTime};
use scc_lcd_daemon::disk::FsSize;
use scc_lcd_daemon::gpu::GpuBusy;
use scc_lcd_daemon::host::HostInfo;
use scc_lcd_daemon::packets::{
    build_packets, cpu_payload, disk_payload, memory_payload, EcReadings, Readings, State,
};
use scc_lcd_daemon::procfs::{CpuTimes, MemInfo};

fn host() -> HostInfo {
    HostInfo {
        cpu_name: "Chip".to_string(),
        gpu_name: "Arc".to_string(),
        disk_label: "Disk".to_string(),
        disk_blockdev: "nvme0n1".to_string(),
    }
}

fn time() -> LocalTime {
    LocalTime { year: 126, month: 6, day: 21, hour: 9, minute: 5, second: 0, weekday: 2 }
}

fn readings() -> Readings<'static> {
    Readings {
        cpu_temp: Some("61000\n"),
        stat: "cpu  300 0 100 700 100 0 0 0 9 9\n",
        cpu_freq: Some("4800000\n"),
        ec: Some(EcReadings { cpu_temp: 63, gpu_temp: 52, fan_hi: 0x08, fan_lo: 0xF5 }),
        gpu_counters: vec![1000, 700],
        gpu_elapsed_ns: 1000,
        nvidia: None,
        amd_busy: None,
        amd_temp: None,
        meminfo: "MemTotal:       131401364 kB\nMemAvailable:    27874492 kB\n",
        disk: Some(FsSize { block_size: 4096, blocks: 250_000_000, free_blocks: 100_000_000 }),
        disk_temp: Some("44850\n"),
        time: time(),
        net: (2048, 5_000_000),
        net_secs: 2,
        net_nanos: 0,
        volume: 40,
    }
}

fn state() -> State {
    State::new(
        CpuTimes { idle: 600, total: 1000 },
        (1024, 1_000_000),
        GpuBackend::Integrated(GpuBusy::open(vec![500, 600])),
    )
}

fn texts(packets: Vec<(u8, String)>) -> Vec<String> {
    packets.into_iter().map(|(cmd, payload)| format!("{cmd:02x} {payload}")).collect()
}

#[test]
fn cycle_builds_seven_packets() {
    let mut s = state();
    assert!(readings().check(&s));
    assert_eq!(
        texts(build_packets(&host(), readings(), &mut s)),
        vec![
            "32 {CPU:Chip;Tempr:61;Useage:0;Freq:4800000;Tempr1:63;}",
            "33 {GPU:Arc;Tempr:52;Useage:50}",
            "34 {Memory:Generic Memory;Used:98.7;Available:26.6;Total:125.3;Useage:79}",
            "35 {DiskName:Disk;Tempr:44;UsageSpace:572;AllSpace:953;Usage:60}",
            "36 Date:26/07/21;Time:09:05:00;Week:2",
            "37 {SPEED:2293;NETWORK:1.9M/s,0.5K/s}",
            "39 {VOLUME:40}",
        ]
    );
    assert_eq!(s.prev_cpu, CpuTimes { idle: 800, total: 1200 });
    assert_eq!(s.prev_net, (2048, 5_000_000));
    assert_eq!(s.last_fan_rpm, 2293);
    assert!(matches!(&s.gpu, GpuBackend::Integrated(Some(g)) if g.prev == vec![1000, 700]));
}

#[test]
fn torn_readings_do_not_show() {
    let mut s = state();
    build_packets(&host(), readings(), &mut s);
    let mut r = readings();
    r.ec = Some(EcReadings { cpu_temp: 243, gpu_temp: 101, fan_hi: 0xFF, fan_lo: 0 });
    let t = texts(build_packets(&host(), r, &mut s));
    assert_eq!(t[0], "32 {CPU:Chip;Tempr:61;Useage:0;Freq:4800000;Tempr1:61;}");
    assert_eq!(t[1], "33 {GPU:Arc;Tempr:61;Useage:0}");
    assert_eq!(t[5], "37 {SPEED:2293;NETWORK:0.0K/s,0.0K/s}");
    assert_eq!(s.last_fan_rpm, 2293);
}

#[test]
fn values_degrade_without_root_or_files() {
    let mut s = State::new(
        CpuTimes { idle: 0, total: 0 },
        (0, 0),
        GpuBackend::Integrated(None),
    );
    let r = Readings {
        cpu_temp: None,
        stat: "",
        cpu_freq: None,
        ec: None,
        gpu_counters: vec![],
        gpu_elapsed_ns: 0,
        nvidia: None,
        amd_busy: None,
        amd_temp: None,
        meminfo: "",
        disk: None,
        disk_temp: None,
        time: time(),
        net: (0, 0),
        net_secs: 0,
        net_nanos: 0,
        volume: 0,
    };
    assert!(r.check(&s));
    assert_eq!(
        texts(build_packets(&host(), r, &mut s)),
        vec![
            "32 {CPU:Chip;Tempr:0;Useage:0;Freq:0;Tempr1:0;}",
            "33 {GPU:Arc;Tempr:0;Useage:0}",
            "34 {Memory:Generic Memory;Used:0.0;Available:0.0;Total:0.0;Useage:0}",
            "35 {DiskName:Disk;Tempr:0;UsageSpace:0;AllSpace:0;Usage:0}",
            "36 Date:26/07/21;Time:09:05:00;Week:2",
            "37 {SPEED:0;NETWORK:0.0K/s,0.0K/s}",
            "39 {VOLUME:0}",
        ]
    );
}

#[test]
fn processor_load_is_that_since_the_last_cycle() {
    let mut s = state();
    s.prev_cpu = CpuTimes { idle: 700, total: 1000 };
    let t = texts(build_packets(&host(), readings(), &mut s));
    assert_eq!(t[0], "32 {CPU:Chip;Tempr:61;Useage:50;Freq:4800000;Tempr1:63;}");
    let t = texts(build_packets(&host(), readings(), &mut s));
    assert_eq!(t[0], "32 {CPU:Chip;Tempr:61;Useage:0;Freq:4800000;Tempr1:63;}");
}

#[test]
fn readings_beyond_the_numbers_are_told() {
    let check = |change: fn(&mut Readings<'static>)| {
        let mut r = readings();
        change(&mut r);
        r.check(&state())
    };
    assert!(check(|_| {}));
    assert!(!check(|r| r.stat = "cpu 18446744073709551615 1 0 0\n"));
    assert!(check(|r| r.stat = "cpu 18446744073709551615 1 0\n"));
    assert!(!check(|r| r.meminfo = "MemTotal: 1 kB\nMemAvailable: 2 kB\n"));
    assert!(check(|r| r.meminfo = "MemAvailable: 2 kB\n"));
    assert!(!check(|r| r.disk = Some(FsSize { block_size: 2, blocks: 1 << 63, free_blocks: 0 })));
    assert!(!check(|r| r.disk = Some(FsSize { block_size: 2, blocks: 0, free_blocks: 1 << 63 })));
    assert!(!check(|r| r.disk = Some(FsSize { block_size: 1, blocks: 1 << 62, free_blocks: 0 })));
    assert!(check(|r| r.disk = Some(FsSize { block_size: 1, blocks: 1 << 62, free_blocks: 1 << 62 })));
    assert!(!check(|r| r.gpu_counters = vec![u64::MAX]));
    assert!(!check(|r| r.time.year = i32::MAX));
    assert!(!check(|r| r.time.month = i32::MAX));
}

#[test]
fn memory_without_a_total_is_shown_as_negative() {
    let text = memory_payload(&MemInfo { total_kb: 0, available_kb: 1_048_576 });
    assert_eq!(text, "{Memory:Generic Memory;Used:-1.0;Available:1.0;Total:0.0;Useage:0}");
}

#[test]
fn disk_figures_are_rounded_down() {
    let gb = 1024 * 1024 * 1024;
    assert_eq!(
        disk_payload("D", -3, 2 * gb - 1, 4 * gb - 1),
        "{DiskName:D;Tempr:-3;UsageSpace:1;AllSpace:3;Usage:49}"
    );
    assert_eq!(
        disk_payload("D", 0, 999, 1000),
        "{DiskName:D;Tempr:0;UsageSpace:0;AllSpace:0;Usage:99}"
    );
}

#[test]
fn extreme_numbers_are_written_out() {
    assert_eq!(
        cpu_payload("", i64::MIN, i64::MAX, -1, 0),
        "{CPU:;Tempr:-9223372036854775808;Useage:9223372036854775807;Freq:-1;Tempr1:0;}"
    );
}

#[test]
fn calendar_counts_from_one() {
    assert_eq!(
        now_local(time()),
        DateParts { year: 2026, month: 7, day: 21, hour: 9, minute: 5, second: 0, win_dow: 2 }
    );
}

#[test]
fn date_is_padded_and_short() {
    let d = |year: i32, month: i32| {
        date_payload(&DateParts { year, month, day: 31, hour: 23, minute: 59, second: 60, win_dow: 6 })
    };
    assert_eq!(d(2105, 12), "Date:05/12/31;Time:23:59:60;Week:6");
    assert_eq!(d(2000, 1), "Date:00/01/31;Time:23:59:60;Week:6");
    for year in [-1, -150, -100, 99, 100, i32::MIN, i32::MAX] {
        for month in [-7, -70, 7, 70, 700] {
            assert_eq!(
                d(year, month),
                format!("Date:{:02}/{:02}/31;Time:23:59:60;Week:6", year % 100, month)
            );
        }
    }
}

#[test]
fn discrete_card_gives_its_own_figures() {
    let gpu_text = |gpu: GpuBackend, change: fn(&mut Readings<'static>)| {
        let mut s = state();
        s.gpu = gpu;
        let mut r = readings();
        change(&mut r);
        assert!(r.check(&s));
        texts(build_packets(&host(), r, &mut s)).remove(1)
    };
    assert_eq!(
        gpu_text(GpuBackend::Nvidia, |r| r.nvidia = Some("RTX, 45, 12\n")),
        "33 {GPU:Arc;Tempr:45;Useage:12}"
    );
    assert_eq!(gpu_text(GpuBackend::Nvidia, |_| {}), "33 {GPU:Arc;Tempr:0;Useage:0}");
    assert_eq!(
        gpu_text(GpuBackend::Amd(0), |r| {
            r.amd_busy = Some("88\n");
            r.amd_temp = Some("71000\n");
        }),
        "33 {GPU:Arc;Tempr:71;Useage:88}"
    );
    assert_eq!(gpu_text(GpuBackend::Amd(0), |_| {}), "33 {GPU:Arc;Tempr:0;Useage:0}");
    // counters that would not fit do not matter then
    assert_eq!(
        gpu_text(GpuBackend::Amd(0), |r| r.gpu_counters = vec![u64::MAX]),
        "33 {GPU:Arc;Tempr:0;Useage:0}"
    );
}
