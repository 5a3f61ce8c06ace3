use scc_lcd_daemon::procfs::{cpu_percent, parse_cpu_times, parse_meminfo, parse_net_dev, CpuTimes};

#[test]
fn cpu_total_excludes_guest_fields() {
    // user nice system idle iowait irq softirq steal guest guest_nice
    let stat = "cpu  100 0 100 700 0 0 0 0 500 500\ncpu0 1 2 3 4\n";
    let t = parse_cpu_times(stat);
    assert_eq!(t.total, 900, "guest/guest_nice must not be summed again");
    assert_eq!(t.idle, 700);
}

#[test]
fn cpu_percent_is_busy_over_total() {
    let prev = CpuTimes { idle: 100, total: 200 };
    let cur = CpuTimes { idle: 150, total: 300 };
    assert_eq!(cpu_percent(&prev, &cur), 50);
}

#[test]
fn cpu_percent_handles_no_elapsed_time() {
    let t = CpuTimes { idle: 10, total: 20 };
    let same = CpuTimes { idle: 10, total: 20 };
    assert_eq!(cpu_percent(&t, &same), 0);
}

#[test]
fn meminfo_is_parsed() {
    let m = parse_meminfo("MemTotal:       131401364 kB\nMemFree: 1 kB\nMemAvailable:    27874492 kB\n");
    assert_eq!(m.total_kb, 131_401_364);
    assert_eq!(m.available_kb, 27_874_492);
}

#[test]
fn net_dev_sums_only_physical_interfaces() {
    let contents = "\
Inter-|   Receive                                                |  Transmit
 face |bytes    packets errs drop fifo frame compressed multicast|bytes    packets
    lo:  999999    10    0    0    0     0          0         0    999999      10
  eth0:    1000    10    0    0    0     0          0         0      2000      20
docker0:  555555     1    0    0    0     0          0         0     555555      1
";
    let (rx, tx) = parse_net_dev(contents, |n| n == "eth0");
    assert_eq!((rx, tx), (1000, 2000), "lo and docker0 excluded");
}
