use scc_lcd_daemon::frames::{frame, parse_device_frames, CMD_CPU};
use scc_lcd_daemon::numbers::{parse_hex, parse_i64, parse_u32, parse_u64, push_hex, push_i64, push_two, push_u64};
use scc_lcd_daemon::procfs::{checked_cpu_times, checked_net_dev, parse_cpu_times, parse_meminfo};
use scc_lcd_daemon::text::{lines, parts, split_once, trim, words};

#[test]
fn texts_are_split_as_the_standard_library_does() {
    for s in [
        "", "\n", "a", "a\n", "a\r\nb", "a\r", "\r\n\r\n", "a\n\nb\n", " a  b\tc \u{2003}d ",
        "x:y:z", ":", "::", "\u{a0}é😀\u{85}", "a\rb\nc\r\r\n",
    ] {
        assert_eq!(lines(s), s.lines().collect::<Vec<_>>(), "{s:?}");
        assert_eq!(words(s), s.split_whitespace().collect::<Vec<_>>(), "{s:?}");
        assert_eq!(parts(s, ':'), s.split(':').collect::<Vec<_>>(), "{s:?}");
        assert_eq!(split_once(s, ':'), s.split_once(':'), "{s:?}");
        assert_eq!(trim(s), s.trim(), "{s:?}");
    }
}

#[test]
fn white_space_is_that_of_the_standard_library() {
    for n in 0..0x11_0000u32 {
        if let Some(c) = char::from_u32(n) {
            assert_eq!(scc_lcd_daemon::text::is_white_space(c), c.is_whitespace(), "{n:x}");
        }
    }
}

#[test]
fn numbers_are_read_as_the_standard_library_does() {
    for s in [
        "", "0", "+0", "-0", "+", "-", "007", "1 ", "1_0", "18446744073709551615",
        "18446744073709551616", "-9223372036854775808", "-9223372036854775809",
        "9223372036854775807", "9223372036854775808", "4294967295", "4294967296", "+-1", "--1",
        "٣", "ff", "FFFFFFFFFFFFFFFF", "10000000000000000", "0x1", "+aB", "-a",
        "00000000000000000000000000000000000001",
    ] {
        assert_eq!(parse_u64(s), s.parse::<u64>().ok(), "{s:?}");
        assert_eq!(parse_u32(s), s.parse::<u32>().ok(), "{s:?}");
        assert_eq!(parse_i64(s), s.parse::<i64>().ok(), "{s:?}");
        assert_eq!(parse_hex(s), u64::from_str_radix(s, 16).ok(), "{s:?}");
    }
}

#[test]
fn numbers_are_written_as_the_formatter_does() {
    for n in [0i64, 5, 9, 10, 99, 100, -1, -9, -10, i64::MAX, i64::MIN] {
        let (mut a, mut b, mut c) = (String::new(), String::new(), String::new());
        push_i64(&mut a, n);
        push_two(&mut b, n);
        push_u64(&mut c, n as u64);
        assert_eq!(a, format!("{n}"));
        assert_eq!(b, format!("{n:02}"));
        assert_eq!(c, format!("{}", n as u64));
    }
    for b in 0..=255u8 {
        let mut s = String::new();
        push_hex(&mut s, b);
        assert_eq!(s, format!("{b:02x}"));
    }
}

#[test]
fn ticks_need_four_fields() {
    let t = parse_cpu_times("cpu 1 2 3\n");
    assert_eq!((t.idle, t.total), (0, 0));
    let t = parse_cpu_times("cpu 1 2 3 4\n");
    assert_eq!((t.idle, t.total), (4, 10));
    let t = parse_cpu_times("cpu 1 2 x 3 4 5\n");
    assert_eq!((t.idle, t.total), (9, 15));
    let t = parse_cpu_times("");
    assert_eq!((t.idle, t.total), (0, 0));
}

#[test]
fn ticks_that_do_not_fit_are_told() {
    assert!(checked_cpu_times("cpu 18446744073709551615 0 0 1").is_none());
    assert!(checked_cpu_times("cpu 18446744073709551615 0 0 0").is_some());
    assert!(checked_cpu_times("cpu 18446744073709551614 0 0 0 0 0 0 0 9").is_some());
}

#[test]
fn last_memory_line_counts() {
    let m = parse_meminfo("MemTotal: 5 kB kB \nMemTotal: 7\nMemTotals: 9 kB\nMemAvailable: x kB\n");
    assert_eq!((m.total_kb, m.available_kb), (7, 0));
    let with = parse_meminfo("MemTotal: 5 kB\nMemFree: 1 kB\n\nMemAvailable: 2 kB\nSwapTotal: 9 kB\n");
    let without = parse_meminfo("MemTotal: 5 kB\nMemAvailable: 2 kB\n");
    assert_eq!(with, without);
    let m = parse_meminfo("MemTotal:5 kB kB\n");
    assert_eq!(m.total_kb, 5);
}

#[test]
fn counters_that_do_not_fit_are_told() {
    let line = |name: &str, rx: u64, tx: u64| format!("{name}: {rx} 0 0 0 0 0 0 0 {tx} 0\n");
    let text = format!("a\nb\n{}{}", line("eth0", u64::MAX, 1), line("eth1", 1, 2));
    assert_eq!(checked_net_dev(&text, |_: &str| true), None);
    assert_eq!(checked_net_dev(&text, |n: &str| n == "eth1"), Some((1, 2)));
    assert_eq!(checked_net_dev(&text, |_: &str| false), Some((0, 0)));
    assert_eq!(checked_net_dev("a\nb\neth0: 1 2 3\nno colon\n", |_: &str| true), Some((0, 0)));
    assert_eq!(checked_net_dev("eth0: 1 0 0 0 0 0 0 0 2\n", |_: &str| true), Some((0, 0)));
}

#[test]
fn frame_carries_text_of_any_script() {
    let f = frame(CMD_CPU, "é😀");
    assert_eq!(f[4..f.len() - 4], *"é😀".as_bytes());
    assert_eq!((f[1], f[2]), (11, 0));
}

#[test]
fn frame_length_keeps_its_lowest_two_bytes() {
    let f = frame(CMD_CPU, &"x".repeat(65_535));
    assert_eq!(f.len(), 65_543);
    assert_eq!((f[1], f[2]), (4, 0));
}

#[test]
fn longest_and_shortest_device_frames() {
    // no body at all
    let mut buf = vec![0xAA, 4, 0xCC, 0x33, 0xC3, 0x3C];
    assert!(parse_device_frames(&mut buf).is_empty());
    assert!(buf.is_empty());
    let mut buf = vec![0xAA, 62];
    buf.extend(vec![7u8; 58]);
    buf.extend([0xCC, 0x33, 0xC3, 0x3C]);
    assert_eq!(parse_device_frames(&mut buf), vec![(7, vec![7; 57])]);
    let mut buf = vec![0xAA, 63, 1, 2, 3];
    assert!(parse_device_frames(&mut buf).is_empty());
    assert!(buf.is_empty());
}
