use scc_lcd_daemon::procfs::{cpu_percent, CpuTimes};
use scc_lcd_daemon::rates::{
    format_rate, push_used, to_gigabytes, to_used_gigabytes, transfer_rate,
};
use scc_lcd_daemon::{decimal, percent, Binary64};

fn double(x: f64) -> Binary64 {
    Binary64::from_bits(x.to_bits()).unwrap()
}

fn number(x: Binary64) -> f64 {
    x.mant as f64 * 2f64.powi(x.exp)
}

fn one_decimal(x: Binary64) -> String {
    let mut s = String::new();
    decimal::push_one_decimal(&mut s, x);
    s
}

struct Numbers(u64);

impl Numbers {
    fn next(&mut self) -> u64 {
        self.0 ^= self.0 << 13;
        self.0 ^= self.0 >> 7;
        self.0 ^= self.0 << 17;
        self.0
    }

    /// Numbers of every size.
    fn any_size(&mut self) -> u64 {
        let shift = self.next() % 64;
        self.next() >> shift
    }
}

#[test]
fn rate_units_match_the_original_thresholds() {
    assert_eq!(format_rate(double(0.0)), "0.0K/s");
    assert_eq!(format_rate(double(1024.0)), "1.0K/s");
    // switches to M/s at 1_024_000 B/s, not at 1 MiB
    assert_eq!(format_rate(double(1_023_999.0)), "1000.0K/s");
    assert_eq!(format_rate(double(1_024_000.0)), "1.0M/s");
    assert_eq!(format_rate(double(1_048_575_999.0)), "1000.0M/s");
    assert_eq!(format_rate(double(1_048_576_000.0)), "1.0G/s");
}

#[test]
fn rates_are_those_of_the_floating_point_unit() {
    let mut n = Numbers(0x9e37_79b9_7f4a_7c15);
    for _ in 0..2000 {
        let (prev, cur) = (n.any_size(), n.any_size());
        let secs = n.any_size() % 100_000;
        let nanos = (n.next() % 1_000_000_000) as u32;
        let elapsed = std::time::Duration::new(secs, nanos).as_secs_f64();
        let expected = if elapsed > 0.0 {
            cur.saturating_sub(prev) as f64 / elapsed
        } else {
            0.0
        };
        assert_eq!(number(transfer_rate(prev, cur, secs, nanos)), expected);
        let text = if expected < 1_024_000.0 {
            format!("{:.1}K/s", expected / 1024.0)
        } else if expected < 1_048_576_000.0 {
            format!("{:.1}M/s", expected / 1048576.0)
        } else {
            format!("{:.1}G/s", expected / 1073741824.0)
        };
        assert_eq!(format_rate(transfer_rate(prev, cur, secs, nanos)), text);
    }
}

#[test]
fn no_time_gives_no_rate() {
    assert_eq!(format_rate(transfer_rate(0, 5000, 0, 0)), "0.0K/s");
    assert_eq!(format_rate(transfer_rate(0, 5000, 0, 1)), "4656.6G/s");
}

#[test]
fn still_and_reset_counters_have_no_rate() {
    assert_eq!(format_rate(transfer_rate(700, 700, 1, 0)), "0.0K/s");
    assert_eq!(format_rate(transfer_rate(700, 3, 1, 0)), "0.0K/s");
    assert_eq!(format_rate(transfer_rate(700, 1724, 1, 0)), "1.0K/s");
}

#[test]
fn decimals_round_ties_to_even() {
    assert_eq!(one_decimal(double(0.25)), "0.2");
    assert_eq!(one_decimal(double(0.75)), "0.8");
    assert_eq!(one_decimal(double(0.05)), "0.1");
    assert_eq!(one_decimal(double(12.96875)), "13.0");
    assert_eq!(one_decimal(double(1e22)), "10000000000000000000000.0");
}

#[test]
fn decimals_are_those_of_the_formatter() {
    let mut n = Numbers(77);
    for _ in 0..2000 {
        let x = f64::from_bits(n.next() & 0x7fff_ffff_ffff_ffff);
        if x.is_finite() {
            assert_eq!(one_decimal(double(x)), format!("{x:.1}"));
        }
    }
    for _ in 0..2000 {
        let x = n.any_size() as f64 / (n.next() % 4096 + 1) as f64;
        assert_eq!(one_decimal(double(x)), format!("{x:.1}"));
    }
}

#[test]
fn memory_sizes_are_those_of_the_floating_point_unit() {
    let mut n = Numbers(4242);
    for _ in 0..2000 {
        let (a, b) = (n.any_size(), n.any_size());
        let (total, available) = (a.max(b), a.min(b));
        let gb = |kb: u64| kb as f64 / (1024.0 * 1024.0);
        assert_eq!(number(to_gigabytes(total)), gb(total));
        let used = gb(total) - gb(available);
        assert_eq!(number(to_used_gigabytes(total, available)), used);
        let mut s = String::from("Used:");
        push_used(&mut s, total, available);
        assert_eq!(s, format!("Used:{used:.1}"));
    }
}

#[test]
fn memory_without_a_total_is_negative() {
    for available in [0u64, 1, 52_428, 52_429, 1_048_576, 27_874_492] {
        let mut s = String::new();
        push_used(&mut s, 0, available);
        let used = 0.0 - available as f64 / (1024.0 * 1024.0);
        assert_eq!(s, format!("{used:.1}"));
    }
}

#[test]
fn percentages_are_those_of_the_floating_point_unit() {
    let mut n = Numbers(31337);
    for _ in 0..3000 {
        let (a, b) = (n.any_size(), n.any_size());
        let (whole, part) = (a.max(b).max(1), a.min(b));
        let expected = ((part as f64 / whole as f64) * 100.0).round() as i64;
        assert_eq!(percent::percent(part, whole), expected);
        let (prev, cur) =
            (CpuTimes { idle: 0, total: 0 }, CpuTimes { idle: whole - part, total: whole });
        assert_eq!(cpu_percent(&prev, &cur), expected);
    }
    for whole in 1..=400u64 {
        for part in 0..=whole {
            let expected = ((part as f64 / whole as f64) * 100.0).round() as i64;
            assert_eq!(percent::percent(part, whole), expected);
        }
    }
}

#[test]
fn percentages_round_half_away_from_zero() {
    assert_eq!(percent::percent(1, 200), 1);
    assert_eq!(percent::percent(1, 201), 0);
    assert_eq!(percent::percent(0, 9), 0);
    assert_eq!(percent::percent(9, 9), 100);
}

#[test]
fn percentages_are_the_nearest() {
    let mut n = Numbers(5);
    for _ in 0..3000 {
        let whole = n.next() % (1 << 32) + 1;
        let part = n.any_size() % (whole + 1);
        let error = percent::percent(part, whole) as i128 * whole as i128 - 100 * part as i128;
        assert!(2 * error.abs() <= whole as i128);
    }
}

#[test]
fn bits_that_are_no_number_are_refused() {
    assert_eq!(Binary64::from_bits(f64::INFINITY.to_bits()), None);
    assert_eq!(Binary64::from_bits(f64::NAN.to_bits()), None);
    assert_eq!(Binary64::from_bits(1.0f64.to_bits()), Some(Binary64 { mant: 1 << 52, exp: -52 }));
    assert_eq!(Binary64::from_bits(0), Some(Binary64 { mant: 0, exp: 0 }));
}
