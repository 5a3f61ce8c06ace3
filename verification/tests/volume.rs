use scc_lcd_daemon::volume::{
    session_uid, set_system_volume, system_volume_percent, volume_percent, volume_query,
    RuntimeDir,
};

fn bits(word: &str) -> Option<u64> {
    word.parse::<f64>().ok().map(f64::to_bits)
}

fn dir(name: Option<&str>, has_pipewire: bool) -> RuntimeDir {
    RuntimeDir { name: name.map(str::to_string), has_pipewire }
}

#[test]
fn session_is_the_first_user_with_a_socket() {
    let dirs = vec![dir(Some("1000"), false), dir(Some("1001"), true), dir(Some("1002"), true)];
    assert_eq!(session_uid(&dirs), Some(1001));
    let odd = vec![dir(None, true), dir(Some("systemd"), true), dir(Some("4294967296"), true)];
    assert_eq!(session_uid(&odd), None);
    assert_eq!(session_uid(&vec![]), None);
}

#[test]
fn volume_is_set_as_the_session_user() {
    let call = set_system_volume(Some(1000), 42).unwrap();
    assert_eq!(call.uid, 1000);
    assert_eq!(call.runtime_dir, "/run/user/1000");
    assert_eq!(call.args, vec!["set-volume", "@DEFAULT_AUDIO_SINK@", "42%"]);
    assert!(set_system_volume(None, 42).is_none());
}

#[test]
fn volume_is_capped_at_a_hundred() {
    let arg = |p: u8| set_system_volume(Some(0), p).unwrap().args[2].clone();
    assert_eq!(arg(0), "0%");
    assert_eq!(arg(100), "100%");
    assert_eq!(arg(101), "100%");
    assert_eq!(arg(255), "100%");
}

#[test]
fn volume_is_queried_as_the_session_user() {
    let call = volume_query(Some(1000)).unwrap();
    assert_eq!(call.uid, 1000);
    assert_eq!(call.runtime_dir, "/run/user/1000");
    assert_eq!(call.args, vec!["get-volume", "@DEFAULT_AUDIO_SINK@"]);
    assert!(volume_query(None).is_none());
}

#[test]
fn reported_volume_is_a_percentage() {
    assert_eq!(system_volume_percent(Some("Volume: 0.40\n"), bits), 40);
    assert_eq!(system_volume_percent(Some("Volume: 1.00\n"), bits), 100);
    assert_eq!(system_volume_percent(Some("Volume: 0.005\n"), bits), 1);
    assert_eq!(system_volume_percent(Some("Volume: 1.53"), bits), 153);
}

#[test]
fn muted_or_unreadable_volume_is_zero() {
    assert_eq!(system_volume_percent(Some("Volume: 0.40 [MUTED]\n"), bits), 0);
    assert_eq!(system_volume_percent(Some("Volume: loud\n"), bits), 0);
    assert_eq!(system_volume_percent(Some("Volume:\n"), bits), 0);
    assert_eq!(system_volume_percent(Some(""), bits), 0);
    assert_eq!(system_volume_percent(None, bits), 0);
}

#[test]
fn volumes_are_those_of_the_floating_point_unit() {
    let check = |v: f64| assert_eq!(volume_percent(v.to_bits()), (v * 100.0).round() as i64, "{v}");
    for hundredths in 0..=200 {
        check(hundredths as f64 / 100.0);
        check(-(hundredths as f64) / 100.0);
        check(hundredths as f64 / 1000.0 + 0.0005);
    }
    for v in [
        0.0, -0.0, f64::MAX, f64::MIN, f64::MIN_POSITIVE, 5e-324, f64::INFINITY,
        f64::NEG_INFINITY, f64::NAN, 9.3e16, -9.3e16, 9.2233720368547758e16,
        -9.2233720368547758e16, 1e18, -1e18, 0.005, 0.015, 0.125, 2.675,
    ] {
        check(v);
    }
    let mut n = 0x1234_5678_9abc_def1u64;
    for _ in 0..3000 {
        n ^= n << 13;
        n ^= n >> 7;
        n ^= n << 17;
        check(f64::from_bits(n));
    }
}
