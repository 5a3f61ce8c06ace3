use scc_lcd_daemon::serial::{
    find_port, raised, raw_mode, read_available, ControlBits, LineSettings, Outgoing, Progress,
};

#[test]
fn port_is_the_setting_or_the_first_candidate() {
    let all = |_: &str| true;
    let none = |_: &str| false;
    assert_eq!(find_port(Some("/dev/pts/4"), all).as_deref(), Some("/dev/pts/4"));
    assert_eq!(find_port(Some("/dev/pts/4"), |p: &str| p != "/dev/pts/4"), None);
    assert_eq!(find_port(None, all).as_deref(), Some("/dev/sccs-lcd"));
    assert_eq!(find_port(None, |p: &str| p == "/dev/ttyACM0").as_deref(), Some("/dev/ttyACM0"));
    assert_eq!(find_port(None, none), None);
}

#[test]
fn line_becomes_raw() {
    let bits = ControlBits {
        parity: 0o400,
        two_stop_bits: 0o100,
        size: 0o60,
        eight: 0o60,
        receive: 0o200,
        ignore_modem: 0o4000,
    };
    let line = LineSettings {
        input: 0o2402,
        output: 5,
        control: 0o400 | 0o100 | 0o40 | 0o2000 | 0o17,
        local: 0o105073,
        min_bytes: 1,
        wait_time: 3,
    };
    let raw = raw_mode(line, &bits);
    assert_eq!(
        raw,
        LineSettings {
            input: 0,
            output: 0,
            control: 0o60 | 0o200 | 0o4000 | 0o2000 | 0o17,
            local: 0,
            min_bytes: 0,
            wait_time: 0,
        }
    );
    assert_eq!(raw_mode(raw, &bits), raw);
}

#[test]
fn modem_lines_are_raised() {
    assert_eq!(raised(0x120, 0x002, 0x004), 0x126);
    assert_eq!(raised(0x006, 0x002, 0x004), 0x006);
}

#[test]
fn writes_go_on_until_all_is_taken() {
    let mut out = Outgoing::new(vec![1, 2, 3, 4, 5]);
    assert!(out.is_pending());
    assert_eq!(out.took(2), Progress::More);
    assert_eq!(out.bytes[out.written..], [3, 4, 5]);
    assert_eq!(out.took(0), Progress::More);
    assert_eq!(out.took(-1), Progress::Failed);
    assert_eq!(out.bytes[out.written..], [3, 4, 5]);
    assert_eq!(out.took(3), Progress::Done);
    assert!(!out.is_pending());
    assert!(!Outgoing::new(vec![]).is_pending());
}

#[test]
fn reads_give_what_was_read() {
    let buffer = vec![9, 8, 7];
    assert_eq!(read_available(&buffer, 2), vec![9, 8]);
    assert_eq!(read_available(&buffer, 3), vec![9, 8, 7]);
    assert!(read_available(&buffer, 0).is_empty());
    assert!(read_available(&buffer, -1).is_empty());
}
