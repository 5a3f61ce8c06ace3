use scc_lcd_daemon::daemon::{Action, Daemon, Event};
use scc_lcd_daemon::dump::{
    ec_line, gpu_line, head_lines, host_lines, packet_line, packet_lines, DUMP_PAUSE_MS,
};
use scc_lcd_daemon::host::HostInfo;
use scc_lcd_daemon::panel::{pump, Applied, Request};

fn volume_touch(level: u8) -> Vec<u8> {
    vec![0xAA, 0x06, 0x61, level, 0xCC, 0x33, 0xC3, 0x3C]
}

fn mode_touch(mode: u8) -> Vec<u8> {
    vec![0xAA, 0x06, 0x62, mode, 0xCC, 0x33, 0xC3, 0x3C]
}

/// A daemon with an open port, about to begin a cycle.
fn connected() -> Daemon {
    let mut d = Daemon::new();
    assert_eq!(d.action(), Action::FindPort);
    assert!(d.advance(Event::Located(true)).is_empty());
    assert_eq!(d.action(), Action::OpenPort);
    assert!(d.advance(Event::Opened(true)).is_empty());
    assert_eq!(d.action(), Action::Collect);
    d
}

#[test]
fn cycle_sends_every_packet_and_waits() {
    let mut d = connected();
    d.advance(Event::Collected(7));
    for i in 0..7 {
        assert_eq!(d.action(), Action::Send(i));
        d.advance(Event::Sent(true));
        assert_eq!(d.action(), Action::Receive);
        d.advance(Event::Received(vec![]));
        assert_eq!(d.action(), Action::Sleep(20));
        d.advance(Event::Slept);
    }
    assert_eq!(d.action(), Action::Clock);
    d.advance(Event::Elapsed(0));
    assert_eq!(d.action(), Action::Receive);
    d.advance(Event::Received(vec![]));
    assert_eq!(d.action(), Action::Sleep(25));
    d.advance(Event::Slept);
    assert_eq!(d.action(), Action::Clock);
    d.advance(Event::Elapsed(1));
    assert_eq!(d.action(), Action::Collect);
}

#[test]
fn failed_write_closes_and_retries() {
    let mut d = connected();
    d.advance(Event::Collected(7));
    d.advance(Event::Sent(false));
    assert_eq!(d.action(), Action::Close);
    d.advance(Event::Closed);
    assert_eq!(d.action(), Action::Sleep(2000));
    d.advance(Event::Slept);
    assert_eq!(d.action(), Action::FindPort);
}

#[test]
fn missing_port_is_looked_for_again() {
    let mut d = Daemon::new();
    d.advance(Event::Located(false));
    assert_eq!(d.action(), Action::Sleep(2000));
    d.advance(Event::Slept);
    assert_eq!(d.action(), Action::FindPort);
    d.advance(Event::Located(true));
    d.advance(Event::Opened(false));
    assert_eq!(d.action(), Action::Sleep(2000));
    d.advance(Event::Slept);
    assert_eq!(d.action(), Action::FindPort);
}

#[test]
fn touches_act_between_packets() {
    let mut d = connected();
    d.advance(Event::Collected(2));
    d.advance(Event::Sent(true));
    let mut bytes = volume_touch(30);
    bytes.extend(volume_touch(30));
    bytes.extend(volume_touch(31));
    bytes.extend(mode_touch(2));
    bytes.extend(&volume_touch(32)[..3]);
    assert_eq!(
        d.advance(Event::Received(bytes)),
        vec![Request::Volume(30), Request::Volume(31), Request::Mode(2)]
    );
    d.advance(Event::Slept);
    d.advance(Event::Sent(true));
    assert_eq!(d.advance(Event::Received(volume_touch(32)[3..].to_vec())), vec![Request::Volume(32)]);
}

#[test]
fn reopened_port_begins_without_input_but_knows_what_was_applied() {
    let mut d = connected();
    d.advance(Event::Collected(1));
    d.advance(Event::Sent(true));
    let mut bytes = volume_touch(30);
    bytes.extend(&volume_touch(31)[..5]);
    d.advance(Event::Received(bytes));
    assert_eq!(d.input.len(), 5);
    d.advance(Event::Slept);
    d.advance(Event::Elapsed(2));
    d.advance(Event::Collected(1));
    d.advance(Event::Sent(false));
    d.advance(Event::Closed);
    d.advance(Event::Slept);
    d.advance(Event::Located(true));
    d.advance(Event::Opened(true));
    assert!(d.input.is_empty());
    d.advance(Event::Collected(1));
    d.advance(Event::Sent(true));
    assert!(d.advance(Event::Received(volume_touch(30))).is_empty());
}

#[test]
fn events_that_answer_nothing_change_nothing() {
    let mut d = connected();
    assert!(d.advance(Event::Received(volume_touch(9))).is_empty());
    d.advance(Event::Slept);
    d.advance(Event::Opened(false));
    assert_eq!(d.action(), Action::Collect);
    assert!(d.input.is_empty());
    // a cycle without packets waits for its time
    d.advance(Event::Collected(0));
    assert_eq!(d.action(), Action::Clock);
}

#[test]
fn modes_outside_the_three_are_ignored() {
    let mut applied = Applied::none();
    let mut input = Vec::new();
    let mut bytes = mode_touch(0);
    bytes.extend(mode_touch(4));
    bytes.extend(mode_touch(1));
    bytes.extend(mode_touch(1));
    bytes.extend(mode_touch(3));
    // an unknown command
    bytes.extend([0xAA, 0x06, 0x63, 1, 0xCC, 0x33, 0xC3, 0x3C]);
    assert_eq!(pump(&mut input, &bytes, &mut applied), vec![Request::Mode(1), Request::Mode(3)]);
    assert_eq!(applied, Applied { volume: None, mode: Some(3) });
}

#[test]
fn bytes_cut_anywhere_ask_for_the_same() {
    let mut whole = vec![0x00];
    for level in [5, 5, 6] {
        whole.extend(volume_touch(level));
        whole.extend([0xAA, 0x05, 0x32, 0xCC, 0x33, 0xC3, 0x3C]);
    }
    for cut in 0..=whole.len() {
        let (mut input, mut applied) = (Vec::new(), Applied::none());
        let mut got = pump(&mut input, &whole[..cut].to_vec(), &mut applied);
        got.extend(pump(&mut input, &whole[cut..].to_vec(), &mut applied));
        assert_eq!(got, vec![Request::Volume(5), Request::Volume(6)]);
    }
}

#[test]
fn dump_lines_are_labelled() {
    let host = HostInfo {
        cpu_name: "Chip".to_string(),
        gpu_name: "Arc".to_string(),
        disk_label: "Disk".to_string(),
        disk_blockdev: "sda".to_string(),
    };
    assert_eq!(
        host_lines(&host),
        vec![
            "cpu_name      = Chip",
            "gpu_name      = Arc",
            "disk_label    = Disk",
            "disk_blockdev = sda",
        ]
    );
    assert_eq!(ec_line(true), "ec            = open");
    assert_eq!(ec_line(false), "ec            = unavailable (needs root)");
    assert_eq!(gpu_line(true), "gpu pmu       = open");
    assert_eq!(gpu_line(false), "gpu pmu       = unavailable (needs root)");
    assert_eq!(packet_line(0x39, "{VOLUME:40}"), "  0x39  {VOLUME:40}");
    assert_eq!(packet_line(0x0a, ""), "  0x0a  ");
    assert_eq!(DUMP_PAUSE_MS, 500);
    let head = head_lines(&host, true, false);
    assert_eq!(head[..4], host_lines(&host));
    assert_eq!(head[4..], [ec_line(true), gpu_line(false)]);
    let packets = vec![(0x37, "b".to_string()), (0x32, "a".to_string())];
    assert_eq!(packet_lines(&packets), vec!["", "packets:", "  0x37  b", "  0x32  a"]);
}
