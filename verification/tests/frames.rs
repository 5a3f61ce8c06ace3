use scc_lcd_daemon::frames::{frame, parse_device_frames, CMD_CPU};
use scc_lcd_daemon::panel::DEV_CMD_VOLUME;

#[test]
fn host_frame_layout_matches_protocol() {
    // AA | len_lo len_hi | cmd | payload | CC 33 C3 3C, len = payload + 5
    let f = frame(CMD_CPU, "{A}");
    assert_eq!(f, vec![0xAA, 0x08, 0x00, 0x32, b'{', b'A', b'}', 0xCC, 0x33, 0xC3, 0x3C]);
    assert_eq!(f[1] as usize | ((f[2] as usize) << 8), "{A}".len() + 5);
    assert_eq!(f.len(), "{A}".len() + 8);
}

#[test]
fn host_frame_length_is_little_endian_for_long_payloads() {
    let payload = "x".repeat(300);
    let f = frame(CMD_CPU, &payload);
    let len = f[1] as usize | ((f[2] as usize) << 8);
    assert_eq!(len, 305);
    assert_eq!(f[1], 0x31); // 305 = 0x0131
    assert_eq!(f[2], 0x01);
}

fn poll(cmd: u8) -> Vec<u8> {
    vec![0xAA, 0x05, cmd, 0xCC, 0x33, 0xC3, 0x3C]
}

fn volume_frame(level: u8) -> Vec<u8> {
    vec![0xAA, 0x06, DEV_CMD_VOLUME, level, 0xCC, 0x33, 0xC3, 0x3C]
}

#[test]
fn routine_polls_are_ignored() {
    let mut buf: Vec<u8> = [0x32, 0x33, 0x34].iter().flat_map(|&c| poll(c)).collect();
    assert!(parse_device_frames(&mut buf).is_empty());
    assert!(buf.is_empty(), "fully consumed");
}

#[test]
fn volume_command_is_decoded() {
    let mut buf = volume_frame(50);
    assert_eq!(parse_device_frames(&mut buf), vec![(DEV_CMD_VOLUME, vec![50])]);
}

#[test]
fn volume_extremes_round_trip() {
    for level in [0u8, 50, 98, 100] {
        let mut buf = volume_frame(level);
        let got = parse_device_frames(&mut buf);
        assert_eq!(got, vec![(DEV_CMD_VOLUME, vec![level])], "level {level}");
    }
}

#[test]
fn command_is_found_among_polls() {
    let mut buf = poll(0x32);
    buf.extend(volume_frame(77));
    buf.extend(poll(0x39));
    assert_eq!(parse_device_frames(&mut buf), vec![(DEV_CMD_VOLUME, vec![77])]);
}

#[test]
fn partial_frame_is_retained_until_complete() {
    let full = volume_frame(42);
    let (head, tail) = full.split_at(4);
    let mut buf = head.to_vec();
    assert!(parse_device_frames(&mut buf).is_empty(), "incomplete yields nothing");
    assert_eq!(buf.len(), 4, "partial frame kept for next read");
    buf.extend_from_slice(tail);
    assert_eq!(parse_device_frames(&mut buf), vec![(DEV_CMD_VOLUME, vec![42])]);
}

#[test]
fn resyncs_past_leading_garbage() {
    let mut buf = vec![0x00, 0xFF, 0x12];
    buf.extend(volume_frame(9));
    assert_eq!(parse_device_frames(&mut buf), vec![(DEV_CMD_VOLUME, vec![9])]);
}

#[test]
fn bad_trailer_is_dropped_without_hanging() {
    let mut buf = vec![0xAA, 0x06, DEV_CMD_VOLUME, 1, 0xDE, 0xAD, 0xBE, 0xEF];
    buf.extend(volume_frame(60));
    // the corrupt frame is discarded; the following good one still parses
    assert_eq!(parse_device_frames(&mut buf), vec![(DEV_CMD_VOLUME, vec![60])]);
}

#[test]
fn implausible_length_does_not_stall() {
    // 0xAA followed by a nonsense length must not loop forever
    let mut buf = vec![0xAA, 0xFF];
    buf.extend(volume_frame(5));
    assert_eq!(parse_device_frames(&mut buf), vec![(DEV_CMD_VOLUME, vec![5])]);
}

#[test]
fn any_bytes_leave_a_short_rest() {
    let mut n = 99u64;
    let mut buf: Vec<u8> = Vec::new();
    for _ in 0..20_000 {
        n = n.wrapping_mul(6364136223846793005).wrapping_add(1442695040888963407);
        // start bytes and trailers come often
        buf.push([0xAA, 0xAA, 0x06, 0x61, 0xCC, 0x33, 0xC3, 0x3C, (n >> 40) as u8][(n >> 33) as usize % 9]);
        let before = buf.clone();
        parse_device_frames(&mut buf);
        assert!(buf.len() < 64);
        assert!(before.ends_with(&buf));
        assert!(match buf.as_slice() {
            [] | [0xAA] => true,
            [0xAA, len, ..] => (4..=62).contains(len) && buf.len() < *len as usize + 2,
            _ => false,
        });
        // what is left holds no command yet
        let rest = buf.clone();
        assert!(parse_device_frames(&mut buf).is_empty());
        assert_eq!(buf, rest);
    }
}

#[test]
fn commands_carry_all_their_values() {
    let mut buf = vec![0xAA, 0x08, 0x61, 1, 2, 3, 0xCC, 0x33, 0xC3, 0x3C];
    assert_eq!(parse_device_frames(&mut buf), vec![(0x61, vec![1, 2, 3])]);
}
