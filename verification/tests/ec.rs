use scc_lcd_daemon::ec::{
    fan_rpm, sane_fan, sane_temp, temp_c, EcAccess, EcTransfer, EC_CMD_FAN, EC_CMD_MODE,
    EC_CMD_TEMP, EC_CPU_TEMP_SANITY_MAX, EC_GPU_TEMP_SANITY_MAX, EC_PORT_CMD, EC_PORT_DATA,
    EC_REG_CPU_TEMP, EC_REG_FAN_HI, FAN_RPM_SANITY_MAX,
};

#[test]
fn ec_sanity_limits_match_the_original() {
    // torn EC reads (e.g. 243C) must be rejected, real values kept
    assert!(!(243i64 <= EC_CPU_TEMP_SANITY_MAX));
    assert!(72i64 <= EC_CPU_TEMP_SANITY_MAX);
    assert!(65i64 <= EC_GPU_TEMP_SANITY_MAX);
    assert!(2400i64 < FAN_RPM_SANITY_MAX);
    assert!(!(65535i64 < FAN_RPM_SANITY_MAX));
}

#[test]
fn fan_rpm_is_big_endian_across_two_registers() {
    // hi=0x08 lo=0xF5 -> 2293 rpm, as observed on hardware
    assert_eq!(fan_rpm(0x08, 0xF5), 2293);
}

#[test]
fn torn_temperatures_fall_back() {
    assert_eq!(sane_temp(Some(72), EC_CPU_TEMP_SANITY_MAX, 50), 72);
    assert_eq!(sane_temp(Some(99), EC_CPU_TEMP_SANITY_MAX, 50), 99);
    assert_eq!(sane_temp(Some(100), EC_CPU_TEMP_SANITY_MAX, 50), 50);
    assert_eq!(sane_temp(Some(100), EC_GPU_TEMP_SANITY_MAX, 50), 100);
    assert_eq!(sane_temp(Some(243), EC_GPU_TEMP_SANITY_MAX, 50), 50);
    assert_eq!(sane_temp(None, EC_GPU_TEMP_SANITY_MAX, 50), 50);
    assert_eq!(temp_c(61), 61);
}

#[test]
fn torn_fan_speeds_reuse_the_last() {
    assert_eq!(sane_fan(Some((0x08, 0xF5)), 1200), 2293);
    assert_eq!(sane_fan(Some((0x0F, 0x9F)), 1200), 3999);
    assert_eq!(sane_fan(Some((0x0F, 0xA0)), 1200), 1200);
    assert_eq!(sane_fan(Some((0xFF, 0xFF)), 1200), 1200);
    assert_eq!(sane_fan(None, 1200), 1200);
}

/// Performs a transfer on a controller that answers the n-th status read with `status(n)`:
/// the bytes that were written, the value, and how many pauses it took.
fn perform(
    mut t: EcTransfer,
    status: impl Fn(usize) -> u8,
    data: u8,
) -> (Vec<(u64, u8)>, u8, usize) {
    let mut writes = Vec::new();
    let (mut reads, mut pauses) = (0, 0);
    loop {
        let byte = match t.access() {
            EcAccess::Read(port) if port == EC_PORT_CMD => {
                reads += 1;
                status(reads)
            }
            EcAccess::Read(_) => data,
            EcAccess::Write(port, byte) => {
                writes.push((port, byte));
                0
            }
            EcAccess::Pause => {
                pauses += 1;
                0
            }
            EcAccess::Nothing => return (writes, t.value, pauses),
        };
        t.advance(byte);
    }
}

#[test]
fn register_is_read_by_the_handshake() {
    let t = EcTransfer::read_reg(EC_CMD_TEMP, EC_REG_CPU_TEMP);
    // input buffer empty and output buffer full at once
    let (writes, value, pauses) = perform(t, |_| 0x01, 61);
    assert_eq!(writes, vec![(EC_PORT_CMD, 0xDD), (EC_PORT_DATA, 0x20)]);
    assert_eq!((value, pauses), (61, 0));
}

#[test]
fn waits_go_on_while_the_controller_is_busy() {
    let t = EcTransfer::read_reg(EC_CMD_FAN, EC_REG_FAN_HI);
    // the input buffer drains at the fourth read, the output buffer fills at the eighth
    let (writes, value, pauses) = perform(t, |n| if n < 4 { 0x02 } else if n < 8 { 0 } else { 1 }, 8);
    assert_eq!(writes, vec![(EC_PORT_CMD, 0xD5), (EC_PORT_DATA, 0x19)]);
    assert_eq!((value, pauses), (8, 5));
}

#[test]
fn waits_are_given_up_after_ten_tries() {
    let t = EcTransfer::read_reg(EC_CMD_FAN, EC_REG_FAN_HI);
    let (writes, value, pauses) = perform(t, |_| 0x02, 7);
    assert_eq!(writes, vec![(EC_PORT_CMD, 0xD5), (EC_PORT_DATA, 0x19)]);
    assert_eq!((value, pauses), (7, 30));
}

#[test]
fn mode_is_written_without_a_read() {
    let (writes, value, pauses) = perform(EcTransfer::set_mode(3), |_| 0, 9);
    assert_eq!(writes, vec![(EC_PORT_CMD, EC_CMD_MODE), (EC_PORT_DATA, 3)]);
    assert_eq!((EC_CMD_MODE, value, pauses), (0xDE, 0, 0));
}

#[test]
fn each_reading_has_its_command_and_register() {
    let writes = |t: EcTransfer| perform(t, |_| 0x01, 0).0;
    assert_eq!(writes(EcTransfer::read_cpu_temp()), vec![(0x6C, 0xDD), (0x68, 0x20)]);
    assert_eq!(writes(EcTransfer::read_gpu_temp()), vec![(0x6C, 0xDD), (0x68, 0x22)]);
    assert_eq!(writes(EcTransfer::read_fan_hi()), vec![(0x6C, 0xD5), (0x68, 0x19)]);
    assert_eq!(writes(EcTransfer::read_fan_lo()), vec![(0x6C, 0xD5), (0x68, 0x18)]);
}
