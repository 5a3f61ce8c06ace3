//! The lines that `--dump` prints.
use crate::host::HostInfo;
use crate::numbers::{bytes_can_be_read_back, hex_two, natural, push_hex};
use vstd::prelude::*;

verus! {

broadcast use vstd::string::group_string_axioms;

/// The pause between the two readings that rates are made of, in milliseconds.
pub const DUMP_PAUSE_MS: u64 = 500;

/// A label, and what it stands for.
fn labelled(label: &str, value: &str) -> (r: String)
    ensures
        r@ == label@ + value@,
{
    let mut r: String = label.to_string();
    r.append(value);
    r
}

/// The lines about the machine.
pub fn host_lines(host: &HostInfo) -> (r: Vec<String>)
    ensures
        r.len() == 4,
        r[0]@ == "cpu_name      = "@ + host.cpu_name@,
        r[1]@ == "gpu_name      = "@ + host.gpu_name@,
        r[2]@ == "disk_label    = "@ + host.disk_label@,
        r[3]@ == "disk_blockdev = "@ + host.disk_blockdev@,
{
    vec![
        labelled("cpu_name      = ", host.cpu_name.as_str()),
        labelled("gpu_name      = ", host.gpu_name.as_str()),
        labelled("disk_label    = ", host.disk_label.as_str()),
        labelled("disk_blockdev = ", host.disk_blockdev.as_str()),
    ]
}

/// All lines before the packets: the machine, the embedded controller, and the counters of
/// the graphics.
pub fn head_lines(host: &HostInfo, ec_open: bool, gpu_open: bool) -> (r: Vec<String>)
    ensures
        r.len() == 6,
        r[0]@ == "cpu_name      = "@ + host.cpu_name@,
        r[1]@ == "gpu_name      = "@ + host.gpu_name@,
        r[2]@ == "disk_label    = "@ + host.disk_label@,
        r[3]@ == "disk_blockdev = "@ + host.disk_blockdev@,
        r[4]@ == "ec            = "@ + availability(ec_open),
        r[5]@ == "gpu pmu       = "@ + availability(gpu_open),
{
    let mut r: Vec<String> = host_lines(host);
    r.push(ec_line(ec_open));
    r.push(gpu_line(gpu_open));
    r
}

/// The section of the packets: an empty line, the heading, and one line for each packet, in
/// order.
pub fn packet_lines(packets: &Vec<(u8, String)>) -> (r: Vec<String>)
    ensures
        r.len() == packets.len() + 2,
        r[0]@ == ""@,
        r[1]@ == "packets:"@,
        forall|i: int|
            0 <= i < packets.len() ==> (#[trigger] r[i + 2])@ == packet_text(
                packets[i].0,
                packets[i].1@,
            ),
{
    let mut r: Vec<String> = vec!["".to_string(), "packets:".to_string()];
    let mut i: usize = 0;
    while i < packets.len()
        invariant
            i <= packets.len(),
            r.len() == i + 2,
            r[0]@ == ""@,
            r[1]@ == "packets:"@,
            forall|j: int|
                0 <= j < i ==> (#[trigger] r[j + 2])@ == packet_text(packets[j].0, packets[j].1@),
        decreases packets.len() - i,
    {
        r.push(packet_line(packets[i].0, packets[i].1.as_str()));
        i = i + 1;
    }
    r
}

/// Whether something that only root can open is open.
pub open spec fn availability(open: bool) -> Seq<char> {
    if open {
        "open"@
    } else {
        "unavailable (needs root)"@
    }
}

fn availability_text(open: bool) -> (r: &'static str)
    ensures
        r@ == availability(open),
{
    if open {
        "open"
    } else {
        "unavailable (needs root)"
    }
}

/// The line about the embedded controller.
pub fn ec_line(open: bool) -> (r: String)
    ensures
        r@ == "ec            = "@ + availability(open),
{
    labelled("ec            = ", availability_text(open))
}

/// The line about the counters of the graphics.
pub fn gpu_line(open: bool) -> (r: String)
    ensures
        r@ == "gpu pmu       = "@ + availability(open),
{
    labelled("gpu pmu       = ", availability_text(open))
}

/// The line about a packet: its command in hexadecimal, and its payload.
pub open spec fn packet_text(cmd: u8, payload: Seq<char>) -> Seq<char> {
    "  0x"@ + hex_two(cmd) + "  "@ + payload
}

/// The line about a packet: its command in hexadecimal, and its payload.
pub fn packet_line(cmd: u8, payload: &str) -> (r: String)
    ensures
        r@ == packet_text(cmd, payload@),
{
    let mut r: String = "  0x".to_string();
    push_hex(&mut r, cmd);
    r.append("  ");
    r.append(payload);
    r
}

/// The line about a packet begins with the command, which can be read back, and ends with
/// the payload.
pub proof fn packet_lines_can_be_read_back(cmd: u8, payload: Seq<char>)
    ensures
        ({
            let s: Seq<char> = packet_text(cmd, payload);
            &&& s.take(4) == "  0x"@
            &&& natural(s.subrange(4, 6), 16, 255) == Some(cmd as nat)
            &&& s.subrange(6, 8) == "  "@
            &&& s.skip(8) == payload
        }),
{
    reveal_strlit("  0x");
    reveal_strlit("  ");
    bytes_can_be_read_back(cmd);
    let s: Seq<char> = packet_text(cmd, payload);
    assert(s.take(4) == "  0x"@);
    assert(s.subrange(4, 6) == hex_two(cmd));
    assert(s.subrange(6, 8) == "  "@);
    assert(s.skip(8) == payload);
}

} // verus!
