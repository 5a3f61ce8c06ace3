//! Framing of the serial link. The two directions differ: a frame to the panel has a
//! length of two bytes, little-endian, and a frame from the panel a length of one byte.
//!
//! To the panel:   `AA | len_lo len_hi | cmd | payload | CC 33 C3 3C`, where the length
//! counts the command, the payload and the trailer.
//!
//! From the panel: `AA | len | cmd | values | CC 33 C3 3C`, where the length counts what
//! follows it. A frame without values is the panel asking for that kind of data; one with
//! values is a command from its touch screen.
use vstd::prelude::*;
use vstd::utf8::encode_utf8;

verus! {

pub const CMD_CPU: u8 = 0x32;

pub const CMD_GPU: u8 = 0x33;

pub const CMD_MEMORY: u8 = 0x34;

pub const CMD_DISK: u8 = 0x35;

pub const CMD_DATE: u8 = 0x36;

pub const CMD_SPEED: u8 = 0x37;

pub const CMD_VOLUME: u8 = 0x39;

/// The byte that begins every frame.
pub const FRAME_START: u8 = 0xAA;

/// The four bytes that end every frame.
pub const FRAME_TRAILER: [u8; 4] = [0xCC, 0x33, 0xC3, 0x3C];

/// The least and the greatest number of bytes in a frame from the panel.
pub const FRAME_MIN: usize = 6;

pub const FRAME_MAX: usize = 64;

/// The four bytes that end every frame.
pub open spec fn trailer() -> Seq<u8> {
    seq![0xCC, 0x33, 0xC3, 0x3C]
}

/// The frame that carries `payload` to the panel. A payload of more than 65530 bytes has a
/// length that wraps.
pub open spec fn host_frame(cmd: u8, payload: Seq<u8>) -> Seq<u8> {
    let len: nat = (payload.len() + 5) % 0x1_0000;
    seq![0xAA, (len % 256) as u8, (len / 256) as u8, cmd] + payload + trailer()
}

/// The frame in which the panel sends `values`.
pub open spec fn device_frame(cmd: u8, values: Seq<u8>) -> Seq<u8> {
    seq![0xAA, (values.len() + 5) as u8, cmd] + values + trailer()
}

/// A command from the panel: its code and its values.
pub type Command = (u8, Seq<u8>);

/// What a buffer of bytes from the panel holds.
pub struct Decoded {
    /// The commands of the complete frames, in order.
    pub commands: Seq<Command>,
    /// What may be the beginning of one more frame.
    pub rest: Seq<u8>,
}

/// The number of leading bytes that begin no frame.
pub open spec fn noise(buf: Seq<u8>) -> int
    decreases buf.len(),
{
    if buf.len() == 0 || buf[0] == 0xAA {
        0
    } else {
        1 + noise(buf.skip(1))
    }
}

/// The commands that a complete frame holds: one, or none where the trailer is wrong or
/// there are no values.
pub open spec fn commands_in(f: Seq<u8>) -> Seq<Command> {
    if f.len() >= 8 && f.skip(f.len() - 4) == trailer() {
        seq![(f[2], f.subrange(3, f.len() - 4))]
    } else {
        seq![]
    }
}

/// What `buf` holds. Bytes before a start byte are skipped. A start byte with a length that
/// no frame has is skipped too. A frame that is not complete is kept.
pub open spec fn decode(buf: Seq<u8>) -> Decoded
    decreases buf.len(),
{
    let b: Seq<u8> = buf.skip(noise(buf));
    let total: int = b[1] + 2;
    if b.len() < 2 || b.len() > buf.len() {
        Decoded { commands: seq![], rest: b }
    } else if !(6 <= total <= 64) {
        decode(b.skip(1))
    } else if b.len() < total {
        Decoded { commands: seq![], rest: b }
    } else {
        let d: Decoded = decode(b.skip(total));
        Decoded { commands: commands_in(b.take(total)) + d.commands, rest: d.rest }
    }
}

/// What commands say.
pub open spec fn command_views(v: Seq<(u8, Vec<u8>)>) -> Seq<Command> {
    v.map_values(|c: (u8, Vec<u8>)| (c.0, c.1@))
}

proof fn lemma_noise(buf: Seq<u8>)
    ensures
        0 <= noise(buf) <= buf.len(),
        noise(buf) < buf.len() ==> buf[noise(buf)] == 0xAA,
        forall|i: int| 0 <= i < noise(buf) ==> buf[i] != 0xAA,
    decreases buf.len(),
{
    if buf.len() > 0 && buf[0] != 0xAA {
        lemma_noise(buf.skip(1));
        assert forall|i: int| 0 <= i < noise(buf) implies buf[i] != 0xAA by {
            if i > 0 {
                assert(buf.skip(1)[i - 1] == buf[i]);
            }
        }
    }
}

/// Where the first start byte is, there the noise ends.
proof fn lemma_noise_is(buf: Seq<u8>, n: int)
    requires
        0 <= n <= buf.len(),
        n < buf.len() ==> buf[n] == 0xAA,
        forall|i: int| 0 <= i < n ==> buf[i] != 0xAA,
    ensures
        noise(buf) == n,
{
    lemma_noise(buf);
}

/// The low and the high byte of the length of a frame with a payload of `n` bytes.
fn length_bytes(n: usize) -> (r: (u8, u8))
    ensures
        r.0 == ((n + 5) % 0x1_0000) % 256,
        r.1 == ((n + 5) % 0x1_0000) / 256,
{
    let low: usize = n % 0x1_0000;
    let len: usize = (low + 5) % 0x1_0000;
    assert(len == (n + 5) % 0x1_0000) by {
        vstd::arithmetic::div_mod::lemma_add_mod_noop(n as int, 5, 0x1_0000);
    }
    ((len % 256) as u8, (len / 256) as u8)
}

/// The frame that carries the bytes `p` to the panel.
fn frame_bytes(cmd: u8, p: &[u8]) -> (r: Vec<u8>)
    ensures
        r@ == host_frame(cmd, p@),
{
    let (lo, hi): (u8, u8) = length_bytes(p.len());
    let mut r: Vec<u8> = Vec::new();
    r.push(FRAME_START);
    r.push(lo);
    r.push(hi);
    r.push(cmd);
    let ghost head: Seq<u8> = seq![0xAA, lo, hi, cmd];
    assert(r@ =~= head);
    let mut i: usize = 0;
    assert(r@ == head + p@.take(0));
    while i < p.len()
        invariant
            i <= p.len(),
            r@ == head + p@.take(i as int),
        decreases p.len() - i,
    {
        r.push(p[i]);
        assert(p@.take(i + 1) == p@.take(i as int).push(p[i as int]));
        i = i + 1;
    }
    assert(p@.take(p.len() as int) == p@);
    assert(r@ == head + p@);
    r.push(FRAME_TRAILER[0]);
    r.push(FRAME_TRAILER[1]);
    r.push(FRAME_TRAILER[2]);
    r.push(FRAME_TRAILER[3]);
    assert(r@ =~= head + p@ + trailer());
    r
}

/// The frame that carries `payload` to the panel.
pub fn frame(cmd: u8, payload: &str) -> (r: Vec<u8>)
    ensures
        r@ == host_frame(cmd, encode_utf8(payload@)),
{
    frame_bytes(cmd, payload.as_bytes())
}

/// The bytes of `buf` from `from` to `to`.
fn bytes_between(buf: &Vec<u8>, from: usize, to: usize) -> (r: Vec<u8>)
    requires
        from <= to <= buf.len(),
    ensures
        r@ == buf@.subrange(from as int, to as int),
{
    let mut r: Vec<u8> = Vec::new();
    let mut i: usize = from;
    while i < to
        invariant
            from <= i <= to <= buf.len(),
            r@ == buf@.subrange(from as int, i as int),
        decreases to - i,
    {
        r.push(buf[i]);
        assert(buf@.subrange(from as int, i + 1) == buf@.subrange(from as int, i as int).push(
            buf[i as int],
        ));
        i = i + 1;
    }
    r
}

/// The position of the first start byte at or after `from`, or the length.
fn find_start(buf: &Vec<u8>, from: usize) -> (r: usize)
    requires
        from <= buf.len(),
    ensures
        from <= r <= buf.len(),
        r == from + noise(buf@.skip(from as int)),
{
    let mut i: usize = from;
    while i < buf.len() && buf[i] != FRAME_START
        invariant
            from <= i <= buf.len(),
            from + noise(buf@.skip(from as int)) == i + noise(buf@.skip(i as int)),
        decreases buf.len() - i,
    {
        assert(buf@.skip(i as int).skip(1) == buf@.skip(i + 1));
        i = i + 1;
    }
    i
}

/// Takes the complete frames out of `buf` and returns the commands that they hold. What may
/// be the beginning of a frame stays in `buf`.
pub fn parse_device_frames(buf: &mut Vec<u8>) -> (r: Vec<(u8, Vec<u8>)>)
    ensures
        command_views(r@) == decode(old(buf)@).commands,
        final(buf)@ == decode(old(buf)@).rest,
{
    let mut r: Vec<(u8, Vec<u8>)> = Vec::new();
    let ghost whole: Seq<u8> = buf@;
    let mut at: usize = 0;
    assert(whole.skip(0) == whole);
    loop
        invariant_except_break
            decode(whole).commands == command_views(r@) + decode(whole.skip(at as int)).commands,
            decode(whole).rest == decode(whole.skip(at as int)).rest,
        invariant
            buf@ == whole,
            at <= buf.len(),
        ensures
            decode(whole).commands == command_views(r@),
            decode(whole).rest == whole.skip(at as int),
        decreases buf.len() - at,
    {
        let ghost here: Seq<u8> = whole.skip(at as int);
        let start: usize = find_start(buf, at);
        let ghost b: Seq<u8> = whole.skip(start as int);
        assert(here.skip(start - at) == b);
        proof {
            lemma_noise(here);
        }
        at = start;
        if buf.len() - at < 2 {
            break;
        }
        let total: usize = buf[at + 1] as usize + 2;
        assert(b[1] == buf[at + 1]);
        if total < FRAME_MIN || total > FRAME_MAX {
            assert(b.skip(1) == whole.skip(at + 1));
            at = at + 1;
            continue ;
        }
        if buf.len() - at < total {
            break;
        }
        let end: usize = at + total;
        let ghost f: Seq<u8> = b.take(total as int);
        let ghost before: Seq<Command> = command_views(r@);
        assert(b.skip(total as int) == whole.skip(end as int));
        let closed: bool = buf[end - 4] == FRAME_TRAILER[0] && buf[end - 3] == FRAME_TRAILER[1]
            && buf[end - 2] == FRAME_TRAILER[2] && buf[end - 1] == FRAME_TRAILER[3];
        proof {
            let t: Seq<u8> = f.skip(total - 4);
            assert(t[0] == buf[end - 4] && t[1] == buf[end - 3] && t[2] == buf[end - 2] && t[3]
                == buf[end - 1]);
            assert(closed == (t == trailer())) by {
                if closed {
                    assert(t =~= trailer());
                }
            }
        }
        if closed && total >= 8 {
            let values: Vec<u8> = bytes_between(buf, at + 3, end - 4);
            assert(values@ == f.subrange(3, total - 4));
            r.push((buf[at + 2], values));
            assert(command_views(r@) == before + commands_in(f));
        }
        at = end;
    }
    let rest: Vec<u8> = buf.split_off(at);
    *buf = rest;
    r
}

/// Bytes before a start byte have no effect.
proof fn lemma_skip_noise(buf: Seq<u8>)
    ensures
        decode(buf) == decode(buf.skip(noise(buf))),
{
    lemma_noise(buf);
    let b: Seq<u8> = buf.skip(noise(buf));
    lemma_noise_is(b, 0);
    assert(b.skip(0) == b);
}

/// Leading bytes among which there is no start byte have no effect.
pub proof fn garbage_is_skipped(garbage: Seq<u8>, tail: Seq<u8>)
    requires
        forall|i: int| 0 <= i < garbage.len() ==> garbage[i] != 0xAA,
    ensures
        decode(garbage + tail) == decode(tail),
{
    let buf: Seq<u8> = garbage + tail;
    lemma_noise(tail);
    let n: int = garbage.len() + noise(tail);
    assert forall|i: int| 0 <= i < n implies buf[i] != 0xAA by {
        if i >= garbage.len() {
            assert(buf[i] == tail[i - garbage.len()]);
        }
    }
    lemma_noise_is(buf, n);
    assert(buf.skip(n) == tail.skip(noise(tail)));
    lemma_skip_noise(buf);
    lemma_skip_noise(tail);
}

/// Input may be cut anywhere: decoding the first piece, and then what it left together with
/// the second piece, finds the commands that decoding both pieces at once finds, and leaves
/// the same bytes.
pub proof fn pieces_decode_as_the_whole(a: Seq<u8>, b: Seq<u8>)
    ensures
        decode(a + b).commands == decode(a).commands + decode(decode(a).rest + b).commands,
        decode(a + b).rest == decode(decode(a).rest + b).rest,
    decreases a.len(),
{
    lemma_noise(a);
    let n: int = noise(a);
    let c: Seq<u8> = a.skip(n);
    if n == a.len() {
        garbage_is_skipped(a, b);
        assert(c + b == b);
    } else {
        lemma_noise_is(a + b, n);
        assert((a + b).skip(n) == c + b);
        lemma_noise_is(c + b, 0);
        assert((c + b).skip(0) == c + b);
        assert(decode(a + b) == decode(c + b)) by {
            lemma_skip_noise(a + b);
        }
        if c.len() >= 2 {
            let total: int = c[1] + 2;
            assert((c + b)[1] == c[1]);
            if !(6 <= total <= 64) {
                assert((c + b).skip(1) == c.skip(1) + b);
                pieces_decode_as_the_whole(c.skip(1), b);
            } else if c.len() >= total {
                assert((c + b).skip(total) == c.skip(total) + b);
                assert((c + b).take(total) == c.take(total));
                pieces_decode_as_the_whole(c.skip(total), b);
            }
        }
    }
}

/// What decoding leaves is decoded to itself: it holds no command yet.
pub proof fn rest_holds_no_command(buf: Seq<u8>)
    ensures
        decode(decode(buf).rest) == (Decoded { commands: seq![], rest: decode(buf).rest }),
    decreases buf.len(),
{
    lemma_noise(buf);
    let b: Seq<u8> = buf.skip(noise(buf));
    if b.len() >= 2 {
        let total: int = b[1] + 2;
        if !(6 <= total <= 64) {
            rest_holds_no_command(b.skip(1));
        } else if b.len() >= total {
            rest_holds_no_command(b.skip(total));
        } else {
            lemma_noise_is(b, 0);
            assert(b.skip(0) == b);
        }
    } else {
        lemma_noise_is(b, 0);
        assert(b.skip(0) == b);
    }
}

/// Bytes that may be the beginning of a frame: none, a start byte, or a frame of a length
/// that frames have, of which the end is missing.
pub open spec fn may_become_a_frame(rest: Seq<u8>) -> bool {
    ||| rest.len() == 0
    ||| rest =~= seq![0xAAu8]
    ||| rest.len() >= 2 && rest[0] == 0xAA && 6 <= rest[1] + 2 <= 64 && rest.len() < rest[1] + 2
}

/// What decoding leaves is the end of the buffer, and may be the beginning of a frame: none
/// of the bytes that are kept is made up, moved or known to be useless.
pub proof fn rest_is_the_end_of_the_buffer(buf: Seq<u8>)
    ensures
        decode(buf).rest.len() <= buf.len(),
        decode(buf).rest == buf.skip(buf.len() - decode(buf).rest.len()),
        may_become_a_frame(decode(buf).rest),
    decreases buf.len(),
{
    lemma_noise(buf);
    let b: Seq<u8> = buf.skip(noise(buf));
    if b.len() >= 2 {
        let total: int = b[1] + 2;
        if !(6 <= total <= 64) {
            rest_is_the_end_of_the_buffer(b.skip(1));
            lemma_end_of_end(buf, noise(buf) + 1, decode(buf).rest.len() as int);
            assert(b.skip(1) == buf.skip(noise(buf) + 1));
        } else if b.len() >= total {
            rest_is_the_end_of_the_buffer(b.skip(total));
            lemma_end_of_end(buf, noise(buf) + total, decode(buf).rest.len() as int);
            assert(b.skip(total) == buf.skip(noise(buf) + total));
        }
    }
}

proof fn lemma_end_of_end(buf: Seq<u8>, n: int, len: int)
    requires
        0 <= len <= buf.len() - n,
        0 <= n,
    ensures
        buf.skip(n).skip(buf.len() - n - len) == buf.skip(buf.len() - len),
{
}

/// What decoding leaves is shorter than the longest frame, and empty or begins with a start
/// byte: input cannot pile up.
pub proof fn rest_is_short(buf: Seq<u8>)
    ensures
        decode(buf).rest.len() < 64,
        decode(buf).rest.len() > 0 ==> decode(buf).rest[0] == 0xAA,
{
    rest_is_the_end_of_the_buffer(buf);
}

/// Every command that is decoded has at least one value, and no more than fit in a frame.
pub proof fn commands_have_values(buf: Seq<u8>)
    ensures
        forall|i: int|
            0 <= i < decode(buf).commands.len() ==> 1 <= (#[trigger] decode(buf).commands[i]).1.len()
                <= 57,
    decreases buf.len(),
{
    lemma_noise(buf);
    let b: Seq<u8> = buf.skip(noise(buf));
    if b.len() >= 2 {
        let total: int = b[1] + 2;
        if !(6 <= total <= 64) {
            commands_have_values(b.skip(1));
            assert(decode(buf).commands == decode(b.skip(1)).commands);
        } else if b.len() >= total {
            commands_have_values(b.skip(total));
            let d: Decoded = decode(b.skip(total));
            let c: Seq<Command> = commands_in(b.take(total));
            assert(decode(buf).commands == c + d.commands);
            assert forall|i: int| 0 <= i < decode(buf).commands.len() implies 1 <= (
            #[trigger] decode(buf).commands[i]).1.len() <= 57 by {
                if i >= c.len() {
                    assert(decode(buf).commands[i] == d.commands[i - c.len()]);
                }
            }
        }
    }
}

/// A complete frame at the head of the buffer is taken out whole, whatever it holds.
proof fn lemma_frame_at_head(f: Seq<u8>, tail: Seq<u8>)
    requires
        6 <= f.len() <= 64,
        f[0] == 0xAA,
        f[1] == f.len() - 2,
    ensures
        decode(f + tail).commands == commands_in(f) + decode(tail).commands,
        decode(f + tail).rest == decode(tail).rest,
{
    let buf: Seq<u8> = f + tail;
    lemma_noise_is(buf, 0);
    assert(buf.skip(0) == buf);
    assert(buf[1] == f[1]);
    assert(buf.take(f.len() as int) == f);
    assert(buf.skip(f.len() as int) == tail);
}

/// A command that the panel sends is decoded to its code and its values, and what follows
/// it is decoded as if it stood alone.
pub proof fn command_frames_are_decoded(cmd: u8, values: Seq<u8>, tail: Seq<u8>)
    requires
        1 <= values.len() <= 57,
    ensures
        decode(device_frame(cmd, values) + tail).commands == seq![(cmd, values)] + decode(
            tail,
        ).commands,
        decode(device_frame(cmd, values) + tail).rest == decode(tail).rest,
{
    let f: Seq<u8> = device_frame(cmd, values);
    lemma_frame_at_head(f, tail);
    assert(f.skip(f.len() - 4) == trailer());
    assert(f.subrange(3, f.len() - 4) == values);
}

/// A frame without values, in which the panel asks for data, has no effect.
pub proof fn polls_are_ignored(cmd: u8, tail: Seq<u8>)
    ensures
        decode(device_frame(cmd, seq![]) + tail) == decode(tail),
{
    let f: Seq<u8> = device_frame(cmd, seq![]);
    lemma_frame_at_head(f, tail);
    assert(commands_in(f) + decode(tail).commands == decode(tail).commands);
}

/// A frame with a wrong trailer is dropped whole, and what follows it is decoded as if it
/// stood alone.
pub proof fn bad_trailers_are_dropped(f: Seq<u8>, tail: Seq<u8>)
    requires
        6 <= f.len() <= 64,
        f[0] == 0xAA,
        f[1] == f.len() - 2,
        f.skip(f.len() - 4) != trailer(),
    ensures
        decode(f + tail) == decode(tail),
{
    lemma_frame_at_head(f, tail);
    assert(commands_in(f) + decode(tail).commands == decode(tail).commands);
}

/// A start byte with a length that no frame has is skipped, and nothing else is.
pub proof fn implausible_lengths_are_skipped(len: u8, tail: Seq<u8>)
    requires
        !(6 <= len + 2 <= 64),
    ensures
        decode(seq![0xAA, len] + tail) == decode(seq![len] + tail),
{
    let buf: Seq<u8> = seq![0xAA, len] + tail;
    lemma_noise_is(buf, 0);
    assert(buf.skip(0) == buf);
    assert(buf.skip(1) == seq![len] + tail);
}

/// The length in a frame to the panel locates the payload and the trailer behind it.
pub proof fn host_frames_can_be_read_back(cmd: u8, payload: Seq<u8>)
    requires
        payload.len() <= 65530,
    ensures
        ({
            let f: Seq<u8> = host_frame(cmd, payload);
            let len: int = f[1] + 256 * f[2];
            &&& f.len() == payload.len() + 8
            &&& len == payload.len() + 5
            &&& f[0] == 0xAA
            &&& f[3] == cmd
            &&& f.subrange(4, len - 1) == payload
            &&& f.skip(len - 1) == trailer()
        }),
{
    let f: Seq<u8> = host_frame(cmd, payload);
    let len: int = f[1] + 256 * f[2];
    assert(len == payload.len() + 5);
    assert(f.subrange(4, len - 1) == payload);
    assert(f.skip(len - 1) == trailer());
}

/// A frame to the panel, byte by byte: a start byte, the length with its low byte first, the
/// command, the payload and the trailer. The length counts what follows it, modulo 2^16.
pub proof fn host_frames_byte_by_byte(cmd: u8, payload: Seq<u8>)
    ensures
        ({
            let f: Seq<u8> = host_frame(cmd, payload);
            let n: int = payload.len() as int;
            &&& f.len() == n + 8
            &&& f[0] == 0xAA
            &&& f[1] + 256 * f[2] == (n + 5) % 0x1_0000
            &&& f[3] == cmd
            &&& f.subrange(4, 4 + n) == payload
            &&& f[n + 4] == 0xCC && f[n + 5] == 0x33 && f[n + 6] == 0xC3 && f[n + 7] == 0x3C
        }),
{
    let f: Seq<u8> = host_frame(cmd, payload);
    assert(f.subrange(4, 4 + payload.len() as int) == payload);
    let len: int = (payload.len() as int + 5) % 0x1_0000;
    assert(0 <= len < 0x1_0000);
    assert(len / 256 < 256);
}

/// A frame from the panel, byte by byte: with values it is a command, whatever follows it,
/// and without values it is none.
pub proof fn device_frames_byte_by_byte(cmd: u8, values: Seq<u8>, tail: Seq<u8>)
    requires
        values.len() <= 57,
    ensures
        ({
            let f: Seq<u8> = seq![0xAA, (values.len() + 5) as u8, cmd] + values + seq![
                0xCC,
                0x33,
                0xC3,
                0x3C,
            ];
            &&& values.len() > 0 ==> decode(f + tail).commands == seq![(cmd, values)] + decode(
                tail,
            ).commands
            &&& values.len() == 0 ==> decode(f + tail).commands == decode(tail).commands
            &&& decode(f + tail).rest == decode(tail).rest
        }),
{
    let f: Seq<u8> = device_frame(cmd, values);
    assert(f == seq![0xAA, (values.len() + 5) as u8, cmd] + values + seq![
        0xCC,
        0x33,
        0xC3,
        0x3C,
    ]);
    if values.len() > 0 {
        command_frames_are_decoded(cmd, values, tail);
    } else {
        assert(values == Seq::<u8>::empty());
        polls_are_ignored(cmd, tail);
    }
}

/// A frame whose last four bytes are not the trailer is dropped, whatever else it holds.
pub proof fn corrupt_frames_are_dropped(f: Seq<u8>, tail: Seq<u8>)
    requires
        6 <= f.len() <= 64,
        f[0] == 0xAA,
        f[1] == f.len() - 2,
        f.skip(f.len() - 4) != seq![0xCCu8, 0x33, 0xC3, 0x3C],
    ensures
        decode(f + tail) == decode(tail),
{
    bad_trailers_are_dropped(f, tail);
}

/// The beginning of a frame is kept as it is, until the rest of the frame comes.
pub proof fn incomplete_frames_are_kept(start: Seq<u8>)
    requires
        may_become_a_frame(start),
    ensures
        decode(start).commands == Seq::<Command>::empty(),
        decode(start).rest == start,
{
    lemma_noise_is(start, 0);
    assert(start.skip(0) == start);
}

/// Each command is seen as its code and its values.
pub proof fn commands_are_seen_one_for_one(v: Seq<(u8, Vec<u8>)>, i: int)
    requires
        0 <= i < v.len(),
    ensures
        command_views(v).len() == v.len(),
        command_views(v)[i] == (v[i].0, v[i].1@),
{
}

} // verus!
