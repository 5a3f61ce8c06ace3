//! The serial line to the panel.
use crate::procfs::may_answer;
use vstd::prelude::*;

verus! {

broadcast use vstd::string::group_string_axioms;

/// The path of the panel's device.
///
/// The setting, where there is one, is the only candidate. Otherwise the stable link comes
/// before the first device of the kind.
pub fn find_port<F: Fn(&str) -> bool>(setting: Option<&str>, is_there: F) -> (r: Option<String>)
    requires
        forall|path: &str| call_requires(is_there, (path,)),
    ensures
        match setting {
            Some(p) => match r {
                Some(path) => path@ == p@ && may_answer(is_there, p@, true),
                None => may_answer(is_there, p@, false),
            },
            None => match r {
                Some(path) => {
                    ||| path@ == "/dev/sccs-lcd"@ && may_answer(is_there, "/dev/sccs-lcd"@, true)
                    ||| path@ == "/dev/ttyACM0"@ && may_answer(is_there, "/dev/sccs-lcd"@, false)
                        && may_answer(is_there, "/dev/ttyACM0"@, true)
                },
                None => may_answer(is_there, "/dev/sccs-lcd"@, false) && may_answer(
                    is_there,
                    "/dev/ttyACM0"@,
                    false,
                ),
            },
        },
{
    match setting {
        Some(p) => if is_there(p) {
            Some(p.to_string())
        } else {
            None
        },
        None => if is_there("/dev/sccs-lcd") {
            Some("/dev/sccs-lcd".to_string())
        } else if is_there("/dev/ttyACM0") {
            Some("/dev/ttyACM0".to_string())
        } else {
            None
        },
    }
}

/// The settings of a line.
#[derive(Clone, Copy, Debug, PartialEq, Eq)]
pub struct LineSettings {
    pub input: u32,
    pub output: u32,
    pub control: u32,
    pub local: u32,
    /// How many bytes a read waits for.
    pub min_bytes: u8,
    /// How long a read waits.
    pub wait_time: u8,
}

/// The bits of the control settings, as the system numbers them.
#[derive(Clone, Copy, Debug, PartialEq, Eq)]
pub struct ControlBits {
    pub parity: u32,
    pub two_stop_bits: u32,
    /// All bits of the character size.
    pub size: u32,
    /// The bits of the character size that say eight.
    pub eight: u32,
    pub receive: u32,
    pub ignore_modem: u32,
}

impl ControlBits {
    /// No bit serves two purposes.
    pub open spec fn are_apart(self) -> bool {
        &&& self.eight & self.size == self.eight
        &&& (self.size | self.parity | self.two_stop_bits) & (self.receive | self.ignore_modem) == 0
        &&& self.size & (self.parity | self.two_stop_bits) == 0
    }
}

/// The control settings for characters of eight bits, without parity and with one stop bit.
pub open spec fn raw_control(control: u32, bits: ControlBits) -> u32 {
    (control & !bits.parity & !bits.two_stop_bits & !bits.size) | (bits.eight | bits.receive
        | bits.ignore_modem)
}

/// The line carries bytes as they are, eight bits each, and a read returns at once with what
/// is there.
pub fn raw_mode(line: LineSettings, bits: &ControlBits) -> (r: LineSettings)
    ensures
        r == (LineSettings {
            input: 0,
            output: 0,
            control: raw_control(line.control, *bits),
            local: 0,
            min_bytes: 0,
            wait_time: 0,
        }),
{
    let mut control: u32 = line.control;
    control = control & !bits.parity;
    control = control & !bits.two_stop_bits;
    control = control & !bits.size;
    control = control | (bits.eight | bits.receive | bits.ignore_modem);
    LineSettings { input: 0, output: 0, control, local: 0, min_bytes: 0, wait_time: 0 }
}

/// A raw line has eight bits, no parity and one stop bit; it receives, and it ignores the
/// modem lines. All other bits stay as they were.
pub proof fn raw_lines_are_8n1(control: u32, bits: ControlBits)
    requires
        bits.are_apart(),
    ensures
        raw_control(control, bits) & bits.size == bits.eight,
        raw_control(control, bits) & bits.parity == 0,
        raw_control(control, bits) & bits.two_stop_bits == 0,
        raw_control(control, bits) & bits.receive == bits.receive,
        raw_control(control, bits) & bits.ignore_modem == bits.ignore_modem,
        raw_control(control, bits) & !(bits.size | bits.parity | bits.two_stop_bits | bits.receive
            | bits.ignore_modem) == control & !(bits.size | bits.parity | bits.two_stop_bits
            | bits.receive | bits.ignore_modem),
{
    let p: u32 = bits.parity;
    let t: u32 = bits.two_stop_bits;
    let z: u32 = bits.size;
    let e: u32 = bits.eight;
    let v: u32 = bits.receive;
    let m: u32 = bits.ignore_modem;
    let r: u32 = raw_control(control, bits);
    assert(r == (control & !p & !t & !z) | (e | v | m));
    assert(r & z == e && r & p == 0 && r & t == 0 && r & v == v && r & m == m && r & !(z | p | t
        | v | m) == control & !(z | p | t | v | m)) by (bit_vector)
        requires
            r == (control & !p & !t & !z) | (e | v | m),
            e & z == e,
            (z | p | t) & (v | m) == 0,
            z & (p | t) == 0,
    ;
}

/// Making a raw line raw changes nothing.
pub proof fn raw_lines_stay_raw(control: u32, bits: ControlBits)
    ensures
        raw_control(raw_control(control, bits), bits) == raw_control(control, bits),
{
    let p: u32 = bits.parity;
    let t: u32 = bits.two_stop_bits;
    let z: u32 = bits.size;
    let e: u32 = bits.eight;
    let v: u32 = bits.receive;
    let m: u32 = bits.ignore_modem;
    let r: u32 = raw_control(control, bits);
    assert((r & !p & !t & !z) | (e | v | m) == r) by (bit_vector)
        requires
            r == (control & !p & !t & !z) | (e | v | m),
    ;
}

/// The modem lines with the host's two raised.
pub fn raised(lines: i32, terminal_ready: i32, request_to_send: i32) -> (r: i32)
    ensures
        r == lines | (terminal_ready | request_to_send),
{
    lines | (terminal_ready | request_to_send)
}

/// How a write went on.
#[derive(Clone, Copy, Debug, PartialEq, Eq, Structural)]
pub enum Progress {
    /// Everything is written.
    Done,
    /// Some is left.
    More,
    Failed,
}

/// Bytes on their way to the panel.
#[derive(Debug)]
pub struct Outgoing {
    pub bytes: Vec<u8>,
    pub written: usize,
}

impl Outgoing {
    pub open spec fn wf(self) -> bool {
        self.written <= self.bytes.len()
    }

    /// The bytes that are left.
    pub open spec fn left(self) -> Seq<u8> {
        self.bytes@.skip(self.written as int)
    }

    /// All of the bytes are left.
    pub fn new(bytes: Vec<u8>) -> (r: Outgoing)
        ensures
            r.wf(),
            r.bytes@ == bytes@,
            r.left() == bytes@,
    {
        Outgoing { bytes, written: 0 }
    }

    /// Something is left.
    pub fn is_pending(&self) -> (r: bool)
        requires
            self.wf(),
        ensures
            r == (self.left().len() > 0),
    {
        self.written < self.bytes.len()
    }

    /// The system took the first `n` of the bytes that were left; a negative number says
    /// that it failed.
    pub fn took(&mut self, n: i64) -> (r: Progress)
        requires
            old(self).wf(),
            n <= old(self).left().len(),
        ensures
            final(self).wf(),
            final(self).bytes@ == old(self).bytes@,
            final(self).left() == (if n < 0 {
                old(self).left()
            } else {
                old(self).left().skip(n as int)
            }),
            r == (if n < 0 {
                Progress::Failed
            } else if n == old(self).left().len() {
                Progress::Done
            } else {
                Progress::More
            }),
    {
        if n < 0 {
            return Progress::Failed;
        }
        let ghost before: Seq<u8> = self.left();
        self.written = self.written + n as usize;
        assert(self.left() == before.skip(n as int));
        if self.written < self.bytes.len() {
            Progress::More
        } else {
            Progress::Done
        }
    }
}

/// What is left after the counts `taken`, none of them a failure.
pub open spec fn left_after(left: Seq<u8>, taken: Seq<int>) -> Seq<u8>
    decreases taken.len(),
{
    if taken.len() == 0 {
        left
    } else {
        left_after(left, taken.drop_last()).skip(taken.last())
    }
}

/// What the system took, piece by piece.
pub open spec fn pieces_taken(left: Seq<u8>, taken: Seq<int>) -> Seq<u8>
    decreases taken.len(),
{
    if taken.len() == 0 {
        seq![]
    } else {
        pieces_taken(left, taken.drop_last()) + left_after(left, taken.drop_last()).take(
            taken.last(),
        )
    }
}

/// No count is negative or greater than what was left.
pub open spec fn are_counts(left: Seq<u8>, taken: Seq<int>) -> bool
    decreases taken.len(),
{
    taken.len() > 0 ==> are_counts(left, taken.drop_last()) && 0 <= taken.last() <= left_after(
        left,
        taken.drop_last(),
    ).len()
}

/// However the system splits a write, what it took and what is left are the bytes, in order.
pub proof fn writes_lose_nothing(left: Seq<u8>, taken: Seq<int>)
    requires
        are_counts(left, taken),
    ensures
        pieces_taken(left, taken) + left_after(left, taken) == left,
    decreases taken.len(),
{
    if taken.len() > 0 {
        writes_lose_nothing(left, taken.drop_last());
        let rest: Seq<u8> = left_after(left, taken.drop_last());
        assert(rest.take(taken.last()) + rest.skip(taken.last()) == rest);
        assert(pieces_taken(left, taken) + left_after(left, taken) == pieces_taken(
            left,
            taken.drop_last(),
        ) + (rest.take(taken.last()) + rest.skip(taken.last())));
    } else {
        assert(Seq::<u8>::empty() + left == left);
    }
}

/// The bytes that a read of `n` bytes left in the buffer; a count below one says that there
/// are none.
pub fn read_available(buffer: &Vec<u8>, n: i64) -> (r: Vec<u8>)
    requires
        n <= buffer.len(),
    ensures
        r@ == (if n > 0 {
            buffer@.take(n as int)
        } else {
            Seq::<u8>::empty()
        }),
{
    let mut r: Vec<u8> = Vec::new();
    if n > 0 {
        let mut i: usize = 0;
        while i < n as usize
            invariant
                0 < n <= buffer.len(),
                i <= n,
                r@ == buffer@.take(i as int),
            decreases n - i,
        {
            r.push(buffer[i]);
            i = i + 1;
        }
    }
    r
}

/// What is left are the bytes behind those that were written.
pub proof fn written_bytes_are_not_left(o: Outgoing, i: int)
    requires
        o.wf(),
        o.written <= i < o.bytes.len(),
    ensures
        o.left().len() == o.bytes.len() - o.written,
        o.left()[i - o.written] == o.bytes[i],
{
}

} // verus!
