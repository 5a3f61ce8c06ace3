//! The vendor's embedded controller: fan speed, two temperatures, and the performance mode.
//!
//! It is reached by port I/O, and it is not the ACPI controller that the kernel owns. Each
//! register is read by a handshake: wait until the input buffer is empty, write the
//! command, wait again, write the register's address, wait until the output buffer is full,
//! read. A mode is written by the first half of it. A transfer here decides which access
//! comes next; its owner performs the access and hands back the byte that was read.
use vstd::prelude::*;

verus! {

/// The port for status and commands.
pub const EC_PORT_CMD: u64 = 0x6C;

/// The port for data.
pub const EC_PORT_DATA: u64 = 0x68;

/// The command that reads a fan register.
pub const EC_CMD_FAN: u8 = 0xD5;

/// The command that reads a temperature register.
pub const EC_CMD_TEMP: u8 = 0xDD;

/// The command that sets the performance mode.
pub const EC_CMD_MODE: u8 = 0xDE;

pub const EC_REG_FAN_HI: u8 = 0x19;

pub const EC_REG_FAN_LO: u8 = 0x18;

pub const EC_REG_CPU_TEMP: u8 = 0x20;

pub const EC_REG_GPU_TEMP: u8 = 0x22;

/// A fan speed from here on is a torn reading.
pub const FAN_RPM_SANITY_MAX: i64 = 4000;

/// A processor temperature above this is a torn reading.
pub const EC_CPU_TEMP_SANITY_MAX: i64 = 99;

/// A graphics temperature above this is a torn reading.
pub const EC_GPU_TEMP_SANITY_MAX: i64 = 100;

/// The status bit that is set while the input buffer is full.
pub const EC_INPUT_FULL: u8 = 0x02;

/// The status bit that is set while the output buffer is full.
pub const EC_OUTPUT_FULL: u8 = 0x01;

/// How often the status is read before a wait is given up.
pub const EC_TRIES: u8 = 10;

/// How far a transfer has come.
#[derive(Clone, Copy, Debug, PartialEq, Eq, Structural)]
pub enum EcStage {
    /// Waiting to write the command.
    AwaitCommand,
    WriteCommand,
    /// Waiting to write the operand: a register's address, or a mode.
    AwaitOperand,
    WriteOperand,
    /// Waiting for the register's value.
    AwaitValue,
    ReadValue,
    Done,
}

/// The access to the controller that comes next.
#[derive(Clone, Copy, Debug, PartialEq, Eq, Structural)]
pub enum EcAccess {
    /// Read a byte from the port.
    Read(u64),
    /// Write the byte to the port.
    Write(u64, u8),
    /// Sleep for a millisecond.
    Pause,
    /// None: the transfer is complete.
    Nothing,
}

/// A transfer to or from the controller.
#[derive(Clone, Copy, Debug, PartialEq, Eq, Structural)]
pub struct EcTransfer {
    pub cmd: u8,
    pub operand: u8,
    /// Whether a value is read at the end.
    pub reads: bool,
    pub stage: EcStage,
    /// How often the status was read in the wait of this stage.
    pub tries: u8,
    /// Whether the last status read calls for a pause.
    pub pausing: bool,
    /// The value that was read.
    pub value: u8,
}

/// The stage waits for a status.
pub open spec fn is_wait(stage: EcStage) -> bool {
    stage is AwaitCommand || stage is AwaitOperand || stage is AwaitValue
}

/// The status ends the wait of the stage: the input buffer is empty, or, where a value is
/// awaited, the output buffer is full.
pub open spec fn is_ready(stage: EcStage, status: u8) -> bool {
    if stage is AwaitValue {
        status & EC_OUTPUT_FULL != 0
    } else {
        status & EC_INPUT_FULL == 0
    }
}

impl EcTransfer {
    /// The stage that follows.
    pub open spec fn following(self) -> EcStage {
        match self.stage {
            EcStage::AwaitCommand => EcStage::WriteCommand,
            EcStage::WriteCommand => EcStage::AwaitOperand,
            EcStage::AwaitOperand => EcStage::WriteOperand,
            EcStage::WriteOperand => if self.reads {
                EcStage::AwaitValue
            } else {
                EcStage::Done
            },
            EcStage::AwaitValue => EcStage::ReadValue,
            EcStage::ReadValue => EcStage::Done,
            EcStage::Done => EcStage::Done,
        }
    }

    /// The transfer in its next stage.
    pub open spec fn in_next_stage(self) -> EcTransfer {
        EcTransfer { stage: self.following(), tries: 0, pausing: false, ..self }
    }

    /// The access that comes next.
    pub open spec fn next_access(self) -> EcAccess {
        if self.pausing {
            EcAccess::Pause
        } else {
            match self.stage {
                EcStage::AwaitCommand => EcAccess::Read(EC_PORT_CMD),
                EcStage::WriteCommand => EcAccess::Write(EC_PORT_CMD, self.cmd),
                EcStage::AwaitOperand => EcAccess::Read(EC_PORT_CMD),
                EcStage::WriteOperand => EcAccess::Write(EC_PORT_DATA, self.operand),
                EcStage::AwaitValue => EcAccess::Read(EC_PORT_CMD),
                EcStage::ReadValue => EcAccess::Read(EC_PORT_DATA),
                EcStage::Done => EcAccess::Nothing,
            }
        }
    }

    /// The transfer after that access, where a read gave `byte`. A wait goes on after a
    /// pause, and is given up after the pause of its last try.
    pub open spec fn after(self, byte: u8) -> EcTransfer {
        if self.pausing {
            if self.tries >= EC_TRIES {
                self.in_next_stage()
            } else {
                EcTransfer { pausing: false, ..self }
            }
        } else if is_wait(self.stage) {
            if is_ready(self.stage, byte) {
                self.in_next_stage()
            } else {
                EcTransfer { tries: (self.tries + 1) as u8, pausing: true, ..self }
            }
        } else if self.stage is ReadValue {
            EcTransfer { value: byte, ..self.in_next_stage() }
        } else {
            self.in_next_stage()
        }
    }

    /// No more status reads than there are tries, and pauses only within waits.
    pub open spec fn wf(self) -> bool {
        &&& self.tries <= EC_TRIES
        &&& self.pausing ==> is_wait(self.stage) && self.tries >= 1
        &&& !self.pausing ==> self.tries < EC_TRIES
        &&& !is_wait(self.stage) ==> self.tries == 0
    }

    /// A transfer that is about to begin.
    pub open spec fn begins(self, cmd: u8, operand: u8, reads: bool) -> bool {
        &&& self.cmd == cmd
        &&& self.operand == operand
        &&& self.reads == reads
        &&& self.stage is AwaitCommand
        &&& self.tries == 0
        &&& !self.pausing
        &&& self.value == 0
    }

    /// A bound on the accesses that are left.
    pub open spec fn left(self) -> int {
        let stages: int = match self.stage {
            EcStage::AwaitCommand => 63,
            EcStage::WriteCommand => 43,
            EcStage::AwaitOperand => 42,
            EcStage::WriteOperand => 22,
            EcStage::AwaitValue => 21,
            EcStage::ReadValue => 1,
            EcStage::Done => 0,
        };
        stages - 2 * self.tries + if self.pausing {
            1int
        } else {
            0int
        }
    }

    /// The transfer after as many accesses as there are bytes, where each read gave the byte
    /// in its place.
    pub open spec fn run(self, bytes: Seq<u8>) -> EcTransfer
        decreases bytes.len(),
    {
        if bytes.len() == 0 {
            self
        } else {
            self.after(bytes[0]).run(bytes.skip(1))
        }
    }

    /// What is written in the course of those accesses: ports and bytes.
    pub open spec fn writes(self, bytes: Seq<u8>) -> Seq<(u64, u8)>
        decreases bytes.len(),
    {
        if bytes.len() == 0 {
            seq![]
        } else {
            let rest: Seq<(u64, u8)> = self.after(bytes[0]).writes(bytes.skip(1));
            match self.next_access() {
                EcAccess::Write(port, value) => seq![(port, value)] + rest,
                _ => rest,
            }
        }
    }

    /// What is read from the data port in the course of those accesses.
    pub open spec fn data_reads(self, bytes: Seq<u8>) -> Seq<u8>
        decreases bytes.len(),
    {
        if bytes.len() == 0 {
            seq![]
        } else {
            let rest: Seq<u8> = self.after(bytes[0]).data_reads(bytes.skip(1));
            if self.next_access() == EcAccess::Read(EC_PORT_DATA) {
                seq![bytes[0]] + rest
            } else {
                rest
            }
        }
    }

    /// What is still to be written.
    pub open spec fn pending(self) -> Seq<(u64, u8)> {
        match self.stage {
            EcStage::AwaitCommand | EcStage::WriteCommand => seq![
                (EC_PORT_CMD, self.cmd),
                (EC_PORT_DATA, self.operand),
            ],
            EcStage::AwaitOperand | EcStage::WriteOperand => seq![(EC_PORT_DATA, self.operand)],
            _ => seq![],
        }
    }

    /// The read of a register.
    pub fn read_reg(cmd: u8, addr: u8) -> (r: EcTransfer)
        ensures
            r.wf(),
            r.begins(cmd, addr, true),
    {
        EcTransfer {
            cmd,
            operand: addr,
            reads: true,
            stage: EcStage::AwaitCommand,
            tries: 0,
            pausing: false,
            value: 0,
        }
    }

    /// The read of the processor's temperature.
    pub fn read_cpu_temp() -> (r: EcTransfer)
        ensures
            r.wf(),
            r.begins(EC_CMD_TEMP, EC_REG_CPU_TEMP, true),
    {
        EcTransfer::read_reg(EC_CMD_TEMP, EC_REG_CPU_TEMP)
    }

    /// The read of the graphics' temperature.
    pub fn read_gpu_temp() -> (r: EcTransfer)
        ensures
            r.wf(),
            r.begins(EC_CMD_TEMP, EC_REG_GPU_TEMP, true),
    {
        EcTransfer::read_reg(EC_CMD_TEMP, EC_REG_GPU_TEMP)
    }

    /// The read of the high byte of the fan's speed.
    pub fn read_fan_hi() -> (r: EcTransfer)
        ensures
            r.wf(),
            r.begins(EC_CMD_FAN, EC_REG_FAN_HI, true),
    {
        EcTransfer::read_reg(EC_CMD_FAN, EC_REG_FAN_HI)
    }

    /// The read of the low byte of the fan's speed.
    pub fn read_fan_lo() -> (r: EcTransfer)
        ensures
            r.wf(),
            r.begins(EC_CMD_FAN, EC_REG_FAN_LO, true),
    {
        EcTransfer::read_reg(EC_CMD_FAN, EC_REG_FAN_LO)
    }

    /// The write of a performance mode.
    pub fn set_mode(mode: u8) -> (r: EcTransfer)
        ensures
            r.wf(),
            r.begins(EC_CMD_MODE, mode, false),
    {
        EcTransfer {
            cmd: EC_CMD_MODE,
            operand: mode,
            reads: false,
            stage: EcStage::AwaitCommand,
            tries: 0,
            pausing: false,
            value: 0,
        }
    }

    /// The access that comes next.
    pub fn access(&self) -> (r: EcAccess)
        ensures
            r == self.next_access(),
    {
        if self.pausing {
            return EcAccess::Pause;
        }
        match self.stage {
            EcStage::AwaitCommand => EcAccess::Read(EC_PORT_CMD),
            EcStage::WriteCommand => EcAccess::Write(EC_PORT_CMD, self.cmd),
            EcStage::AwaitOperand => EcAccess::Read(EC_PORT_CMD),
            EcStage::WriteOperand => EcAccess::Write(EC_PORT_DATA, self.operand),
            EcStage::AwaitValue => EcAccess::Read(EC_PORT_CMD),
            EcStage::ReadValue => EcAccess::Read(EC_PORT_DATA),
            EcStage::Done => EcAccess::Nothing,
        }
    }

    fn enter_next_stage(&mut self)
        ensures
            *final(self) == old(self).in_next_stage(),
    {
        self.stage = match self.stage {
            EcStage::AwaitCommand => EcStage::WriteCommand,
            EcStage::WriteCommand => EcStage::AwaitOperand,
            EcStage::AwaitOperand => EcStage::WriteOperand,
            EcStage::WriteOperand => if self.reads {
                EcStage::AwaitValue
            } else {
                EcStage::Done
            },
            EcStage::AwaitValue => EcStage::ReadValue,
            EcStage::ReadValue => EcStage::Done,
            EcStage::Done => EcStage::Done,
        };
        self.tries = 0;
        self.pausing = false;
    }

    /// One status read of a wait: whether the wait goes on.
    fn wait_status(&self, status: u8) -> (r: bool)
        requires
            is_wait(self.stage),
        ensures
            r == !is_ready(self.stage, status),
    {
        if self.stage == EcStage::AwaitValue {
            status & EC_OUTPUT_FULL == 0
        } else {
            status & EC_INPUT_FULL != 0
        }
    }

    /// Records that the access was performed, and the byte where it was a read.
    pub fn advance(&mut self, byte: u8)
        requires
            old(self).wf(),
        ensures
            final(self).wf(),
            *final(self) == old(self).after(byte),
    {
        if self.pausing {
            if self.tries >= EC_TRIES {
                self.enter_next_stage();
            } else {
                self.pausing = false;
            }
            return;
        }
        match self.stage {
            EcStage::AwaitCommand | EcStage::AwaitOperand | EcStage::AwaitValue => {
                if self.wait_status(byte) {
                    self.tries = self.tries + 1;
                    self.pausing = true;
                } else {
                    self.enter_next_stage();
                }
            },
            EcStage::ReadValue => {
                self.enter_next_stage();
                self.value = byte;
            },
            _ => {
                self.enter_next_stage();
            },
        }
    }
}

/// A transfer never blocks: every access leaves fewer of them to come, so that after 63 at
/// most it is complete, whatever the controller answers.
pub proof fn transfers_end(t: EcTransfer, bytes: Seq<u8>)
    requires
        t.wf(),
        bytes.len() >= t.left(),
    ensures
        t.left() <= 63,
        t.run(bytes).stage is Done,
    decreases bytes.len(),
{
    if bytes.len() > 0 {
        assert(t.after(bytes[0]).wf());
        assert(t.stage is Done || t.after(bytes[0]).left() < t.left());
        transfers_end(t.after(bytes[0]), bytes.skip(1));
    }
}

/// A complete transfer has written its command to the command port and then its operand to
/// the data port, once each, and nothing else.
pub proof fn transfers_write_in_order(t: EcTransfer, bytes: Seq<u8>)
    requires
        t.wf(),
        t.run(bytes).stage is Done,
    ensures
        t.writes(bytes) == t.pending(),
    decreases bytes.len(),
{
    if bytes.len() > 0 {
        let u: EcTransfer = t.after(bytes[0]);
        transfers_write_in_order(u, bytes.skip(1));
        if !t.pausing && t.stage is WriteCommand {
            assert(seq![(EC_PORT_CMD, t.cmd)] + u.pending() =~= t.pending());
        } else if !t.pausing && t.stage is WriteOperand {
            assert(seq![(EC_PORT_DATA, t.operand)] + u.pending() =~= t.pending());
        } else {
            assert(u.pending() =~= t.pending());
        }
    }
}

/// A complete read has read the data port once, and its value is what was there.
pub proof fn transfers_return_what_was_read(
    t: EcTransfer,
    cmd: u8,
    addr: u8,
    bytes: Seq<u8>,
)
    requires
        t.begins(cmd, addr, true),
        t.run(bytes).stage is Done,
    ensures
        t.data_reads(bytes) == seq![t.run(bytes).value],
{
    lemma_data_reads(t, bytes);
}

proof fn lemma_data_reads(t: EcTransfer, bytes: Seq<u8>)
    requires
        t.wf(),
        t.reads,
        t.run(bytes).stage is Done,
    ensures
        t.data_reads(bytes) == (if t.stage is Done {
            Seq::<u8>::empty()
        } else {
            seq![t.run(bytes).value]
        }),
        t.stage is Done ==> t.run(bytes).value == t.value,
    decreases bytes.len(),
{
    if bytes.len() > 0 {
        lemma_data_reads(t.after(bytes[0]), bytes.skip(1));
        if t.stage is ReadValue {
            assert(seq![bytes[0]] + Seq::<u8>::empty() =~= seq![bytes[0]]);
        }
    }
}

/// The fan's speed, from its two registers.
pub fn fan_rpm(hi: u8, lo: u8) -> (r: i64)
    ensures
        r == hi * 256 + lo,
{
    hi as i64 * 256 + lo as i64
}

/// A temperature register's value is the temperature.
pub fn temp_c(value: u8) -> (r: i64)
    ensures
        r == value,
{
    value as i64
}

/// The controller's temperature, or `fallback` where there is none or it is above `max`.
pub open spec fn plausible_temp(reading: Option<u8>, max: i64, fallback: i64) -> i64 {
    match reading {
        Some(t) => if t as i64 <= max {
            t as i64
        } else {
            fallback
        },
        None => fallback,
    }
}

/// The controller's temperature, or `fallback` where there is none or it is above `max`.
pub fn sane_temp(reading: Option<u8>, max: i64, fallback: i64) -> (r: i64)
    ensures
        r == plausible_temp(reading, max, fallback),
{
    match reading {
        Some(t) => {
            let c: i64 = temp_c(t);
            if c <= max {
                c
            } else {
                fallback
            }
        },
        None => fallback,
    }
}

/// The fan's speed, or the last accepted one where there is none or it is not plausible.
pub open spec fn plausible_fan(registers: Option<(u8, u8)>, last: i64) -> i64 {
    match registers {
        Some((hi, lo)) => if hi * 256 + lo < FAN_RPM_SANITY_MAX {
            (hi * 256 + lo) as i64
        } else {
            last
        },
        None => last,
    }
}

/// The fan's speed, or the last accepted one where there is none or it is not plausible.
pub fn sane_fan(registers: Option<(u8, u8)>, last: i64) -> (r: i64)
    ensures
        r == plausible_fan(registers, last),
{
    match registers {
        Some((hi, lo)) => {
            let rpm: i64 = fan_rpm(hi, lo);
            if rpm < FAN_RPM_SANITY_MAX {
                rpm
            } else {
                last
            }
        },
        None => last,
    }
}

/// A fan speed that was accepted once is plausible, and stays so: torn readings never show.
pub proof fn fan_stays_plausible(registers: Option<(u8, u8)>, last: i64)
    requires
        0 <= last < FAN_RPM_SANITY_MAX,
    ensures
        0 <= plausible_fan(registers, last) < FAN_RPM_SANITY_MAX,
{
}

/// A temperature that is shown is the fallback or within the limit.
pub proof fn temp_stays_plausible(reading: Option<u8>, max: i64, fallback: i64)
    ensures
        plausible_temp(reading, max, fallback) == fallback || 0 <= plausible_temp(
            reading,
            max,
            fallback,
        ) <= max,
{
}

/// A wait for an empty input buffer looks at the second bit of the status, and a wait for a
/// full output buffer at the first; no other bit matters. A wait that is over goes on to the
/// next stage, and any other pauses.
pub proof fn waits_look_at_one_bit(t: EcTransfer, status: u8)
    requires
        t.wf(),
        !t.pausing,
        is_wait(t.stage),
    ensures
        ({
            let ready: bool = if t.stage is AwaitValue {
                status % 2 == 1
            } else {
                (status / 2) % 2 == 0
            };
            &&& t.next_access() == EcAccess::Read(0x6C)
            &&& ready ==> t.after(status).stage == t.following() && !t.after(status).pausing
            &&& !ready ==> t.after(status).next_access() == EcAccess::Pause && t.after(
                status,
            ).stage == t.stage && t.after(status).tries == t.tries + 1
        }),
{
    assert((status & 0x01 != 0) == (status % 2 == 1)) by (bit_vector);
    assert((status & 0x02 == 0) == ((status / 2) % 2 == 0)) by (bit_vector);
}

/// A wait is given up with the pause after its tenth try, and not before.
pub proof fn waits_have_ten_tries(t: EcTransfer, byte: u8)
    requires
        t.wf(),
        t.pausing,
    ensures
        t.tries == 10 ==> t.after(byte).stage == t.following() && !t.after(byte).pausing,
        t.tries < 10 ==> t.after(byte).stage == t.stage && t.after(byte).next_access()
            == EcAccess::Read(0x6C),
{
}

/// With a controller that is always ready, a read takes six accesses: the status, the command
/// to the port `0x6C`, the status, the register to the port `0x68`, the status, and the value
/// from the port `0x68`.
pub proof fn ready_controllers_are_read_at_once(
    t: EcTransfer,
    cmd: u8,
    addr: u8,
    s1: u8,
    s2: u8,
    s3: u8,
    value: u8,
)
    requires
        t.begins(cmd, addr, true),
        (s1 / 2) % 2 == 0,
        (s2 / 2) % 2 == 0,
        s3 % 2 == 1,
    ensures
        ({
            let a: EcTransfer = t.after(s1);
            let b: EcTransfer = a.after(0);
            let c: EcTransfer = b.after(s2);
            let d: EcTransfer = c.after(0);
            let e: EcTransfer = d.after(s3);
            &&& t.next_access() == EcAccess::Read(0x6C)
            &&& a.next_access() == EcAccess::Write(0x6C, cmd)
            &&& b.next_access() == EcAccess::Read(0x6C)
            &&& c.next_access() == EcAccess::Write(0x68, addr)
            &&& d.next_access() == EcAccess::Read(0x6C)
            &&& e.next_access() == EcAccess::Read(0x68)
            &&& e.after(value).next_access() == EcAccess::Nothing
            &&& e.after(value).value == value
        }),
{
    waits_look_at_one_bit(t, s1);
    let b: EcTransfer = t.after(s1).after(0);
    waits_look_at_one_bit(b, s2);
    let d: EcTransfer = b.after(s2).after(0);
    waits_look_at_one_bit(d, s3);
}

/// With a controller that is always ready, a mode takes four accesses.
pub proof fn ready_controllers_are_set_at_once(t: EcTransfer, mode: u8, s1: u8, s2: u8)
    requires
        t.begins(EC_CMD_MODE, mode, false),
        (s1 / 2) % 2 == 0,
        (s2 / 2) % 2 == 0,
    ensures
        ({
            let a: EcTransfer = t.after(s1);
            let b: EcTransfer = a.after(0);
            let c: EcTransfer = b.after(s2);
            &&& a.next_access() == EcAccess::Write(0x6C, 0xDE)
            &&& b.next_access() == EcAccess::Read(0x6C)
            &&& c.next_access() == EcAccess::Write(0x68, mode)
            &&& c.after(0).next_access() == EcAccess::Nothing
        }),
{
    waits_look_at_one_bit(t, s1);
    waits_look_at_one_bit(t.after(s1).after(0), s2);
}

/// A temperature within the limit is shown as it is, and any other is replaced. The limits
/// are 99 degrees for the processor and 100 for the graphics.
pub proof fn temperatures_within_the_limit_are_shown(t: u8, fallback: i64)
    ensures
        plausible_temp(Some(t), EC_CPU_TEMP_SANITY_MAX, fallback) == (if t <= 99 {
            t as i64
        } else {
            fallback
        }),
        plausible_temp(Some(t), EC_GPU_TEMP_SANITY_MAX, fallback) == (if t <= 100 {
            t as i64
        } else {
            fallback
        }),
        forall|max: i64| #[trigger] plausible_temp(None, max, fallback) == fallback,
{
}

/// A fan speed below 4000 is shown as it is: 256 times the high byte, and the low byte. Any
/// other is replaced by the last one.
pub proof fn fan_speeds_below_the_limit_are_shown(hi: u8, lo: u8, last: i64)
    ensures
        plausible_fan(Some((hi, lo)), last) == (if 256 * hi + lo < 4000 {
            256 * hi + lo
        } else {
            last as int
        }),
        plausible_fan(None, last) == last,
{
}

} // verus!
