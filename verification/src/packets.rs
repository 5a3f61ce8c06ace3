//! What is sent to the panel in each cycle.
use crate::backend::{
    amd_usage, card_degrees, card_percent, nvidia_card, percent_in, GpuBackend,
};
use crate::binary64::Binary64;
use crate::date::{date_payload, date_text, now_local, LocalTime};
use crate::decimal::{one_decimal, push_one_decimal, shows_tenths};
use crate::disk::{disk_usage, FsSize};
use crate::ec::{
    fan_speeds_below_the_limit_are_shown, plausible_fan, plausible_temp, sane_fan, sane_temp,
    temperatures_within_the_limit_are_shown, EC_CPU_TEMP_SANITY_MAX, EC_GPU_TEMP_SANITY_MAX,
    FAN_RPM_SANITY_MAX,
};
use crate::frames::{
    CMD_CPU, CMD_DATE, CMD_DISK, CMD_GPU, CMD_MEMORY, CMD_SPEED, CMD_VOLUME,
};
use crate::gpu::{
    counters_fit, engines, gpu_load, load_is_a_percentage, still_engines_are_idle, GpuBusy,
};
use crate::host::HostInfo;
use crate::numbers::{dec_int, push_i64};
use crate::percent::{
    percent, percent_grows_with_the_part, percent_is_almost_nearest, percent_is_nearest,
    percent_is_within_bounds, percent_of,
};
use crate::procfs::{
    busy_percent, checked_cpu_times, cpu_fields, cpu_percent, eight_numbers_are_the_total, figure,
    idle_ticks, minus, parse_cpu_times, parse_meminfo, total_ticks, CpuTimes, MemInfo,
};
use crate::rates::{
    format_rate, gigabytes, push_used, rate_of, rate_text, sizes_are_the_nearest,
    still_counters_have_no_rate, to_gigabytes, transfer_rate, used_text,
};
use crate::sensors::{cpu_freq_khz, integer_in, read_temp_c, thousandths};
use crate::text::lines_of;
use vstd::prelude::*;

verus! {

broadcast use vstd::string::group_string_axioms;

/// The payload about the processor. The frequency is in kHz.
pub open spec fn cpu_text(name: Seq<char>, temp: int, usage: int, freq: int, temp1: int) -> Seq<
    char,
> {
    "{CPU:"@ + name + ";Tempr:"@ + dec_int(temp) + ";Useage:"@ + dec_int(usage) + ";Freq:"@
        + dec_int(freq) + ";Tempr1:"@ + dec_int(temp1) + ";}"@
}

/// The payload about the processor.
pub fn cpu_payload(name: &str, temp: i64, usage: i64, freq: i64, temp1: i64) -> (r: String)
    ensures
        r@ == cpu_text(name@, temp as int, usage as int, freq as int, temp1 as int),
{
    let mut r: String = "{CPU:".to_string();
    r.append(name);
    r.append(";Tempr:");
    push_i64(&mut r, temp);
    r.append(";Useage:");
    push_i64(&mut r, usage);
    r.append(";Freq:");
    push_i64(&mut r, freq);
    r.append(";Tempr1:");
    push_i64(&mut r, temp1);
    r.append(";}");
    r
}

/// The payload about the graphics.
pub open spec fn gpu_text(name: Seq<char>, temp: int, usage: int) -> Seq<char> {
    "{GPU:"@ + name + ";Tempr:"@ + dec_int(temp) + ";Useage:"@ + dec_int(usage) + "}"@
}

/// The payload about the graphics.
pub fn gpu_payload(name: &str, temp: i64, usage: i64) -> (r: String)
    ensures
        r@ == gpu_text(name@, temp as int, usage as int),
{
    let mut r: String = "{GPU:".to_string();
    r.append(name);
    r.append(";Tempr:");
    push_i64(&mut r, temp);
    r.append(";Useage:");
    push_i64(&mut r, usage);
    r.append("}");
    r
}

/// The share of the memory that is in use, in percent.
pub open spec fn memory_percent(m: MemInfo) -> nat {
    if m.total_kb > 0 {
        percent_of(minus(m.total_kb, m.available_kb), m.total_kb as nat)
    } else {
        0
    }
}

/// The payload about the memory, in gigabytes.
pub open spec fn memory_text(m: MemInfo) -> Seq<char> {
    "{Memory:Generic Memory;Used:"@ + used_text(m.total_kb, m.available_kb) + ";Available:"@
        + one_decimal(gigabytes(m.available_kb)) + ";Total:"@ + one_decimal(gigabytes(m.total_kb))
        + ";Useage:"@ + dec_int(memory_percent(m) as int) + "}"@
}

/// No more is available than there is, unless the total is not known.
pub open spec fn memory_fits(m: MemInfo) -> bool {
    m.total_kb == 0 || m.available_kb <= m.total_kb
}

/// The payload about the memory.
pub fn memory_payload(m: &MemInfo) -> (r: String)
    requires
        memory_fits(*m),
    ensures
        r@ == memory_text(*m),
{
    let used: i64 = if m.total_kb > 0 {
        percent(m.total_kb - m.available_kb, m.total_kb)
    } else {
        0
    };
    let mut r: String = "{Memory:Generic Memory;Used:".to_string();
    push_used(&mut r, m.total_kb, m.available_kb);
    r.append(";Available:");
    push_one_decimal(&mut r, to_gigabytes(m.available_kb));
    r.append(";Total:");
    push_one_decimal(&mut r, to_gigabytes(m.total_kb));
    r.append(";Useage:");
    push_i64(&mut r, used);
    r.append("}");
    r
}

/// The bytes in use, and those in all.
pub open spec fn disk_bytes(size: Option<FsSize>) -> (nat, nat) {
    match size {
        Some(s) => (
            minus((s.blocks * s.block_size) as u64, (s.free_blocks * s.block_size) as u64),
            (s.blocks * s.block_size) as nat,
        ),
        None => (0, 0),
    }
}

/// The sizes and the share can be computed in 64 bits.
pub open spec fn disk_fits(size: Option<FsSize>) -> bool {
    size matches Some(s) ==> {
        &&& s.blocks * s.block_size <= u64::MAX
        &&& s.free_blocks * s.block_size <= u64::MAX
        &&& disk_bytes(size).0 * 100 <= u64::MAX
    }
}

/// The payload about the disk, in whole gigabytes and percent, rounded down.
pub open spec fn disk_text(name: Seq<char>, temp: int, used: nat, total: nat) -> Seq<char> {
    "{DiskName:"@ + name + ";Tempr:"@ + dec_int(temp) + ";UsageSpace:"@ + dec_int(
        (used / 0x4000_0000) as int,
    ) + ";AllSpace:"@ + dec_int((total / 0x4000_0000) as int) + ";Usage:"@ + dec_int(
        if total > 0 {
            ((used * 100) / total) as int
        } else {
            0
        },
    ) + "}"@
}

/// The payload about the disk.
pub fn disk_payload(name: &str, temp: i64, used: u64, total: u64) -> (r: String)
    requires
        used <= total,
        used * 100 <= u64::MAX,
    ensures
        r@ == disk_text(name@, temp as int, used as nat, total as nat),
{
    let share: u64 = if total > 0 {
        used * 100 / total
    } else {
        0
    };
    assert(share <= 100) by {
        if total > 0 {
            assert((used * 100) / (total as int) <= 100) by (nonlinear_arith)
                requires
                    used <= total,
                    total > 0,
            ;
        }
    }
    let mut r: String = "{DiskName:".to_string();
    r.append(name);
    r.append(";Tempr:");
    push_i64(&mut r, temp);
    r.append(";UsageSpace:");
    push_i64(&mut r, (used / 0x4000_0000) as i64);
    r.append(";AllSpace:");
    push_i64(&mut r, (total / 0x4000_0000) as i64);
    r.append(";Usage:");
    push_i64(&mut r, share as i64);
    r.append("}");
    r
}

/// The payload about the fan and the network: revolutions per minute, then the rate of what
/// is sent and of what is received.
pub open spec fn speed_text(rpm: int, sent: Seq<char>, received: Seq<char>) -> Seq<char> {
    "{SPEED:"@ + dec_int(rpm) + ";NETWORK:"@ + sent + ","@ + received + "}"@
}

/// The payload about the fan and the network.
pub fn speed_payload(rpm: i64, sent: &str, received: &str) -> (r: String)
    ensures
        r@ == speed_text(rpm as int, sent@, received@),
{
    let mut r: String = "{SPEED:".to_string();
    push_i64(&mut r, rpm);
    r.append(";NETWORK:");
    r.append(sent);
    r.append(",");
    r.append(received);
    r.append("}");
    r
}

/// The payload about the volume.
pub open spec fn volume_text(percent: int) -> Seq<char> {
    "{VOLUME:"@ + dec_int(percent) + "}"@
}

/// The payload about the volume.
pub fn volume_payload(percent: i64) -> (r: String)
    ensures
        r@ == volume_text(percent as int),
{
    let mut r: String = "{VOLUME:".to_string();
    push_i64(&mut r, percent);
    r.append("}");
    r
}

/// What the embedded controller's registers hold.
#[derive(Clone, Copy, Debug, PartialEq, Eq)]
pub struct EcReadings {
    pub cpu_temp: u8,
    pub gpu_temp: u8,
    pub fan_hi: u8,
    pub fan_lo: u8,
}

/// What was read from the machine for one cycle.
#[derive(Debug)]
pub struct Readings<'a> {
    /// The file of the processor's temperature sensor.
    pub cpu_temp: Option<&'a str>,
    /// `/proc/stat`.
    pub stat: &'a str,
    /// The file of the processor's frequency.
    pub cpu_freq: Option<&'a str>,
    /// The embedded controller, where it can be reached.
    pub ec: Option<EcReadings>,
    /// The counters of the graphics engines, and the time since they were last read.
    pub gpu_counters: Vec<u64>,
    pub gpu_elapsed_ns: u64,
    /// What `nvidia-smi` reports.
    pub nvidia: Option<&'a str>,
    /// The files of the AMD card's load and of its temperature sensor.
    pub amd_busy: Option<&'a str>,
    pub amd_temp: Option<&'a str>,
    /// `/proc/meminfo`.
    pub meminfo: &'a str,
    /// The size of the root file system.
    pub disk: Option<FsSize>,
    /// The file of the disk's temperature sensor.
    pub disk_temp: Option<&'a str>,
    pub time: LocalTime,
    /// The bytes received and sent so far, and the time since they were last read.
    pub net: (u64, u64),
    pub net_secs: u64,
    pub net_nanos: u32,
    /// The volume in percent.
    pub volume: i64,
}

/// What is kept from one cycle to the next.
#[derive(Debug)]
pub struct State {
    pub prev_cpu: CpuTimes,
    /// The bytes received and sent.
    pub prev_net: (u64, u64),
    /// The last fan speed that was plausible.
    pub last_fan_rpm: i64,
    /// The graphics device that is shown.
    pub gpu: GpuBackend,
}

impl State {
    /// The fan speed that is kept is plausible.
    pub open spec fn wf(self) -> bool {
        0 <= self.last_fan_rpm < FAN_RPM_SANITY_MAX
    }

    /// The state before the first cycle.
    pub fn new(prev_cpu: CpuTimes, prev_net: (u64, u64), gpu: GpuBackend) -> (r: State)
        ensures
            r.prev_cpu == prev_cpu,
            r.prev_net == prev_net,
            r.last_fan_rpm == 0,
            r.gpu == gpu,
            r.wf(),
    {
        State { prev_cpu, prev_net, last_fan_rpm: 0, gpu }
    }
}

impl<'a> Readings<'a> {
    /// The processor's temperature.
    pub open spec fn cpu_degrees(self) -> int {
        thousandths(integer_in(self.cpu_temp))
    }

    /// The processor's ticks so far.
    pub open spec fn ticks(self) -> CpuTimes {
        CpuTimes {
            idle: idle_ticks(cpu_fields(self.stat@)) as u64,
            total: total_ticks(cpu_fields(self.stat@)) as u64,
        }
    }

    /// The machine's memory.
    pub open spec fn memory(self) -> MemInfo {
        MemInfo {
            total_kb: figure(lines_of(self.meminfo@), "MemTotal:"@) as u64,
            available_kb: figure(lines_of(self.meminfo@), "MemAvailable:"@) as u64,
        }
    }

    /// The controller's processor temperature.
    pub open spec fn ec_cpu_temp(self) -> Option<u8> {
        match self.ec {
            Some(e) => Some(e.cpu_temp),
            None => None,
        }
    }

    /// The controller's graphics temperature.
    pub open spec fn ec_gpu_temp(self) -> Option<u8> {
        match self.ec {
            Some(e) => Some(e.gpu_temp),
            None => None,
        }
    }

    /// The controller's fan registers.
    pub open spec fn ec_fan(self) -> Option<(u8, u8)> {
        match self.ec {
            Some(e) => Some((e.fan_hi, e.fan_lo)),
            None => None,
        }
    }

    /// The load of the graphics: a card's own figure, or that of the counters since the
    /// state was kept.
    pub open spec fn gpu_percent(self, s: State) -> int {
        match s.gpu {
            GpuBackend::Nvidia => card_percent(self.nvidia),
            GpuBackend::Amd(_) => percent_in(self.amd_busy),
            GpuBackend::Integrated(Some(g)) => gpu_load(
                g.prev@,
                self.gpu_counters@,
                self.gpu_elapsed_ns,
            ),
            GpuBackend::Integrated(None) => 0,
        }
    }

    /// The temperature of the graphics: a card's own figure, or that of the controller
    /// unless it is torn or missing.
    pub open spec fn gpu_degrees(self, s: State) -> int {
        match s.gpu {
            GpuBackend::Nvidia => card_degrees(self.nvidia),
            GpuBackend::Amd(_) => thousandths(integer_in(self.amd_temp)),
            GpuBackend::Integrated(_) => plausible_temp(
                self.ec_gpu_temp(),
                EC_GPU_TEMP_SANITY_MAX,
                self.cpu_degrees() as i64,
            ) as int,
        }
    }

    /// All of it can be computed in the width of the machine's numbers.
    pub open spec fn fits(self, s: State) -> bool {
        &&& total_ticks(cpu_fields(self.stat@)) <= u64::MAX
        &&& memory_fits(self.memory())
        &&& disk_fits(self.disk)
        &&& self.time.is_in_range()
        &&& s.gpu matches GpuBackend::Integrated(Some(g)) ==> counters_fit(
            g.prev@,
            self.gpu_counters@,
            self.gpu_elapsed_ns,
        )
    }

    /// The payload about the processor. Both temperatures are shown: the kernel's, and that
    /// of the controller unless it is torn or missing.
    pub open spec fn cpu_message(self, host: HostInfo, s: State) -> Seq<char> {
        cpu_text(
            host.cpu_name@,
            self.cpu_degrees(),
            busy_percent(s.prev_cpu, self.ticks()) as int,
            integer_in(self.cpu_freq),
            plausible_temp(
                self.ec_cpu_temp(),
                EC_CPU_TEMP_SANITY_MAX,
                self.cpu_degrees() as i64,
            ) as int,
        )
    }

    /// The payload about the graphics.
    pub open spec fn gpu_message(self, host: HostInfo, s: State) -> Seq<char> {
        gpu_text(host.gpu_name@, self.gpu_degrees(s), self.gpu_percent(s))
    }

    /// The payload about the disk.
    pub open spec fn disk_message(self, host: HostInfo) -> Seq<char> {
        disk_text(
            host.disk_label@,
            thousandths(integer_in(self.disk_temp)),
            disk_bytes(self.disk).0,
            disk_bytes(self.disk).1,
        )
    }

    /// The payload about the fan and the network.
    pub open spec fn speed_message(self, s: State) -> Seq<char> {
        speed_text(
            plausible_fan(self.ec_fan(), s.last_fan_rpm) as int,
            rate_text(rate_of(s.prev_net.1, self.net.1, self.net_secs, self.net_nanos)),
            rate_text(rate_of(s.prev_net.0, self.net.0, self.net_secs, self.net_nanos)),
        )
    }

    /// The messages of one cycle: command and payload, in the order in which they are sent.
    pub open spec fn messages(self, host: HostInfo, s: State) -> Seq<(u8, Seq<char>)> {
        seq![
            (CMD_CPU, self.cpu_message(host, s)),
            (CMD_GPU, self.gpu_message(host, s)),
            (CMD_MEMORY, memory_text(self.memory())),
            (CMD_DISK, self.disk_message(host)),
            (CMD_DATE, date_text(self.time.parts())),
            (CMD_SPEED, self.speed_message(s)),
            (CMD_VOLUME, volume_text(self.volume as int)),
        ]
    }

    /// The state `t` is what is kept of the cycle after the state `s`.
    pub open spec fn is_kept(self, s: State, t: State) -> bool {
        &&& t.prev_cpu == self.ticks()
        &&& t.prev_net == self.net
        &&& t.last_fan_rpm == plausible_fan(self.ec_fan(), s.last_fan_rpm)
        &&& match s.gpu {
            GpuBackend::Integrated(Some(_)) => {
                &&& t.gpu matches GpuBackend::Integrated(Some(h))
                &&& h.prev@ == self.gpu_counters@
            },
            _ => t.gpu == s.gpu,
        }
    }

    /// All of it can be computed in the width of the machine's numbers.
    pub fn check(&self, state: &State) -> (r: bool)
        ensures
            r == self.fits(*state),
    {
        let m: MemInfo = parse_meminfo(self.meminfo);
        let gpu: bool = match &state.gpu {
            GpuBackend::Integrated(Some(g)) => g.fits(&self.gpu_counters, self.gpu_elapsed_ns),
            _ => true,
        };
        gpu && checked_cpu_times(self.stat).is_some() && (m.total_kb == 0 || m.available_kb
            <= m.total_kb) && check_disk(&self.disk) && self.time.check()
    }
}

/// The sizes and the share can be computed in 64 bits.
fn check_disk(size: &Option<FsSize>) -> (r: bool)
    ensures
        r == disk_fits(*size),
{
    match size {
        Some(s) => match s.blocks.checked_mul(s.block_size) {
            Some(total) => match s.free_blocks.checked_mul(s.block_size) {
                Some(free) => total.saturating_sub(free) <= u64::MAX / 100,
                None => false,
            },
            None => false,
        },
        None => true,
    }
}

/// The packets' commands and payloads.
pub open spec fn packet_views(packets: Seq<(u8, String)>) -> Seq<(u8, Seq<char>)> {
    packets.map_values(|p: (u8, String)| (p.0, p.1@))
}

/// The packets of one cycle: command and payload, in the order in which they are sent.
pub fn build_packets(host: &HostInfo, readings: Readings, state: &mut State) -> (r: Vec<
    (u8, String),
>)
    requires
        readings.fits(*old(state)),
    ensures
        packet_views(r@) == readings.messages(*host, *old(state)),
        readings.is_kept(*old(state), *final(state)),
        old(state).wf() ==> final(state).wf(),
{
    let ghost before: State = *state;
    let cpu_temp: i64 = read_temp_c(readings.cpu_temp);
    let times: CpuTimes = parse_cpu_times(readings.stat);
    let cpu_usage: i64 = cpu_percent(&state.prev_cpu, &times);
    state.prev_cpu = times;
    let freq: i64 = cpu_freq_khz(readings.cpu_freq);
    let (ec_cpu, ec_gpu, ec_fan): (Option<u8>, Option<u8>, Option<(u8, u8)>) = match readings.ec {
        Some(e) => (Some(e.cpu_temp), Some(e.gpu_temp), Some((e.fan_hi, e.fan_lo))),
        None => (None, None, None),
    };
    let cpu_temp_ec: i64 = sane_temp(ec_cpu, EC_CPU_TEMP_SANITY_MAX, cpu_temp);
    let cpu: String = cpu_payload(
        host.cpu_name.as_str(),
        cpu_temp,
        cpu_usage,
        freq,
        cpu_temp_ec,
    );

    let (gpu_temp, gpu_usage): (i64, i64) = match &mut state.gpu {
        GpuBackend::Nvidia => match nvidia_card(readings.nvidia) {
            Some(card) => (card.temp, card.usage),
            None => (0, 0),
        },
        GpuBackend::Amd(_) => (read_temp_c(readings.amd_temp), amd_usage(readings.amd_busy)),
        GpuBackend::Integrated(busy) => (
            sane_temp(ec_gpu, EC_GPU_TEMP_SANITY_MAX, cpu_temp),
            gpu_usage(busy, readings.gpu_counters, readings.gpu_elapsed_ns),
        ),
    };
    let gpu: String = gpu_payload(host.gpu_name.as_str(), gpu_temp, gpu_usage);

    let memory: String = memory_payload(&parse_meminfo(readings.meminfo));

    let (used, total): (u64, u64) = disk_usage(readings.disk);
    let disk: String = disk_payload(
        host.disk_label.as_str(),
        read_temp_c(readings.disk_temp),
        used,
        total,
    );

    let date: String = date_payload(&now_local(readings.time));

    let rpm: i64 = sane_fan(ec_fan, state.last_fan_rpm);
    state.last_fan_rpm = rpm;
    let rx: Binary64 = transfer_rate(
        state.prev_net.0,
        readings.net.0,
        readings.net_secs,
        readings.net_nanos,
    );
    let tx: Binary64 = transfer_rate(
        state.prev_net.1,
        readings.net.1,
        readings.net_secs,
        readings.net_nanos,
    );
    state.prev_net = readings.net;
    let speed: String = speed_payload(rpm, format_rate(tx).as_str(), format_rate(rx).as_str());

    let volume: String = volume_payload(readings.volume);

    let r: Vec<(u8, String)> = vec![
        (CMD_CPU, cpu),
        (CMD_GPU, gpu),
        (CMD_MEMORY, memory),
        (CMD_DISK, disk),
        (CMD_DATE, date),
        (CMD_SPEED, speed),
        (CMD_VOLUME, volume),
    ];
    assert(packet_views(r@) == readings.messages(*host, before));
    r
}

/// The load of the graphics, zero where there are no counters.
fn gpu_usage(gpu: &mut Option<GpuBusy>, cur: Vec<u64>, elapsed_ns: u64) -> (r: i64)
    requires
        *old(gpu) matches Some(g) ==> counters_fit(g.prev@, cur@, elapsed_ns),
    ensures
        match *old(gpu) {
            Some(g) => {
                &&& r == gpu_load(g.prev@, cur@, elapsed_ns)
                &&& *final(gpu) matches Some(h)
                &&& h.prev@ == cur@
            },
            None => r == 0 && *final(gpu) is None,
        },
{
    match gpu.take() {
        Some(mut g) => {
            let load: i64 = g.percent(cur, elapsed_ns);
            *gpu = Some(g);
            load
        },
        None => 0,
    }
}

/// Each cycle sends one packet of each kind, always in the same order.
pub proof fn each_kind_is_sent_once(readings: Readings, host: HostInfo, s: State)
    ensures
        readings.messages(host, s).map_values(|m: (u8, Seq<char>)| m.0) == seq![
            CMD_CPU,
            CMD_GPU,
            CMD_MEMORY,
            CMD_DISK,
            CMD_DATE,
            CMD_SPEED,
            CMD_VOLUME,
        ],
{
    assert(readings.messages(host, s).map_values(|m: (u8, Seq<char>)| m.0) =~= seq![
        CMD_CPU,
        CMD_GPU,
        CMD_MEMORY,
        CMD_DISK,
        CMD_DATE,
        CMD_SPEED,
        CMD_VOLUME,
    ]);
}

/// Without the controller, and on integrated graphics without counters, both controller
/// temperatures are the kernel's, the load of the graphics is zero, and the fan shows the
/// last speed, which is zero at first.
pub proof fn values_fall_back_without_root(readings: Readings, host: HostInfo, s: State)
    requires
        readings.fits(s),
        readings.ec is None,
        s.gpu == GpuBackend::Integrated(None),
    ensures
        readings.cpu_message(host, s) == cpu_text(
            host.cpu_name@,
            readings.cpu_degrees(),
            busy_percent(s.prev_cpu, readings.ticks()) as int,
            integer_in(readings.cpu_freq),
            readings.cpu_degrees(),
        ),
        readings.gpu_message(host, s) == gpu_text(host.gpu_name@, readings.cpu_degrees(), 0),
        readings.speed_message(s) == speed_text(
            s.last_fan_rpm as int,
            rate_text(rate_of(s.prev_net.1, readings.net.1, readings.net_secs, readings.net_nanos)),
            rate_text(rate_of(s.prev_net.0, readings.net.0, readings.net_secs, readings.net_nanos)),
        ),
{
    lemma_degrees_fit(readings.cpu_temp);
}

proof fn lemma_degrees_fit(contents: Option<&str>)
    ensures
        i64::MIN <= thousandths(integer_in(contents)) <= i64::MAX,
{
}

/// A discrete card's temperature and load are the card's own, whatever the controller and
/// the counters of the integrated graphics say.
pub proof fn cards_give_their_own_figures(
    readings: Readings,
    others: Readings,
    host: HostInfo,
    s: State,
)
    requires
        !(s.gpu is Integrated),
        readings.nvidia == others.nvidia,
        readings.amd_busy == others.amd_busy,
        readings.amd_temp == others.amd_temp,
    ensures
        readings.gpu_message(host, s) == others.gpu_message(host, s),
{
}

/// A cycle in which no counter moved shows an idle machine: no load, and no traffic. (A
/// discrete card gives its load itself.)
pub proof fn still_machines_show_no_load(readings: Readings, host: HostInfo, s: State)
    requires
        readings.ticks() == s.prev_cpu,
        readings.net == s.prev_net,
        s.gpu matches GpuBackend::Integrated(Some(g)) ==> g.prev@ == readings.gpu_counters@,
    ensures
        busy_percent(s.prev_cpu, readings.ticks()) == 0,
        s.gpu is Integrated ==> readings.gpu_percent(s) == 0,
        readings.speed_message(s) == speed_text(
            plausible_fan(readings.ec_fan(), s.last_fan_rpm) as int,
            "0.0K/s"@,
            "0.0K/s"@,
        ),
{
    still_counters_have_no_rate(
        s.prev_net.0,
        readings.net.0,
        readings.net_secs,
        readings.net_nanos,
    );
    still_counters_have_no_rate(
        s.prev_net.1,
        readings.net.1,
        readings.net_secs,
        readings.net_nanos,
    );
    match s.gpu {
        GpuBackend::Integrated(Some(g)) => {
            still_engines_are_idle(g.prev@, readings.gpu_elapsed_ns);
        },
        _ => {},
    }
}

/// What is kept of a cycle is what the next one compares with: a second cycle with the same
/// readings shows an idle machine, and the same fan speed.
pub proof fn repeated_readings_show_no_load(
    readings: Readings,
    host: HostInfo,
    before: State,
    kept: State,
)
    requires
        readings.is_kept(before, kept),
    ensures
        busy_percent(kept.prev_cpu, readings.ticks()) == 0,
        kept.gpu is Integrated ==> readings.gpu_percent(kept) == 0,
        readings.speed_message(kept) == speed_text(
            kept.last_fan_rpm as int,
            "0.0K/s"@,
            "0.0K/s"@,
        ),
{
    still_machines_show_no_load(readings, host, kept);
}

/// The shares that are shown are percentages.
pub proof fn shares_are_percentages(readings: Readings, s: State)
    requires
        readings.fits(s),
    ensures
        busy_percent(s.prev_cpu, readings.ticks()) <= 100,
        0 <= readings.gpu_percent(s) <= 100,
        memory_percent(readings.memory()) <= 100,
        disk_bytes(readings.disk).0 <= disk_bytes(readings.disk).1,
{
    let total: nat = minus(readings.ticks().total, s.prev_cpu.total);
    let idle: nat = minus(readings.ticks().idle, s.prev_cpu.idle);
    if total > 0 {
        percent_is_within_bounds(
            if idle >= total {
                0
            } else {
                (total - idle) as nat
            },
            total,
        );
    }
    match s.gpu {
        GpuBackend::Integrated(Some(g)) => {
            load_is_a_percentage(g.prev@, readings.gpu_counters@, readings.gpu_elapsed_ns);
        },
        _ => {},
    }
    let m: MemInfo = readings.memory();
    if m.total_kb > 0 {
        percent_is_within_bounds(minus(m.total_kb, m.available_kb), m.total_kb as nat);
    }
}

/// The share of the memory that is shown is the nearest whole percent of what is not
/// available.
pub proof fn memory_share_is_what_is_not_available(m: MemInfo)
    requires
        0 < m.total_kb,
        m.available_kb <= m.total_kb,
    ensures
        ({
            let used: int = m.total_kb - m.available_kb;
            let error: int = 2 * (memory_percent(m) * m.total_kb - 100 * used);
            let bound: int = 0x20_0000_0000_0000 * m.total_kb + 1600 * used;
            &&& m.total_kb <= 0x1_0000_0000 ==> -m.total_kb <= error <= m.total_kb
            &&& -bound <= 0x20_0000_0000_0000 * error <= bound
        }),
        m.available_kb == m.total_kb ==> memory_percent(m) == 0,
        m.available_kb == 0 ==> memory_percent(m) == 100,
{
    let used: nat = (m.total_kb - m.available_kb) as nat;
    percent_is_almost_nearest(used, m.total_kb as nat);
    percent_is_within_bounds(used, m.total_kb as nat);
    if m.total_kb <= 0x1_0000_0000 {
        percent_is_nearest(used, m.total_kb as nat);
    }
}

/// More available memory never shows a greater share in use; without a total none is shown.
pub proof fn available_memory_never_raises_the_share(m: MemInfo, n: MemInfo)
    requires
        m.total_kb == n.total_kb,
        m.available_kb <= n.available_kb <= n.total_kb,
    ensures
        memory_percent(n) <= memory_percent(m) <= 100,
        m.total_kb == 0 ==> memory_percent(m) == 0,
{
    if m.total_kb > 0 {
        let whole: nat = m.total_kb as nat;
        let a: nat = (m.total_kb - m.available_kb) as nat;
        let b: nat = (n.total_kb - n.available_kb) as nat;
        percent_grows_with_the_part(b, a, whole);
        percent_is_within_bounds(a, whole);
    }
}

/// The memory's message tells, in gigabytes with one digit behind the point, what is in use,
/// what is available and what there is, and then the share in use; each to the nearest.
pub proof fn memory_message_can_be_read_back(m: MemInfo)
    requires
        0 < m.total_kb <= 0x1_0000_0000,
        m.available_kb <= m.total_kb,
    ensures
        exists|u: Seq<char>, a: Seq<char>, t: Seq<char>, p: int|
            #![trigger
                is_gigabytes(u, m.total_kb - m.available_kb),
                is_gigabytes(a, m.available_kb as int),
                is_gigabytes(t, m.total_kb as int),
                dec_int(p)]
            {
                &&& memory_text(m) == "{Memory:Generic Memory;Used:"@ + u + ";Available:"@ + a
                    + ";Total:"@ + t + ";Useage:"@ + dec_int(p) + "}"@
                &&& is_gigabytes(u, m.total_kb - m.available_kb)
                &&& is_gigabytes(a, m.available_kb as int)
                &&& is_gigabytes(t, m.total_kb as int)
                &&& -m.total_kb <= 2 * (p * m.total_kb - 100 * (m.total_kb - m.available_kb))
                    <= m.total_kb
            },
{
    let u: Seq<char> = used_text(m.total_kb, m.available_kb);
    let a: Seq<char> = one_decimal(gigabytes(m.available_kb));
    let t: Seq<char> = one_decimal(gigabytes(m.total_kb));
    let p: int = memory_percent(m) as int;
    sizes_are_the_nearest(m.total_kb, m.available_kb);
    sizes_are_the_nearest(m.available_kb, 0);
    memory_share_is_what_is_not_available(m);
    assert(is_gigabytes(u, m.total_kb - m.available_kb));
    assert(is_gigabytes(a, m.available_kb as int));
    assert(is_gigabytes(t, m.total_kb as int));
    assert(memory_text(m) == "{Memory:Generic Memory;Used:"@ + u + ";Available:"@ + a + ";Total:"@
        + t + ";Useage:"@ + dec_int(p) + "}"@);
}

/// The text is `kb` kilobytes in gigabytes, with the nearest digit behind the point.
pub open spec fn is_gigabytes(s: Seq<char>, kb: int) -> bool {
    exists|t: nat|
        #[trigger] shows_tenths(s, t) && -0x10_0000 <= 2 * (t * 0x10_0000 - 10 * kb) <= 0x10_0000
}

/// The disk's message tells the whole gigabytes in use and in all, and the whole percents in
/// use, each rounded down.
pub proof fn disk_message_can_be_read_back(name: Seq<char>, temp: int, used: nat, total: nat)
    ensures
        exists|g: int, h: int, p: int|
            #![trigger dec_int(g), dec_int(h), dec_int(p)]
            {
                &&& disk_text(name, temp, used, total) == "{DiskName:"@ + name + ";Tempr:"@
                    + dec_int(temp) + ";UsageSpace:"@ + dec_int(g) + ";AllSpace:"@ + dec_int(h)
                    + ";Usage:"@ + dec_int(p) + "}"@
                &&& g * 0x4000_0000 <= used < (g + 1) * 0x4000_0000
                &&& h * 0x4000_0000 <= total < (h + 1) * 0x4000_0000
                &&& total > 0 ==> p * total <= 100 * used < (p + 1) * total
                &&& total == 0 ==> p == 0
            },
{
    let g: int = (used / 0x4000_0000) as int;
    let h: int = (total / 0x4000_0000) as int;
    let p: int = if total > 0 {
        ((used * 100) / total) as int
    } else {
        0
    };
    if total > 0 {
        assert(p * total <= 100 * used && 100 * used < (p + 1) * total) by (nonlinear_arith)
            requires
                p == (used * 100) as int / total as int,
                total > 0,
        ;
    }
    assert(disk_text(name, temp, used, total) == "{DiskName:"@ + name + ";Tempr:"@ + dec_int(temp)
        + ";UsageSpace:"@ + dec_int(g) + ";AllSpace:"@ + dec_int(h) + ";Usage:"@ + dec_int(p)
        + "}"@);
}

/// The bytes in use and the free ones are all of them; where more is free than there is,
/// nothing is in use. A size that is not known is nothing.
pub proof fn used_and_free_are_all(s: FsSize)
    requires
        disk_fits(Some(s)),
    ensures
        disk_bytes(Some(s)).1 == s.blocks * s.block_size,
        s.free_blocks * s.block_size <= s.blocks * s.block_size ==> disk_bytes(Some(s)).0
            + s.free_blocks * s.block_size == s.blocks * s.block_size,
        s.free_blocks * s.block_size >= s.blocks * s.block_size ==> disk_bytes(Some(s)).0 == 0,
        disk_bytes(None) == (0nat, 0nat),
{
    assert(0 <= s.blocks * s.block_size && 0 <= s.free_blocks * s.block_size) by (nonlinear_arith);
}

/// The figures in the messages about the processor, the graphics and the fan, from the
/// readings themselves.
pub proof fn messages_show_the_readings(readings: Readings, host: HostInfo, s: State)
    requires
        readings.fits(s),
    ensures
        ({
            let t: int = thousandths(integer_in(readings.cpu_temp));
            let usage: int = busy_percent(s.prev_cpu, readings.ticks()) as int;
            let t1: int = match readings.ec {
                Some(e) => if e.cpu_temp <= 99 {
                    e.cpu_temp as int
                } else {
                    t
                },
                None => t,
            };
            let t2: int = match readings.ec {
                Some(e) => if e.gpu_temp <= 100 {
                    e.gpu_temp as int
                } else {
                    t
                },
                None => t,
            };
            let rpm: int = match readings.ec {
                Some(e) => if 256 * e.fan_hi + e.fan_lo < 4000 {
                    256 * e.fan_hi + e.fan_lo
                } else {
                    s.last_fan_rpm as int
                },
                None => s.last_fan_rpm as int,
            };
            let up: Seq<char> = rate_text(
                rate_of(s.prev_net.1, readings.net.1, readings.net_secs, readings.net_nanos),
            );
            let down: Seq<char> = rate_text(
                rate_of(s.prev_net.0, readings.net.0, readings.net_secs, readings.net_nanos),
            );
            let messages: Seq<(u8, Seq<char>)> = readings.messages(host, s);
            &&& messages.len() == 7
            &&& messages[0] == (0x32u8, "{CPU:"@ + host.cpu_name@ + ";Tempr:"@ + dec_int(t)
                + ";Useage:"@ + dec_int(usage) + ";Freq:"@ + dec_int(
                integer_in(readings.cpu_freq),
            ) + ";Tempr1:"@ + dec_int(t1) + ";}"@)
            &&& s.gpu is Integrated ==> messages[1] == (0x33u8, "{GPU:"@ + host.gpu_name@
                + ";Tempr:"@ + dec_int(t2) + ";Useage:"@ + dec_int(readings.gpu_percent(s)) + "}"@)
            &&& messages[2] == (0x34u8, memory_text(readings.memory()))
            &&& messages[3] == (0x35u8, disk_text(
                host.disk_label@,
                thousandths(integer_in(readings.disk_temp)),
                disk_bytes(readings.disk).0,
                disk_bytes(readings.disk).1,
            ))
            &&& messages[4] == (0x36u8, date_text(readings.time.parts()))
            &&& messages[5] == (0x37u8, "{SPEED:"@ + dec_int(rpm) + ";NETWORK:"@ + up + ","@ + down
                + "}"@)
            &&& messages[6] == (0x39u8, "{VOLUME:"@ + dec_int(readings.volume as int) + "}"@)
        }),
{
    lemma_degrees_fit(readings.cpu_temp);
    match readings.ec {
        Some(e) => {
            temperatures_within_the_limit_are_shown(e.cpu_temp, readings.cpu_degrees() as i64);
            temperatures_within_the_limit_are_shown(e.gpu_temp, readings.cpu_degrees() as i64);
            fan_speeds_below_the_limit_are_shown(e.fan_hi, e.fan_lo, s.last_fan_rpm);
        },
        None => {},
    }
}

/// The graphics' figures by the device that is shown.
pub proof fn graphics_show_their_own_figures(readings: Readings, host: HostInfo, s: State)
    ensures
        readings.messages(host, s)[1] == (0x33u8, "{GPU:"@ + host.gpu_name@ + ";Tempr:"@ + dec_int(
            readings.gpu_degrees(s),
        ) + ";Useage:"@ + dec_int(readings.gpu_percent(s)) + "}"@),
        s.gpu is Nvidia ==> readings.gpu_percent(s) == card_percent(readings.nvidia)
            && readings.gpu_degrees(s) == card_degrees(readings.nvidia),
        s.gpu is Amd ==> readings.gpu_percent(s) == percent_in(readings.amd_busy)
            && readings.gpu_degrees(s) == thousandths(integer_in(readings.amd_temp)),
        s.gpu matches GpuBackend::Integrated(Some(g)) ==> readings.gpu_percent(s) == gpu_load(
            g.prev@,
            readings.gpu_counters@,
            readings.gpu_elapsed_ns,
        ),
        s.gpu == GpuBackend::Integrated(None) ==> readings.gpu_percent(s) == 0,
{
}

/// What a cycle keeps is what it read.
pub proof fn cycles_keep_what_they_read(readings: Readings, before: State, kept: State)
    requires
        readings.fits(before),
        readings.is_kept(before, kept),
    ensures
        kept.prev_cpu.idle == idle_ticks(cpu_fields(readings.stat@)),
        kept.prev_cpu.total == total_ticks(cpu_fields(readings.stat@)),
        kept.prev_net == readings.net,
        readings.ec matches Some(e) ==> (256 * e.fan_hi + e.fan_lo < 4000 ==> kept.last_fan_rpm
            == 256 * e.fan_hi + e.fan_lo),
        readings.ec is None ==> kept.last_fan_rpm == before.last_fan_rpm,
        before.gpu is Integrated == kept.gpu is Integrated,
        before.gpu matches GpuBackend::Integrated(Some(_)) ==> (
        kept.gpu matches GpuBackend::Integrated(Some(h)) && h.prev@ == readings.gpu_counters@),
{
    eight_numbers_are_the_total(cpu_fields(readings.stat@));
}

/// The readings can be computed exactly where none of the sums and products exceeds the
/// machine's numbers, and no more memory is available than there is.
pub proof fn readings_fit_in_the_numbers(readings: Readings, s: State)
    ensures
        readings.fits(s) <==> {
            &&& total_ticks(cpu_fields(readings.stat@)) <= 0xffff_ffff_ffff_ffff
            &&& readings.memory().total_kb == 0 || readings.memory().available_kb
                <= readings.memory().total_kb
            &&& readings.disk matches Some(d) ==> {
                &&& d.blocks * d.block_size <= 0xffff_ffff_ffff_ffff
                &&& d.free_blocks * d.block_size <= 0xffff_ffff_ffff_ffff
                &&& (d.blocks * d.block_size - d.free_blocks * d.block_size) * 100
                    <= 0xffff_ffff_ffff_ffff
            }
            &&& readings.time.year <= 0x7fff_ffff - 1900
            &&& readings.time.month < 0x7fff_ffff
            &&& s.gpu matches GpuBackend::Integrated(Some(g)) ==> (readings.gpu_elapsed_ns > 0
                ==> forall|i: int|
                0 <= i < g.prev.len() && i < readings.gpu_counters.len() ==> (
                #[trigger] readings.gpu_counters[i] - g.prev[i]) * 100 <= 0xffff_ffff_ffff_ffff)
        },
{
    match readings.disk {
        Some(d) => {
            assert(0 <= d.blocks * d.block_size && 0 <= d.free_blocks * d.block_size)
                by (nonlinear_arith);
        },
        None => {},
    }
    match s.gpu {
        GpuBackend::Integrated(Some(g)) => {
            lemma_gains_fit(g.prev@, readings.gpu_counters@, readings.gpu_elapsed_ns);
        },
        _ => {},
    }
}

proof fn lemma_gains_fit(prev: Seq<u64>, cur: Seq<u64>, elapsed_ns: u64)
    ensures
        counters_fit(prev, cur, elapsed_ns) <==> (elapsed_ns > 0 ==> forall|i: int|
            0 <= i < prev.len() && i < cur.len() ==> (#[trigger] cur[i] - prev[i]) * 100
                <= 0xffff_ffff_ffff_ffff),
{
    if elapsed_ns > 0 {
        if counters_fit(prev, cur, elapsed_ns) {
            assert forall|i: int| 0 <= i < prev.len() && i < cur.len() implies (#[trigger] cur[i]
                - prev[i]) * 100 <= 0xffff_ffff_ffff_ffff by {
                assert(minus(cur[i], prev[i]) * 100 <= u64::MAX);
            }
        }
        if forall|i: int|
            0 <= i < prev.len() && i < cur.len() ==> (#[trigger] cur[i] - prev[i]) * 100
                <= 0xffff_ffff_ffff_ffff {
            assert forall|i: int| 0 <= i < engines(prev, cur) implies minus(
                #[trigger] cur[i],
                prev[i],
            ) * 100 <= u64::MAX by {
                assert((cur[i] - prev[i]) * 100 <= 0xffff_ffff_ffff_ffff);
            }
        }
    }
}

/// The memory's message has its four figures in their places, whatever they are.
pub proof fn memory_messages_have_four_figures(m: MemInfo)
    ensures
        memory_text(m) == "{Memory:Generic Memory;Used:"@ + used_text(
            m.total_kb,
            m.available_kb,
        ) + ";Available:"@ + one_decimal(gigabytes(m.available_kb)) + ";Total:"@ + one_decimal(
            gigabytes(m.total_kb),
        ) + ";Useage:"@ + dec_int(memory_percent(m) as int) + "}"@,
        m.total_kb == 0 && m.available_kb > 0 ==> used_text(m.total_kb, m.available_kb) == "-"@
            + one_decimal(gigabytes(m.available_kb)),
{
}

/// Each packet is seen as its command and its payload.
pub proof fn packets_are_seen_one_for_one(packets: Seq<(u8, String)>, i: int)
    requires
        0 <= i < packets.len(),
    ensures
        packet_views(packets).len() == packets.len(),
        packet_views(packets)[i] == (packets[i].0, packets[i].1@),
{
}

} // verus!
