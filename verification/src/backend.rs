//! Which graphics device is shown: a discrete card before the integrated graphics.
//!
//! An NVIDIA card is asked through `nvidia-smi`, an AMD card through the files of the
//! `amdgpu` driver. Both give temperature and load themselves; the integrated graphics have
//! their temperature from the embedded controller and their load from the i915 counters.
use crate::gpu::GpuBusy;
use crate::numbers::{integer, natural, parse_i64, parse_u64};
use crate::procfs::first_line;
use crate::text::{
    is_blank, is_word, lacks, lines, parts, parts_end_at_separators, parts_of, same_text, texts,
    trim, trim_of, trimming_takes_off_white_space,
};
use vstd::prelude::*;

verus! {

broadcast use vstd::string::group_string_axioms;

/// The arguments with which `nvidia-smi` reports what is read here: for each card one line,
/// with the name, the temperature and the load between commas.
pub fn nvidia_query() -> (r: Vec<String>)
    ensures
        r.len() == 2,
        r[0]@ == "--query-gpu=name,temperature.gpu,utilization.gpu"@,
        r[1]@ == "--format=csv,noheader,nounits"@,
{
    vec![
        "--query-gpu=name,temperature.gpu,utilization.gpu".to_string(),
        "--format=csv,noheader,nounits".to_string(),
    ]
}

/// What the report says of the first card: name, temperature, load. Without a report, and
/// without a name or with fewer fields, there is no working card.
pub open spec fn card_fields(report: Option<&str>) -> Option<Seq<Seq<char>>> {
    match report {
        Some(text) => {
            let fields: Seq<Seq<char>> = parts_of(first_line(text@), ',');
            if fields.len() >= 3 && trim_of(fields[0]).len() > 0 {
                Some(seq![trim_of(fields[0]), trim_of(fields[1]), trim_of(fields[2])])
            } else {
                None
            }
        },
        None => None,
    }
}

/// A percentage that a driver gives, zero where it gives none, and 100 at most.
pub open spec fn driver_percent(text: Seq<char>) -> int {
    match natural(text, 10, u64::MAX as nat) {
        Some(n) => if n < 100 {
            n as int
        } else {
            100
        },
        None => 0,
    }
}

/// The first card's temperature, zero where the report gives none.
pub open spec fn card_degrees(report: Option<&str>) -> int {
    match card_fields(report) {
        Some(fields) => match integer(fields[1]) {
            Some(n) => n,
            None => 0,
        },
        None => 0,
    }
}

/// The first card's load, zero where the report gives none.
pub open spec fn card_percent(report: Option<&str>) -> int {
    match card_fields(report) {
        Some(fields) => driver_percent(fields[2]),
        None => 0,
    }
}

/// The percentage in a driver's file, zero where it cannot be read.
pub open spec fn percent_in(contents: Option<&str>) -> int {
    match contents {
        Some(text) => driver_percent(trim_of(text@)),
        None => 0,
    }
}

/// What `nvidia-smi` reports of the first card.
#[derive(Debug)]
pub struct NvidiaCard {
    pub name: String,
    pub temp: i64,
    pub usage: i64,
}

fn read_percent(text: &str) -> (r: i64)
    ensures
        r == driver_percent(text@),
        0 <= r <= 100,
{
    match parse_u64(text) {
        Some(n) => if n < 100 {
            n as i64
        } else {
            100
        },
        None => 0,
    }
}

/// What `nvidia-smi` reports of the first card, where one works.
pub fn nvidia_card(report: Option<&str>) -> (r: Option<NvidiaCard>)
    ensures
        match r {
            Some(card) => {
                &&& card_fields(report) matches Some(fields)
                &&& card.name@ == fields[0]
                &&& card.temp == card_degrees(report)
                &&& card.usage == card_percent(report)
                &&& 0 <= card.usage <= 100
            },
            None => card_fields(report) is None,
        },
{
    match report {
        Some(text) => {
            let ls: Vec<&str> = lines(text);
            assert(texts(ls@).len() == ls.len());
            if ls.len() == 0 {
                proof {
                    lemma_no_fields(first_line(text@));
                }
                return None;
            }
            assert(texts(ls@)[0] == ls[0]@);
            let fields: Vec<&str> = parts(ls[0], ',');
            assert(texts(fields@).len() == fields.len());
            if fields.len() < 3 {
                return None;
            }
            assert(texts(fields@)[0] == fields[0]@);
            assert(texts(fields@)[1] == fields[1]@);
            assert(texts(fields@)[2] == fields[2]@);
            let name: &str = trim(fields[0]);
            if name.is_empty() {
                return None;
            }
            let temp: i64 = match parse_i64(trim(fields[1])) {
                Some(n) => n,
                None => 0,
            };
            Some(NvidiaCard { name: name.to_string(), temp, usage: read_percent(trim(fields[2])) })
        },
        None => None,
    }
}

proof fn lemma_no_fields(line: Seq<char>)
    requires
        line.len() == 0,
    ensures
        parts_of(line, ',').len() == 1,
{
}

/// The load in the file of the `amdgpu` driver, zero where it cannot be read.
pub fn amd_usage(contents: Option<&str>) -> (r: i64)
    ensures
        r == percent_in(contents),
        0 <= r <= 100,
{
    match contents {
        Some(text) => read_percent(trim(text)),
        None => 0,
    }
}

/// The device has the `amdgpu` driver.
pub open spec fn is_amd(driver: Option<String>) -> bool {
    driver matches Some(name) && name@ == "amdgpu"@
}

/// `r` is the position of the first device of the `amdgpu` driver.
pub open spec fn is_first_amd(drivers: Seq<Option<String>>, r: Option<usize>) -> bool {
    match r {
        Some(i) => {
            &&& i < drivers.len()
            &&& is_amd(drivers[i as int])
            &&& forall|j: int| 0 <= j < i ==> !is_amd(#[trigger] drivers[j])
        },
        None => forall|j: int| 0 <= j < drivers.len() ==> !is_amd(#[trigger] drivers[j]),
    }
}

fn find_amd(drivers: &Vec<Option<String>>) -> (r: Option<usize>)
    ensures
        is_first_amd(drivers@, r),
{
    let mut i: usize = 0;
    while i < drivers.len()
        invariant
            i <= drivers.len(),
            forall|j: int| 0 <= j < i ==> !is_amd(#[trigger] drivers[j]),
        decreases drivers.len() - i,
    {
        let found: bool = match &drivers[i] {
            Some(name) => same_text(name.as_str(), "amdgpu"),
            None => false,
        };
        if found {
            return Some(i);
        }
        i = i + 1;
    }
    None
}

/// The graphics device that is shown.
#[derive(Debug)]
pub enum GpuBackend {
    /// A card that `nvidia-smi` reports.
    Nvidia,
    /// The card at this position among the devices, with the `amdgpu` driver.
    Amd(usize),
    /// The integrated graphics, with the i915 counters where they could be opened.
    Integrated(Option<GpuBusy>),
}

impl GpuBackend {
    /// A working NVIDIA card comes first, an AMD card second, and the integrated graphics
    /// last.
    pub fn detect(
        nvidia: Option<&str>,
        drivers: &Vec<Option<String>>,
        counters: Option<GpuBusy>,
    ) -> (r: GpuBackend)
        ensures
            match r {
                GpuBackend::Nvidia => card_fields(nvidia) is Some,
                GpuBackend::Amd(i) => card_fields(nvidia) is None && is_first_amd(
                    drivers@,
                    Some(i),
                ),
                GpuBackend::Integrated(busy) => card_fields(nvidia) is None && is_first_amd(
                    drivers@,
                    None,
                ) && busy == counters,
            },
    {
        if nvidia_card(nvidia).is_some() {
            return GpuBackend::Nvidia;
        }
        match find_amd(drivers) {
            Some(i) => GpuBackend::Amd(i),
            None => GpuBackend::Integrated(counters),
        }
    }

    /// The arguments with which `lspci` names the device: the AMD card in its slot, and
    /// otherwise the display controllers.
    pub fn listing_args(&self, slot: &str) -> (r: Vec<String>)
        ensures
            r.len() == 3,
            r[0]@ == "-mm"@,
            r[1]@ == (if self is Amd {
                "-s"@
            } else {
                "-d"@
            }),
            r[2]@ == (if self is Amd {
                slot@
            } else {
                "::0300"@
            }),
    {
        match self {
            GpuBackend::Amd(_) => vec!["-mm".to_string(), "-s".to_string(), slot.to_string()],
            _ => vec!["-mm".to_string(), "-d".to_string(), "::0300".to_string()],
        }
    }
}

/// The first line of the report gives name, temperature and load between commas, each
/// without the white space around it; further fields and lines do not matter.
pub proof fn reports_give_three_fields(
    text: &str,
    name: Seq<char>,
    temp: Seq<char>,
    load: Seq<char>,
    more: Seq<char>,
)
    requires
        lacks(name, ','),
        lacks(temp, ','),
        lacks(load, ','),
        first_line(text@) == name.push(',') + (temp.push(',') + load) || first_line(text@)
            == name.push(',') + (temp.push(',') + (load.push(',') + more)),
    ensures
        trim_of(name).len() > 0 ==> card_fields(Some(text)) == Some(
            seq![trim_of(name), trim_of(temp), trim_of(load)],
        ),
        trim_of(name).len() == 0 ==> card_fields(Some(text)) is None,
        card_fields(None) is None,
{
    parts_end_at_separators(name, ',', temp.push(',') + load);
    parts_end_at_separators(temp, ',', load);
    parts_end_at_separators(name, ',', temp.push(',') + (load.push(',') + more));
    parts_end_at_separators(temp, ',', load.push(',') + more);
    parts_end_at_separators(load, ',', more);
    let ps: Seq<Seq<char>> = seq![name] + (seq![temp] + seq![load]);
    let qs: Seq<Seq<char>> = seq![name] + (seq![temp] + (seq![load] + parts_of(more, ',')));
    assert(ps[0] == name && ps[1] == temp && ps[2] == load);
    assert(qs[0] == name && qs[1] == temp && qs[2] == load);
}

/// A report with fewer commas gives nothing.
pub proof fn short_reports_give_nothing(text: &str, a: Seq<char>, b: Seq<char>)
    requires
        lacks(a, ','),
        lacks(b, ','),
    ensures
        first_line(text@) == a ==> card_fields(Some(text)) is None,
        first_line(text@) == a.push(',') + b ==> card_fields(Some(text)) is None,
{
    parts_end_at_separators(a, ',', b);
    parts_end_at_separators(b, ',', seq![]);
    assert((seq![a] + seq![b]).len() == 2);
}

/// A card's temperature is the integer in its field, and its load the number in its field, 100
/// at most; a field that holds none counts as zero.
pub proof fn fields_are_numbers(report: Option<&str>, fields: Seq<Seq<char>>)
    requires
        card_fields(report) == Some(fields),
    ensures
        integer(fields[1]) matches Some(n) ==> card_degrees(report) == n,
        integer(fields[1]) is None ==> card_degrees(report) == 0,
        natural(fields[2], 10, 100) matches Some(n) ==> card_percent(report) == n,
        natural(fields[2], 10, u64::MAX as nat) is None ==> card_percent(report) == 0,
        natural(fields[2], 10, u64::MAX as nat) matches Some(n) ==> (n >= 100 ==> card_percent(
            report,
        ) == 100),
        0 <= card_percent(report) <= 100,
{
}

/// The file of the load holds a number between white space, 100 at most.
pub proof fn loads_are_numbers(text: &str, a: Seq<char>, number: Seq<char>, b: Seq<char>)
    requires
        text@ == a + number + b,
        is_blank(a),
        is_blank(b),
        is_word(number),
    ensures
        natural(number, 10, 100) matches Some(n) ==> percent_in(Some(text)) == n,
        natural(number, 10, u64::MAX as nat) is None ==> percent_in(Some(text)) == 0,
        natural(number, 10, u64::MAX as nat) matches Some(n) ==> (n >= 100 ==> percent_in(
            Some(text),
        ) == 100),
        percent_in(None) == 0,
{
    trimming_takes_off_white_space(a, number, b);
}

/// Of the devices the first with the driver `amdgpu` is found, where there is one.
pub proof fn amd_cards_are_found(drivers: Seq<Option<String>>, r: Option<usize>, i: int)
    requires
        is_first_amd(drivers, r),
        0 <= i < drivers.len(),
        drivers[i] matches Some(name) && name@ == "amdgpu"@,
    ensures
        r matches Some(j) && j <= i && (drivers[j as int] matches Some(name) && name@
            == "amdgpu"@),
{
    assert(is_amd(drivers[i]));
}

} // verus!
