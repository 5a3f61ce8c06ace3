//! The kernel's sensors and the figures in its one-line files.
use crate::numbers::{integer, parse_i64};
use crate::text::{
    is_blank, is_word, same_text, trim, trim_of, trimming_takes_off_white_space,
};
use vstd::prelude::*;

verus! {

broadcast use vstd::string::group_string_axioms;

/// The integer in a file, zero where the file cannot be read or holds none.
pub open spec fn integer_in(contents: Option<&str>) -> int {
    match contents {
        Some(text) => match integer(trim_of(text@)) {
            Some(v) => v,
            None => 0,
        },
        None => 0,
    }
}

/// The integer in a file, zero where the file cannot be read or holds none.
fn read_integer(contents: Option<&str>) -> (r: i64)
    ensures
        r == integer_in(contents),
{
    match contents {
        Some(text) => match parse_i64(trim(text)) {
            Some(v) => v,
            None => 0,
        },
        None => 0,
    }
}

/// `n / 1000`, rounded toward zero.
pub open spec fn thousandths(n: int) -> int {
    if n < 0 {
        -((-n) / 1000)
    } else {
        n / 1000
    }
}

/// The temperature in a sensor's file, which gives thousandths of a degree.
pub fn read_temp_c(contents: Option<&str>) -> (r: i64)
    ensures
        r == thousandths(integer_in(contents)),
{
    let milli: i64 = read_integer(contents);
    if milli < 0 {
        -(((-(milli as i128)) / 1000) as i64)
    } else {
        milli / 1000
    }
}

/// The processor's frequency in kHz, which is the unit of the kernel's file and of the panel.
pub fn cpu_freq_khz(contents: Option<&str>) -> (r: i64)
    ensures
        r == integer_in(contents),
{
    read_integer(contents)
}

/// A sensor device of the kernel.
#[derive(Debug)]
pub struct Hwmon {
    /// What its name file holds, where it can be read.
    pub name: Option<String>,
    /// The path of the device that it belongs to, with all links resolved.
    pub device: Option<Vec<u8>>,
}

impl Hwmon {
    /// The sensor has the name.
    pub open spec fn is_named(self, name: Seq<char>) -> bool {
        self.name matches Some(text) && trim_of(text@) == name
    }

    /// The sensor belongs to the device.
    pub open spec fn belongs_to(self, device: Seq<u8>) -> bool {
        self.device matches Some(path) && path@ == device
    }

    fn has_name(&self, name: &str) -> (r: bool)
        ensures
            r == self.is_named(name@),
    {
        match &self.name {
            Some(text) => same_text(trim(text.as_str()), name),
            None => false,
        }
    }

    fn has_device(&self, device: &Vec<u8>) -> (r: bool)
        ensures
            r == self.belongs_to(device@),
    {
        match &self.device {
            Some(path) => same_bytes(path, device),
            None => false,
        }
    }
}

fn same_bytes(a: &Vec<u8>, b: &Vec<u8>) -> (r: bool)
    ensures
        r == (a@ == b@),
{
    if a.len() != b.len() {
        return false;
    }
    let mut i: usize = 0;
    while i < a.len()
        invariant
            i <= a.len() == b.len(),
            forall|j: int| 0 <= j < i ==> a[j] == b[j],
        decreases a.len() - i,
    {
        if a[i] != b[i] {
            return false;
        }
        i = i + 1;
    }
    assert(a@ =~= b@);
    true
}

/// `r` is the position of the first sensor with the name.
pub open spec fn is_first_named(sensors: Seq<Hwmon>, name: Seq<char>, r: Option<usize>) -> bool {
    match r {
        Some(i) => {
            &&& i < sensors.len()
            &&& sensors[i as int].is_named(name)
            &&& forall|j: int| 0 <= j < i ==> !#[trigger] sensors[j].is_named(name)
        },
        None => forall|j: int| 0 <= j < sensors.len() ==> !#[trigger] sensors[j].is_named(name),
    }
}

/// The first sensor with the name.
pub fn find_hwmon_by_name(sensors: &Vec<Hwmon>, name: &str) -> (r: Option<usize>)
    ensures
        is_first_named(sensors@, name@, r),
{
    let mut i: usize = 0;
    while i < sensors.len()
        invariant
            i <= sensors.len(),
            forall|j: int| 0 <= j < i ==> !#[trigger] sensors[j].is_named(name@),
        decreases sensors.len() - i,
    {
        if sensors[i].has_name(name) {
            return Some(i);
        }
        i = i + 1;
    }
    None
}

/// No sensor has the name.
pub open spec fn none_named(sensors: Seq<Hwmon>, name: Seq<char>) -> bool {
    is_first_named(sensors, name, None)
}

/// `r` is the first sensor of the first of the processor drivers that has one.
pub open spec fn is_cpu_sensor(sensors: Seq<Hwmon>, r: Option<usize>) -> bool {
    if !none_named(sensors, "coretemp"@) {
        is_first_named(sensors, "coretemp"@, r)
    } else if !none_named(sensors, "k10temp"@) {
        is_first_named(sensors, "k10temp"@, r)
    } else if !none_named(sensors, "zenpower"@) {
        is_first_named(sensors, "zenpower"@, r)
    } else if !none_named(sensors, "cpu_thermal"@) {
        is_first_named(sensors, "cpu_thermal"@, r)
    } else {
        is_first_named(sensors, "acpitz"@, r)
    }
}

/// The processor's sensor: that of `coretemp`, `k10temp`, `zenpower`, `cpu_thermal` or
/// `acpitz`, the first of these that is there.
pub fn cpu_sensor(sensors: &Vec<Hwmon>) -> (r: Option<usize>)
    ensures
        is_cpu_sensor(sensors@, r),
{
    let coretemp: Option<usize> = find_hwmon_by_name(sensors, "coretemp");
    if coretemp.is_some() {
        return coretemp;
    }
    let k10temp: Option<usize> = find_hwmon_by_name(sensors, "k10temp");
    if k10temp.is_some() {
        return k10temp;
    }
    let zenpower: Option<usize> = find_hwmon_by_name(sensors, "zenpower");
    if zenpower.is_some() {
        return zenpower;
    }
    let cpu_thermal: Option<usize> = find_hwmon_by_name(sensors, "cpu_thermal");
    if cpu_thermal.is_some() {
        return cpu_thermal;
    }
    find_hwmon_by_name(sensors, "acpitz")
}

/// The sensor is the driver's, and belongs to the device.
pub open spec fn is_on_device(s: Hwmon, driver: Seq<char>, device: Seq<u8>) -> bool {
    s.is_named(driver) && s.belongs_to(device)
}

/// `r` is the position of the driver's first sensor on the device.
pub open spec fn is_first_on_device(
    sensors: Seq<Hwmon>,
    driver: Seq<char>,
    device: Seq<u8>,
    r: Option<usize>,
) -> bool {
    match r {
        Some(i) => {
            &&& i < sensors.len()
            &&& is_on_device(sensors[i as int], driver, device)
            &&& forall|j: int| 0 <= j < i ==> !is_on_device(#[trigger] sensors[j], driver, device)
        },
        None => forall|j: int|
            0 <= j < sensors.len() ==> !is_on_device(#[trigger] sensors[j], driver, device),
    }
}

fn find_on_device(sensors: &Vec<Hwmon>, driver: &str, device: &Vec<u8>) -> (r: Option<usize>)
    ensures
        is_first_on_device(sensors@, driver@, device@, r),
{
    let mut i: usize = 0;
    while i < sensors.len()
        invariant
            i <= sensors.len(),
            forall|j: int| 0 <= j < i ==> !is_on_device(#[trigger] sensors[j], driver@, device@),
        decreases sensors.len() - i,
    {
        if sensors[i].has_name(driver) && sensors[i].has_device(device) {
            return Some(i);
        }
        i = i + 1;
    }
    None
}

/// `r` is the disk's sensor: that of `nvme`, and otherwise that of `drivetemp`. A disk whose
/// path is not known has none.
pub open spec fn is_disk_sensor(
    sensors: Seq<Hwmon>,
    disk: Option<Vec<u8>>,
    r: Option<usize>,
) -> bool {
    match disk {
        Some(path) => if is_first_on_device(sensors, "nvme"@, path@, None) {
            is_first_on_device(sensors, "drivetemp"@, path@, r)
        } else {
            is_first_on_device(sensors, "nvme"@, path@, r)
        },
        None => r is None,
    }
}

/// The sensor of the disk whose device has the path `disk`.
pub fn disk_sensor(sensors: &Vec<Hwmon>, disk: &Option<Vec<u8>>) -> (r: Option<usize>)
    ensures
        is_disk_sensor(sensors@, *disk, r),
{
    match disk {
        Some(path) => {
            let nvme: Option<usize> = find_on_device(sensors, "nvme", path);
            if nvme.is_some() {
                return nvme;
            }
            find_on_device(sensors, "drivetemp", path)
        },
        None => None,
    }
}

/// The sensor of the graphics card whose device has the path `card`: that of `amdgpu`.
pub fn card_sensor(sensors: &Vec<Hwmon>, card: &Option<Vec<u8>>) -> (r: Option<usize>)
    ensures
        match *card {
            Some(path) => is_first_on_device(sensors@, "amdgpu"@, path@, r),
            None => r is None,
        },
{
    match card {
        Some(path) => find_on_device(sensors, "amdgpu", path),
        None => None,
    }
}

/// Degrees are whole thousands, rounded toward zero; below zero they mirror those above.
pub proof fn degrees_are_whole_thousands(n: int)
    requires
        n >= 0,
    ensures
        1000 * thousandths(n) <= n < 1000 * (thousandths(n) + 1),
        thousandths(-n) == -thousandths(n),
{
}

/// A file holds the integer between its white space; a file that holds none, or that cannot
/// be read, counts as zero.
pub proof fn files_hold_their_integer(
    text: &str,
    a: Seq<char>,
    number: Seq<char>,
    b: Seq<char>,
)
    requires
        text@ == a + number + b,
        is_blank(a),
        is_blank(b),
        is_word(number),
    ensures
        integer_in(Some(text)) == (match integer(number) {
            Some(v) => v,
            None => 0,
        }),
        integer_in(None) == 0,
{
    trimming_takes_off_white_space(a, number, b);
}

/// A sensor has the one name that stands in its file, without the white space around it.
pub proof fn sensors_have_one_name(s: Hwmon, a: Seq<char>, name: Seq<char>, b: Seq<char>)
    requires
        s.name matches Some(text) && text@ == a + name + b,
        is_blank(a),
        is_blank(b),
        is_word(name),
    ensures
        s.is_named(name),
        forall|other: Seq<char>| other != name ==> !#[trigger] s.is_named(other),
{
    trimming_takes_off_white_space(a, name, b);
}

/// Some sensor has the name.
pub open spec fn some_named(sensors: Seq<Hwmon>, name: Seq<char>) -> bool {
    exists|i: int| 0 <= i < sensors.len() && #[trigger] sensors[i].is_named(name)
}

/// The processor's sensor is there where one of its drivers is, and no driver that comes
/// earlier in the order `coretemp`, `k10temp`, `zenpower`, `cpu_thermal`, `acpitz` is passed
/// over.
pub proof fn processor_sensors_have_an_order(sensors: Seq<Hwmon>, r: Option<usize>)
    requires
        is_cpu_sensor(sensors, r),
    ensures
        some_named(sensors, "coretemp"@) ==> (r matches Some(i) && sensors[i as int].is_named(
            "coretemp"@,
        )),
        !some_named(sensors, "coretemp"@) && some_named(sensors, "k10temp"@) ==> (r matches Some(i)
            && sensors[i as int].is_named("k10temp"@)),
        !some_named(sensors, "coretemp"@) && !some_named(sensors, "k10temp"@) && some_named(
            sensors,
            "zenpower"@,
        ) ==> (r matches Some(i) && sensors[i as int].is_named("zenpower"@)),
        !some_named(sensors, "coretemp"@) && !some_named(sensors, "k10temp"@) && !some_named(
            sensors,
            "zenpower"@,
        ) && some_named(sensors, "cpu_thermal"@) ==> (r matches Some(i)
            && sensors[i as int].is_named("cpu_thermal"@)),
        !some_named(sensors, "coretemp"@) && !some_named(sensors, "k10temp"@) && !some_named(
            sensors,
            "zenpower"@,
        ) && !some_named(sensors, "cpu_thermal"@) && some_named(sensors, "acpitz"@) ==> (
        r matches Some(i) && sensors[i as int].is_named("acpitz"@)),
        r matches Some(i) ==> i < sensors.len(),
        r is None ==> !some_named(sensors, "coretemp"@) && !some_named(sensors, "k10temp"@)
            && !some_named(sensors, "zenpower"@) && !some_named(sensors, "cpu_thermal"@)
            && !some_named(sensors, "acpitz"@),
{
}

/// Of two sensors with the name the first is found.
pub proof fn first_sensors_are_found(
    sensors: Seq<Hwmon>,
    name: Seq<char>,
    r: Option<usize>,
    i: int,
)
    requires
        is_first_named(sensors, name, r),
        0 <= i < sensors.len(),
        sensors[i].is_named(name),
    ensures
        r matches Some(j) && j <= i && sensors[j as int].is_named(name),
{
}

/// A disk's sensor stands on the disk's own device, and is that of `nvme` or `drivetemp`; where
/// `nvme` has one on that device, it is that one.
pub proof fn disk_sensors_stand_on_the_disk(
    sensors: Seq<Hwmon>,
    path: Vec<u8>,
    r: Option<usize>,
    i: int,
)
    requires
        is_disk_sensor(sensors, Some(path), r),
        0 <= i < sensors.len(),
    ensures
        r matches Some(j) ==> {
            &&& j < sensors.len()
            &&& sensors[j as int].device matches Some(d) && d@ == path@
            &&& sensors[j as int].is_named("nvme"@) || sensors[j as int].is_named("drivetemp"@)
        },
        sensors[i].is_named("nvme"@) && (sensors[i].device matches Some(d) && d@ == path@) ==> (
        r matches Some(j) && j <= i && sensors[j as int].is_named("nvme"@)),
        sensors[i].is_named("drivetemp"@) && (sensors[i].device matches Some(d) && d@ == path@)
            ==> r is Some,
{
}

/// A driver's sensor on a device stands on that device, and is the first of those there.
pub proof fn device_sensors_stand_on_the_device(
    sensors: Seq<Hwmon>,
    driver: Seq<char>,
    device: Seq<u8>,
    r: Option<usize>,
    i: int,
)
    requires
        is_first_on_device(sensors, driver, device, r),
        0 <= i < sensors.len(),
    ensures
        r matches Some(j) ==> {
            &&& j < sensors.len()
            &&& sensors[j as int].is_named(driver)
            &&& sensors[j as int].device matches Some(d) && d@ == device
        },
        sensors[i].is_named(driver) && (sensors[i].device matches Some(d) && d@ == device) ==> (
        r matches Some(j) && j <= i),
{
}

} // verus!
