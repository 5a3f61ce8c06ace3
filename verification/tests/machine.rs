use scc_lcd_daemon::backend::{amd_usage, nvidia_card, nvidia_query, GpuBackend};
use scc_lcd_daemon::disk::{
    below_listed, disk_usage, root_blockdev, Answer, DiskSearch, FirstEntry, FsSize, Lookup,
};
use scc_lcd_daemon::host::{cpu_name, disk_model, gpu_name, HostInfo};
use scc_lcd_daemon::sensors::{
    card_sensor, cpu_freq_khz, cpu_sensor, disk_sensor, find_hwmon_by_name, read_temp_c, Hwmon,
};

fn sensor(name: Option<&str>, device: Option<&str>) -> Hwmon {
    Hwmon {
        name: name.map(str::to_string),
        device: device.map(|d| d.as_bytes().to_vec()),
    }
}

#[test]
fn sensor_files_give_thousandths() {
    assert_eq!(read_temp_c(Some("61000\n")), 61);
    assert_eq!(read_temp_c(Some(" 61999 ")), 61);
    assert_eq!(read_temp_c(Some("-1500\n")), -1);
    assert_eq!(read_temp_c(Some("-9223372036854775808")), -9223372036854775);
    assert_eq!(read_temp_c(Some("hot")), 0);
    assert_eq!(read_temp_c(None), 0);
}

#[test]
fn frequency_is_sent_as_it_is() {
    assert_eq!(cpu_freq_khz(Some("4800000\n")), 4_800_000);
    assert_eq!(cpu_freq_khz(Some("+7")), 7);
    assert_eq!(cpu_freq_khz(Some("9223372036854775808")), 0);
    assert_eq!(cpu_freq_khz(None), 0);
}

#[test]
fn sensors_are_found_by_name() {
    let all = vec![
        sensor(None, None),
        sensor(Some("acpitz\n"), None),
        sensor(Some("coretemp\n"), None),
        sensor(Some("coretemp"), None),
    ];
    assert_eq!(find_hwmon_by_name(&all, "coretemp"), Some(2));
    assert_eq!(find_hwmon_by_name(&all, "core"), None);
}

#[test]
fn processor_sensor_falls_back_in_order() {
    let mut all = vec![sensor(Some("acpitz\n"), None)];
    assert_eq!(cpu_sensor(&all), Some(0));
    for (i, name) in ["cpu_thermal", "zenpower", "k10temp", "coretemp"].iter().enumerate() {
        all.push(sensor(Some(name), None));
        assert_eq!(cpu_sensor(&all), Some(i + 1));
    }
    assert_eq!(cpu_sensor(&vec![sensor(Some("nvme"), None)]), None);
}

#[test]
fn disk_sensor_belongs_to_the_disk() {
    let all = vec![
        sensor(Some("drivetemp\n"), Some("/sys/devices/b")),
        sensor(Some("nvme\n"), Some("/sys/devices/a")),
        sensor(Some("nvme\n"), Some("/sys/devices/b")),
        sensor(Some("drivetemp\n"), Some("/sys/devices/c")),
        sensor(Some("nvme\n"), None),
    ];
    let find = |d: &str| disk_sensor(&all, &Some(d.as_bytes().to_vec()));
    assert_eq!(find("/sys/devices/a"), Some(1));
    assert_eq!(find("/sys/devices/b"), Some(2));
    assert_eq!(find("/sys/devices/c"), Some(3));
    assert_eq!(find("/sys/devices/d"), None);
    assert_eq!(disk_sensor(&all, &None), None);
}

#[test]
fn processor_name_is_trimmed() {
    let text = "processor\t: 0\nmodel name\t: Intel(R) Core(TM) Ultra 9 185H\nmodel name: b\n";
    assert_eq!(cpu_name(Some(text)), "Intel(R) Core(TM) Ultra 9 185H");
    assert_eq!(cpu_name(Some("model name\nmodel name : late\n")), "CPU");
    assert_eq!(cpu_name(Some("flags : fpu\n")), "CPU");
    assert_eq!(cpu_name(None), "CPU");
}

#[test]
fn graphics_name_is_the_bracketed_one() {
    let line = |device: &str| {
        format!("00:02.0 \"VGA\" \"Intel Corporation\" \"{device}\" -r08 \"x\" \"y\"\nsecond\n")
    };
    assert_eq!(
        gpu_name(Some(&line("Meteor Lake-P [Intel Arc Graphics]"))),
        "Intel Arc Graphics"
    );
    assert_eq!(gpu_name(Some(&line("UHD Graphics"))), "Intel UHD Graphics");
    assert_eq!(gpu_name(Some(&line("odd ] before [ it"))), "Intel odd ] before [ it");
    assert_eq!(gpu_name(Some("no quotes at all\n")), "GPU");
    assert_eq!(gpu_name(Some("")), "GPU");
    assert_eq!(gpu_name(None), "GPU");
}

#[test]
fn disk_is_named_by_its_model() {
    assert_eq!(disk_model(Some("Corsair MP600 MINI   \n"), "nvme1n1"), "Corsair MP600 MINI");
    assert_eq!(disk_model(Some("  \n"), "nvme1n1"), "nvme1n1");
    assert_eq!(disk_model(None, "nvme1n1"), "nvme1n1");
}

#[test]
fn host_is_described_once() {
    let host = HostInfo::detect(Some("model name : Chip"), None, None, Some("sda"), Some("Disk\n"));
    assert_eq!(host.cpu_name, "Chip");
    assert_eq!(host.gpu_name, "GPU");
    assert_eq!(host.disk_label, "Disk");
    assert_eq!(host.disk_blockdev, "sda");
    let bare = HostInfo::detect(None, None, None, None, None);
    assert_eq!((bare.disk_label.as_str(), bare.disk_blockdev.as_str()), ("", ""));
}

/// Searches in a made-up system.
fn search(
    mounts: Option<&str>,
    resolve: impl Fn(&str) -> Option<&'static str>,
    first: impl Fn(&str) -> FirstEntry,
    exists: impl Fn(&str) -> bool,
) -> Option<String> {
    let mut s = root_blockdev(mounts, "/");
    for _ in 0..5 {
        let answer = match s.lookup() {
            Lookup::Resolve(path) => Answer::Resolved(resolve(&path).map(str::to_string)),
            Lookup::FirstEntry(dir) => Answer::First(first(&dir)),
            Lookup::Exists(path) => Answer::Exists(exists(&path)),
            Lookup::Nothing(disk) => return disk,
        };
        s = s.answered(answer);
    }
    panic!("the search takes four lookups at most")
}

#[test]
fn answers_to_other_questions_change_nothing() {
    let s = root_blockdev(Some("/dev/sda1 / ext4 rw 0 0\n"), "/");
    let s = s.answered(Answer::Resolved(Some("/x/y".to_string())));
    let s = s.answered(Answer::First(FirstEntry::Named("sdb".to_string())));
    assert!(matches!(s.lookup(), Lookup::Exists(p) if p == "/sys/class/block/sda1/partition"));
    let s = below_listed("sda".to_string(), FirstEntry::Missing).answered(Answer::Exists(false));
    assert!(matches!(&s, DiskSearch::Found(name) if name == "sda"));
    let s = s.answered(Answer::Exists(true));
    assert!(matches!(s.lookup(), Lookup::Nothing(Some(name)) if name == "sda"));
}

#[test]
fn partition_leads_to_its_disk() {
    let found = search(
        Some("proc /proc proc rw 0 0\n/dev/nvme1n1p2 / btrfs rw 0 0\n/dev/sda1 /boot ext4 rw 0 0\n"),
        |p| match p {
            "/sys/class/block/nvme1n1p2" => {
                Some("/sys/devices/pci0000:00/nvme/nvme1/nvme1n1/nvme1n1p2")
            }
            _ => None,
        },
        |_| unreachable!(),
        |p| p == "/sys/class/block/nvme1n1p2/partition",
    );
    assert_eq!(found.as_deref(), Some("nvme1n1"));
}

#[test]
fn mapped_device_leads_to_the_one_below() {
    let mounts = "/dev/mapper/vg-root / ext4 rw 0 0\n";
    let resolve = |p: &str| match p {
        "/dev/mapper/vg-root" => Some("/dev/dm-1"),
        "/sys/class/block/sda3" => Some("/sys/devices/ata1/block/sda/sda3"),
        _ => None,
    };
    let named = |dir: &str| {
        assert_eq!(dir, "/sys/class/block/dm-1/slaves");
        FirstEntry::Named("sda3".to_string())
    };
    let is_part = |p: &str| p == "/sys/class/block/sda3/partition";
    assert_eq!(search(Some(mounts), resolve, named, is_part).as_deref(), Some("sda"));
    assert_eq!(
        search(Some(mounts), resolve, |_| FirstEntry::Missing, is_part).as_deref(),
        Some("vg-root")
    );
    assert_eq!(search(Some(mounts), resolve, |_| FirstEntry::Unreadable, is_part), None);
    assert_eq!(search(Some(mounts), |_| None, named, is_part), None);
    let direct = "/dev/dm-0 / ext4 rw 0 0\n";
    assert_eq!(search(Some(direct), |_| None, named, is_part), None);
}

#[test]
fn later_mount_hides_the_earlier_one() {
    let mounts = "/dev/sda / ext4 rw 0 0\n/dev/sdb / ext4 rw 0 0\noverlay / overlay rw 0 0\n";
    let found = search(Some(mounts), |_| None, |_| unreachable!(), |_| false);
    assert_eq!(found.as_deref(), Some("sdb"));
}

#[test]
fn unknown_root_has_no_disk() {
    let none = |m: Option<&str>| search(m, |_| None, |_| unreachable!(), |_| false);
    assert_eq!(none(None), None);
    assert_eq!(none(Some("")), None);
    assert_eq!(none(Some("tmpfs / tmpfs rw 0 0\n")), None);
    assert_eq!(none(Some("/dev/sda /home ext4 rw 0 0\n")), None);
    assert_eq!(none(Some("/dev/.. / ext4 rw 0 0\n")), None);
    assert_eq!(none(Some("/dev/sda\n")), None);
    // a trailing slash or dot names nothing
    assert_eq!(none(Some("/dev/sda/./ / ext4 rw 0 0\n")).as_deref(), Some("sda"));
}

#[test]
fn partition_that_cannot_be_resolved_has_no_disk() {
    let mounts = "/dev/sda1 / ext4 rw 0 0\n";
    assert_eq!(search(Some(mounts), |_| None, |_| unreachable!(), |_| true), None);
    assert_eq!(search(Some(mounts), |_| Some("/sda1"), |_| unreachable!(), |_| true), None);
}

#[test]
fn disk_usage_counts_blocks() {
    let size = FsSize { block_size: 4096, blocks: 1000, free_blocks: 250 };
    assert_eq!(disk_usage(Some(size)), (3_072_000, 4_096_000));
    let odd = FsSize { block_size: 4096, blocks: 10, free_blocks: 11 };
    assert_eq!(disk_usage(Some(odd)), (0, 40_960));
    assert_eq!(disk_usage(None), (0, 0));
}

#[test]
fn nvidia_report_is_read() {
    let card = nvidia_card(Some("NVIDIA GeForce RTX 4070, 45, 12\nsecond, 1, 2\n")).unwrap();
    assert_eq!((card.name.as_str(), card.temp, card.usage), ("NVIDIA GeForce RTX 4070", 45, 12));
    let card = nvidia_card(Some("Card, [N/A], [Not Supported]")).unwrap();
    assert_eq!((card.temp, card.usage), (0, 0));
    assert_eq!(nvidia_card(Some("Card, 9, 250")).unwrap().usage, 100);
    assert!(nvidia_card(Some(" , 45, 12\n")).is_none());
    assert!(nvidia_card(Some("No devices were found\n")).is_none());
    assert!(nvidia_card(Some("")).is_none());
    assert!(nvidia_card(None).is_none());
    assert_eq!(
        nvidia_query(),
        vec!["--query-gpu=name,temperature.gpu,utilization.gpu", "--format=csv,noheader,nounits"]
    );
}

#[test]
fn discrete_card_is_preferred() {
    let drivers = |names: &[Option<&str>]| -> Vec<Option<String>> {
        names.iter().map(|n| n.map(str::to_string)).collect()
    };
    let both = drivers(&[Some("i915"), None, Some("amdgpu"), Some("amdgpu")]);
    let report = Some("Card, 1, 2\n");
    assert!(matches!(GpuBackend::detect(report, &both, None), GpuBackend::Nvidia));
    assert!(matches!(GpuBackend::detect(None, &both, None), GpuBackend::Amd(2)));
    let intel = drivers(&[Some("i915"), Some("amdgpus")]);
    assert!(matches!(GpuBackend::detect(Some("x"), &intel, None), GpuBackend::Integrated(None)));
}

#[test]
fn device_is_listed_in_its_slot() {
    assert_eq!(GpuBackend::Amd(1).listing_args("0000:03:00.0"), vec!["-mm", "-s", "0000:03:00.0"]);
    assert_eq!(GpuBackend::Integrated(None).listing_args(""), vec!["-mm", "-d", "::0300"]);
}

#[test]
fn card_name_is_shown() {
    let host = HostInfo::detect(None, Some("Card, 1, 2"), Some("a \"b\" \"c\" \"d\""), None, None);
    assert_eq!(host.gpu_name, "Card");
    let host = HostInfo::detect(None, Some("x"), Some("a \"b\" \"AMD x\" \"d [Radeon]\""), None, None);
    assert_eq!(host.gpu_name, "Radeon");
}

#[test]
fn amd_card_has_files() {
    assert_eq!(amd_usage(Some("37\n")), 37);
    assert_eq!(amd_usage(Some("101\n")), 100);
    assert_eq!(amd_usage(Some("-1\n")), 0);
    assert_eq!(amd_usage(None), 0);
    let all = vec![
        sensor(Some("amdgpu\n"), Some("/sys/devices/a")),
        sensor(Some("amdgpu\n"), Some("/sys/devices/b")),
    ];
    assert_eq!(card_sensor(&all, &Some(b"/sys/devices/b".to_vec())), Some(1));
    assert_eq!(card_sensor(&all, &Some(b"/sys/devices/c".to_vec())), None);
    assert_eq!(card_sensor(&all, &None), None);
}
