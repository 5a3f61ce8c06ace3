//! The names that the panel shows, detected once.
use crate::backend::{card_fields, nvidia_card};
use crate::text::{
    begins, first_occurrence, index_of, is_blank, is_space, is_word, lacks, lines, lines_of, parts,
    parts_end_at_separators, parts_of, starts_with, texts, trim, trim_of,
    trimming_takes_off_white_space, words, words_end_at_white_space, words_of,
};
use vstd::prelude::*;

verus! {

broadcast use vstd::string::group_string_axioms;

/// The first line that begins with `key`.
pub open spec fn first_line_with(ls: Seq<Seq<char>>, key: Seq<char>) -> Option<Seq<char>>
    decreases ls.len(),
{
    if ls.len() == 0 {
        None
    } else if begins(ls[0], key) {
        Some(ls[0])
    } else {
        first_line_with(ls.skip(1), key)
    }
}

/// The processor's name: what stands behind the first colon, up to the next, in the first
/// line that begins with `model name`.
pub open spec fn named_cpu(cpuinfo: Option<&str>) -> Seq<char> {
    match cpuinfo {
        Some(text) => match first_line_with(lines_of(text@), "model name"@) {
            Some(line) => if parts_of(line, ':').len() >= 2 {
                trim_of(parts_of(line, ':')[1])
            } else {
                "CPU"@
            },
            None => "CPU"@,
        },
        None => "CPU"@,
    }
}

/// The processor's name, from `/proc/cpuinfo`.
pub fn cpu_name(cpuinfo: Option<&str>) -> (r: String)
    ensures
        r@ == named_cpu(cpuinfo),
{
    if let Some(text) = cpuinfo {
        let ls: Vec<&str> = lines(text);
        let ghost all: Seq<Seq<char>> = lines_of(text@);
        let mut i: usize = 0;
        assert(all.skip(0) == all);
        assert(all.len() == ls.len());
        while i < ls.len()
            invariant
                i <= ls.len(),
                all == texts(ls@),
                all == lines_of(text@),
                cpuinfo == Some(text),
                first_line_with(all, "model name"@) == first_line_with(
                    all.skip(i as int),
                    "model name"@,
                ),
            decreases ls.len() - i,
        {
            assert(all[i as int] == ls[i as int]@);
            assert(all.skip(i as int).skip(1) == all.skip(i + 1));
            if starts_with(ls[i], "model name") {
                let ps: Vec<&str> = parts(ls[i], ':');
                assert(texts(ps@).len() == ps.len());
                if ps.len() >= 2 {
                    assert(texts(ps@)[1] == ps[1]@);
                    return trim(ps[1]).to_string();
                }
                return "CPU".to_string();
            }
            i = i + 1;
        }
        assert(all.skip(i as int).len() == 0);
    }
    "CPU".to_string()
}

/// The first word of the vendor's name, or the name itself where it has no word.
pub open spec fn short_vendor(vendor: Seq<char>) -> Seq<char> {
    if words_of(vendor).len() > 0 {
        words_of(vendor)[0]
    } else {
        vendor
    }
}

/// The name of a graphics device: what stands in its brackets, or the vendor's short name
/// and the device's name.
pub open spec fn device_name(vendor: Seq<char>, device: Seq<char>) -> Seq<char> {
    let open: int = index_of(device, '[');
    let close: int = index_of(device, ']');
    if open < close < device.len() {
        device.subrange(open + 1, close)
    } else {
        short_vendor(vendor) + " "@ + device
    }
}

/// The name of the first device in the list that `lspci -mm` prints: fields in quotes, the
/// class, the vendor and the device.
pub open spec fn named_gpu(listing: Option<&str>) -> Seq<char> {
    match listing {
        Some(text) => {
            let ls: Seq<Seq<char>> = lines_of(text@);
            if ls.len() > 0 && parts_of(ls[0], '"').len() >= 6 {
                device_name(parts_of(ls[0], '"')[3], parts_of(ls[0], '"')[5])
            } else {
                "GPU"@
            }
        },
        None => "GPU"@,
    }
}

fn name_device(vendor: &str, device: &str) -> (r: String)
    ensures
        r@ == device_name(vendor@, device@),
{
    let cs: Vec<char> = crate::text::chars_of(device);
    let open: usize = crate::text::find_char(&cs, '[');
    let close: usize = crate::text::find_char(&cs, ']');
    if open < close && close < cs.len() {
        return device.substring_char(open + 1, close).to_string();
    }
    let ws: Vec<&str> = words(vendor);
    assert(texts(ws@).len() == ws.len());
    let short: &str = if ws.len() > 0 {
        assert(texts(ws@)[0] == ws[0]@);
        ws[0]
    } else {
        vendor
    };
    let mut r: String = short.to_string();
    r.append(" ");
    r.append(device);
    r
}

/// The graphics device's name, from what `lspci -mm` prints of display controllers.
pub fn gpu_name(listing: Option<&str>) -> (r: String)
    ensures
        r@ == named_gpu(listing),
{
    if let Some(text) = listing {
        let ls: Vec<&str> = lines(text);
        assert(texts(ls@).len() == ls.len());
        if ls.len() > 0 {
            assert(texts(ls@)[0] == ls[0]@);
            let ps: Vec<&str> = parts(ls[0], '"');
            assert(texts(ps@).len() == ps.len());
            if ps.len() >= 6 {
                assert(texts(ps@)[3] == ps[3]@);
                assert(texts(ps@)[5] == ps[5]@);
                return name_device(ps[3], ps[5]);
            }
        }
    }
    "GPU".to_string()
}

/// The name of the graphics that are shown: that of a working NVIDIA card, and otherwise that
/// in the list.
pub open spec fn shown_gpu(nvidia: Option<&str>, listing: Option<&str>) -> Seq<char> {
    match card_fields(nvidia) {
        Some(fields) => fields[0],
        None => named_gpu(listing),
    }
}

/// The disk's name: the model that it reports, or that of the block device.
pub open spec fn named_disk(model: Option<&str>, blockdev: Seq<char>) -> Seq<char> {
    match model {
        Some(text) => if trim_of(text@).len() > 0 {
            trim_of(text@)
        } else {
            blockdev
        },
        None => blockdev,
    }
}

/// The disk's name, from the model that it reports.
pub fn disk_model(model: Option<&str>, blockdev: &str) -> (r: String)
    ensures
        r@ == named_disk(model, blockdev@),
{
    if let Some(text) = model {
        let t: &str = trim(text);
        if !t.is_empty() {
            return t.to_string();
        }
    }
    blockdev.to_string()
}

/// The names that the panel shows, and the block device whose temperature it shows.
#[derive(Debug)]
pub struct HostInfo {
    pub cpu_name: String,
    pub gpu_name: String,
    pub disk_label: String,
    pub disk_blockdev: String,
}

impl HostInfo {
    /// What the machine's own descriptions say. Without a block device its name is empty.
    pub fn detect(
        cpuinfo: Option<&str>,
        nvidia: Option<&str>,
        listing: Option<&str>,
        blockdev: Option<&str>,
        model: Option<&str>,
    ) -> (r: HostInfo)
        ensures
            r.cpu_name@ == named_cpu(cpuinfo),
            r.gpu_name@ == shown_gpu(nvidia, listing),
            r.disk_blockdev@ == (match blockdev {
                Some(name) => name@,
                None => ""@,
            }),
            r.disk_label@ == named_disk(model, r.disk_blockdev@),
    {
        let disk: &str = match blockdev {
            Some(name) => name,
            None => "",
        };
        HostInfo {
            cpu_name: cpu_name(cpuinfo),
            gpu_name: match nvidia_card(nvidia) {
                Some(card) => card.name,
                None => gpu_name(listing),
            },
            disk_label: disk_model(model, disk),
            disk_blockdev: disk.to_string(),
        }
    }
}

/// The first line with the key is the one that counts.
pub proof fn first_lines_count(line: Seq<char>, rest: Seq<Seq<char>>, key: Seq<char>)
    ensures
        begins(line, key) ==> first_line_with(seq![line] + rest, key) == Some(line),
        !begins(line, key) ==> first_line_with(seq![line] + rest, key) == first_line_with(
            rest,
            key,
        ),
        first_line_with(Seq::<Seq<char>>::empty(), key) is None,
{
    assert((seq![line] + rest).skip(1) == rest);
}

/// The processor's name stands behind the colon of the line `model name`, up to a next colon,
/// without the white space around it.
pub proof fn processors_are_named_behind_the_colon(
    text: &str,
    gap: Seq<char>,
    name: Seq<char>,
    more: Seq<char>,
)
    requires
        lacks(gap, ':'),
        lacks(name, ':'),
    ensures
        first_line_with(lines_of(text@), "model name"@) == Some(
            ("model name"@ + gap).push(':') + name,
        ) ==> named_cpu(Some(text)) == trim_of(name),
        first_line_with(lines_of(text@), "model name"@) == Some(
            ("model name"@ + gap).push(':') + (name.push(':') + more),
        ) ==> named_cpu(Some(text)) == trim_of(name),
        first_line_with(lines_of(text@), "model name"@) == Some("model name"@ + gap) ==> named_cpu(
            Some(text),
        ) == "CPU"@,
        first_line_with(lines_of(text@), "model name"@) is None ==> named_cpu(Some(text))
            == "CPU"@,
        named_cpu(None) == "CPU"@,
{
    reveal_strlit("model name");
    let head: Seq<char> = "model name"@ + gap;
    assert(lacks(head, ':')) by {
        assert forall|i: int| 0 <= i < head.len() implies head[i] != ':' by {
            if i >= 10 {
                assert(head[i] == gap[i - 10]);
            }
        }
    }
    parts_end_at_separators(head, ':', name);
    parts_end_at_separators(head, ':', name.push(':') + more);
    parts_end_at_separators(name, ':', more);
    assert((seq![head] + seq![name])[1] == name);
    assert((seq![head] + (seq![name] + parts_of(more, ':')))[1] == name);
}

/// A device is named by what stands in its brackets; without brackets by the first word of
/// its vendor and its own name.
pub proof fn devices_are_named_in_brackets(
    vendor: Seq<char>,
    before: Seq<char>,
    name: Seq<char>,
    behind: Seq<char>,
)
    requires
        lacks(before, '['),
        lacks(before, ']'),
        lacks(name, ']'),
    ensures
        device_name(vendor, before.push('[') + (name.push(']') + behind)) == name,
        device_name(vendor, before) == short_vendor(vendor) + " "@ + before,
{
    let device: Seq<char> = before.push('[') + (name.push(']') + behind);
    first_occurrence(before, '[', name.push(']') + behind);
    first_occurrence(before, ']', behind);
    let head: Seq<char> = before.push('[') + name;
    assert(lacks(head, ']')) by {
        assert forall|i: int| 0 <= i < head.len() implies head[i] != ']' by {
            if i < before.len() {
                assert(head[i] == before[i]);
            } else if i > before.len() {
                assert(head[i] == name[i - before.len() - 1]);
            }
        }
    }
    first_occurrence(head, ']', behind);
    assert(device == head.push(']') + behind);
    assert(device.subrange(before.len() as int + 1, head.len() as int) == name);
}

/// A vendor is shortened to its first word.
pub proof fn vendors_are_shortened(word: Seq<char>, c: char, rest: Seq<char>)
    requires
        is_word(word),
        is_space(c),
    ensures
        short_vendor(word) == word,
        short_vendor(word.push(c) + rest) == word,
{
    words_end_at_white_space(word, c, rest);
}

/// The first line of the list has its fields in quotes: behind the slot the class, then the
/// vendor, then the device.
pub proof fn devices_stand_in_quotes(
    text: &str,
    slot: Seq<char>,
    class: Seq<char>,
    a: Seq<char>,
    vendor: Seq<char>,
    b: Seq<char>,
    device: Seq<char>,
    rest: Seq<char>,
)
    requires
        lacks(slot, '"'),
        lacks(class, '"'),
        lacks(a, '"'),
        lacks(vendor, '"'),
        lacks(b, '"'),
        lacks(device, '"'),
        lines_of(text@).len() > 0,
        lines_of(text@)[0] == slot.push('"') + (class.push('"') + (a.push('"') + (vendor.push('"')
            + (b.push('"') + (device.push('"') + rest))))),
    ensures
        named_gpu(Some(text)) == device_name(vendor, device),
        named_gpu(None) == "GPU"@,
{
    let r6: Seq<char> = device.push('"') + rest;
    let r5: Seq<char> = b.push('"') + r6;
    let r4: Seq<char> = vendor.push('"') + r5;
    let r3: Seq<char> = a.push('"') + r4;
    let r2: Seq<char> = class.push('"') + r3;
    parts_end_at_separators(slot, '"', r2);
    parts_end_at_separators(class, '"', r3);
    parts_end_at_separators(a, '"', r4);
    parts_end_at_separators(vendor, '"', r5);
    parts_end_at_separators(b, '"', r6);
    parts_end_at_separators(device, '"', rest);
    let ps: Seq<Seq<char>> = seq![slot] + (seq![class] + (seq![a] + (seq![vendor] + (seq![b] + (
    seq![device] + parts_of(rest, '"'))))));
    assert(ps[3] == vendor && ps[5] == device && ps.len() >= 6);
}

/// A list without lines, or whose first line has fewer quotes, names nothing.
pub proof fn unreadable_lists_name_nothing(text: &str)
    ensures
        lines_of(text@).len() == 0 ==> named_gpu(Some(text)) == "GPU"@,
        lines_of(text@).len() > 0 && lacks(lines_of(text@)[0], '"') ==> named_gpu(Some(text))
            == "GPU"@,
{
    if lines_of(text@).len() > 0 && lacks(lines_of(text@)[0], '"') {
        parts_end_at_separators(lines_of(text@)[0], '"', seq![]);
    }
}

/// A disk is named by its model without the white space around it; a blank model, or none,
/// leaves the name of the block device.
pub proof fn disks_are_named_by_their_model(
    text: &str,
    a: Seq<char>,
    model: Seq<char>,
    b: Seq<char>,
    blockdev: Seq<char>,
)
    requires
        text@ == a + model + b,
        is_blank(a),
        is_blank(b),
        model.len() > 0 ==> !is_space(model[0]) && !is_space(model.last()),
    ensures
        model.len() > 0 ==> named_disk(Some(text), blockdev) == model,
        model.len() == 0 ==> named_disk(Some(text), blockdev) == blockdev,
        named_disk(None, blockdev) == blockdev,
{
    trimming_takes_off_white_space(a, model, b);
}

/// A working card of NVIDIA is shown before whatever the list names.
pub proof fn cards_are_shown_first(nvidia: Option<&str>, listing: Option<&str>)
    ensures
        card_fields(nvidia) matches Some(fields) ==> shown_gpu(nvidia, listing) == fields[0],
        card_fields(nvidia) is None ==> shown_gpu(nvidia, listing) == named_gpu(listing),
{
}

/// Brackets that are not closed, or closed before they are opened, name nothing.
pub proof fn broken_brackets_name_nothing(vendor: Seq<char>, a: Seq<char>, b: Seq<char>)
    requires
        lacks(a, '['),
        lacks(a, ']'),
    ensures
        device_name(vendor, a.push(']') + b) == short_vendor(vendor) + " "@ + (a.push(']') + b),
        lacks(b, ']') ==> device_name(vendor, a.push('[') + b) == short_vendor(vendor) + " "@ + (
        a.push('[') + b),
        short_vendor(Seq::<char>::empty()) == Seq::<char>::empty(),
{
    let s: Seq<char> = a.push(']') + b;
    first_occurrence(a, ']', b);
    lemma_not_before(s, '[', a.len() as int);
    let t: Seq<char> = a.push('[') + b;
    if lacks(b, ']') {
        assert(lacks(t, ']')) by {
            assert forall|i: int| 0 <= i < t.len() implies t[i] != ']' by {
                if i < a.len() {
                    assert(t[i] == a[i]);
                } else if i > a.len() {
                    assert(t[i] == b[i - a.len() - 1]);
                }
            }
        }
        first_occurrence(t, ']', seq![]);
    }
    assert(words_of(Seq::<char>::empty()).len() == 0);
}

proof fn lemma_not_before(s: Seq<char>, c: char, n: int)
    requires
        0 <= n <= s.len(),
        forall|i: int| 0 <= i < n ==> s[i] != c,
    ensures
        index_of(s, c) >= n,
    decreases s.len(),
{
    if s.len() > 0 && s[0] != c {
        let m: int = if n > 0 {
            n - 1
        } else {
            0
        };
        assert forall|i: int| 0 <= i < m implies s.skip(1)[i] != c by {
            assert(s.skip(1)[i] == s[i + 1]);
        }
        lemma_not_before(s.skip(1), c, m);
    }
}

} // verus!
