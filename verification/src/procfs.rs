//! What the kernel's text files say.
use crate::numbers::{natural, parse_u64};
use crate::percent::{
    percent, percent_grows_with_the_part, percent_is_almost_nearest, percent_is_nearest,
    percent_is_within_bounds, percent_of,
};
use crate::text::{
    begins, ends, ends_with, first_occurrence, index_of, is_blank, is_space, is_word, lacks, lines,
    lines_end_at_line_feeds, lines_of, split_once, strip_prefix, texts, trim, trim_of,
    trimming_takes_off_white_space, words, words_end_at_white_space, words_of, words_on_both_sides,
};
use vstd::prelude::*;

verus! {

broadcast use vstd::string::group_string_axioms;

/// What follows the first `n` items, nothing where there are fewer.
pub open spec fn after<T>(s: Seq<T>, n: int) -> Seq<T> {
    if n <= s.len() {
        s.skip(n)
    } else {
        seq![]
    }
}

/// The numbers among the words, in order. Words that are no 64-bit numbers are left out.
pub open spec fn naturals(ws: Seq<Seq<char>>) -> Seq<nat>
    decreases ws.len(),
{
    if ws.len() == 0 {
        seq![]
    } else {
        match natural(ws.last(), 10, u64::MAX as nat) {
            Some(v) => naturals(ws.drop_last()).push(v),
            None => naturals(ws.drop_last()),
        }
    }
}

/// Numbers as natural numbers.
pub open spec fn as_nats(v: Seq<u64>) -> Seq<nat> {
    v.map_values(|x: u64| x as nat)
}

/// The numbers among the words from the word `from` on.
fn fields_of(ws: &Vec<&str>, from: usize) -> (r: Vec<u64>)
    ensures
        as_nats(r@) == naturals(after(texts(ws@), from as int)),
{
    let mut r: Vec<u64> = Vec::new();
    if from > ws.len() {
        assert(as_nats(r@) == naturals(after(texts(ws@), from as int)));
        return r;
    }
    let ghost all: Seq<Seq<char>> = texts(ws@).skip(from as int);
    let mut i: usize = from;
    assert(as_nats(r@) == naturals(all.take(0)));
    while i < ws.len()
        invariant
            from <= i <= ws.len(),
            all == texts(ws@).skip(from as int),
            as_nats(r@) == naturals(all.take(i - from)),
        decreases ws.len() - i,
    {
        let ghost before: Seq<nat> = as_nats(r@);
        assert(all.take(i - from + 1).drop_last() == all.take(i - from));
        assert(all[i - from] == ws[i as int]@);
        match parse_u64(ws[i]) {
            Some(v) => {
                r.push(v);
                assert(as_nats(r@) == before.push(v as nat));
            },
            None => {},
        }
        i = i + 1;
    }
    assert(all.take(all.len() as int) == all);
    r
}

/// The ticks that the processors spent, since the machine started.
#[derive(Clone, Copy, Debug, PartialEq, Eq)]
pub struct CpuTimes {
    /// Doing nothing, or waiting for a disk.
    pub idle: u64,
    /// In all.
    pub total: u64,
}

/// The first line of a text.
pub open spec fn first_line(s: Seq<char>) -> Seq<char> {
    if lines_of(s).len() > 0 {
        lines_of(s)[0]
    } else {
        seq![]
    }
}

/// The numbers in the first line of `/proc/stat`: user, nice, system, idle, iowait, irq,
/// softirq, steal, guest, guest_nice.
pub open spec fn cpu_fields(stat: Seq<char>) -> Seq<nat> {
    naturals(after(words_of(first_line(stat)), 1))
}

/// The sum of the first `n` numbers, or of all where there are fewer.
pub open spec fn sum_of(f: Seq<nat>, n: int) -> nat
    decreases n,
{
    if n <= 0 {
        0
    } else {
        sum_of(f, n - 1) + if n <= f.len() {
            f[n - 1]
        } else {
            0
        }
    }
}

/// The idle and the waiting ticks among the numbers.
pub open spec fn idle_ticks(f: Seq<nat>) -> nat {
    if f.len() < 4 {
        0
    } else if f.len() == 4 {
        f[3]
    } else {
        f[3] + f[4]
    }
}

/// All ticks among the numbers, from user to steal. The guests' ticks, which follow, are
/// counted in user and nice already.
pub open spec fn total_ticks(f: Seq<nat>) -> nat {
    if f.len() < 4 {
        0
    } else {
        sum_of(f, 8)
    }
}

proof fn lemma_idle_within_total(f: Seq<nat>)
    ensures
        idle_ticks(f) <= total_ticks(f),
{
    reveal_with_fuel(sum_of, 9);
}

/// The guests' ticks do not count: only the first eight numbers do.
pub proof fn guest_ticks_do_not_count(f: Seq<nat>, g: Seq<nat>)
    requires
        f.len() >= 8,
        g.len() >= 8,
        f.take(8) == g.take(8),
    ensures
        idle_ticks(f) == idle_ticks(g),
        total_ticks(f) == total_ticks(g),
{
    reveal_with_fuel(sum_of, 9);
    assert forall|i: int| 0 <= i < 8 implies f[i] == g[i] by {
        assert(f[i] == f.take(8)[i] && g[i] == g.take(8)[i]);
    }
}

/// The ticks that `/proc/stat` gives, unless they do not fit in 64 bits.
pub fn checked_cpu_times(stat: &str) -> (r: Option<CpuTimes>)
    ensures
        match r {
            Some(t) => t.idle == idle_ticks(cpu_fields(stat@)) && t.total == total_ticks(
                cpu_fields(stat@),
            ),
            None => total_ticks(cpu_fields(stat@)) > u64::MAX,
        },
{
    let ls: Vec<&str> = lines(stat);
    let first: &str = if ls.len() > 0 {
        ls[0]
    } else {
        ""
    };
    proof {
        reveal_strlit("");
        if ls.len() > 0 {
            assert(texts(ls@)[0] == ls[0]@);
        } else {
            assert(""@ == Seq::<char>::empty());
        }
        assert(texts(ls@).len() == ls.len());
        assert(first@ == first_line(stat@));
    }
    let f: Vec<u64> = fields_of(&words(first), 1);
    let ghost g: Seq<nat> = cpu_fields(stat@);
    assert(as_nats(f@) == g);
    assert(f.len() == g.len());
    if f.len() < 4 {
        return Some(CpuTimes { idle: 0, total: 0 });
    }
    let mut total: u128 = 0;
    let mut i: usize = 0;
    while i < 8
        invariant
            i <= 8,
            as_nats(f@) == g,
            f.len() == g.len(),
            total == sum_of(g, i as int),
            total <= i * 0xffff_ffff_ffff_ffff,
        decreases 8 - i,
    {
        if i < f.len() {
            assert(g[i as int] == f[i as int]);
            total = total + f[i] as u128;
        }
        i = i + 1;
    }
    if total > u64::MAX as u128 {
        return None;
    }
    proof {
        lemma_idle_within_total(g);
        assert(g[3] == f[3]);
        if f.len() > 4 {
            assert(g[4] == f[4]);
        }
    }
    let idle: u64 = if f.len() > 4 {
        f[3] + f[4]
    } else {
        f[3]
    };
    Some(CpuTimes { idle, total: total as u64 })
}

/// The ticks that `/proc/stat` gives. The ticks have to fit in 64 bits.
pub fn parse_cpu_times(stat: &str) -> (r: CpuTimes)
    requires
        total_ticks(cpu_fields(stat@)) <= u64::MAX,
    ensures
        r.idle == idle_ticks(cpu_fields(stat@)),
        r.total == total_ticks(cpu_fields(stat@)),
{
    match checked_cpu_times(stat) {
        Some(t) => t,
        None => CpuTimes { idle: 0, total: 0 },
    }
}

/// `a - b`, or zero where `b` is greater.
pub open spec fn minus(a: u64, b: u64) -> nat {
    if a >= b {
        (a - b) as nat
    } else {
        0
    }
}

/// The share of the ticks since `prev` that the processors were busy, in percent.
pub open spec fn busy_percent(prev: CpuTimes, cur: CpuTimes) -> nat {
    let total: nat = minus(cur.total, prev.total);
    let idle: nat = minus(cur.idle, prev.idle);
    if total == 0 {
        0
    } else if idle >= total {
        percent_of(0, total)
    } else {
        percent_of((total - idle) as nat, total)
    }
}

/// The share of the ticks since `prev` that the processors were busy, in percent.
pub fn cpu_percent(prev: &CpuTimes, cur: &CpuTimes) -> (r: i64)
    ensures
        r == busy_percent(*prev, *cur),
        0 <= r <= 100,
{
    let total: u64 = cur.total.saturating_sub(prev.total);
    let idle: u64 = cur.idle.saturating_sub(prev.idle);
    if total == 0 {
        return 0;
    }
    percent(total.saturating_sub(idle), total)
}

/// The machine's memory, in kilobytes.
#[derive(Clone, Copy, Debug, PartialEq, Eq)]
pub struct MemInfo {
    pub total_kb: u64,
    pub available_kb: u64,
}

/// `s` without the units at its end.
pub open spec fn without_units(s: Seq<char>) -> Seq<char>
    decreases s.len(),
{
    if ends(s, " kB"@) && " kB"@.len() > 0 {
        without_units(s.take(s.len() - " kB"@.len()))
    } else {
        s
    }
}

/// The number of kilobytes that a figure gives, zero where it gives none.
pub open spec fn kilobytes(s: Seq<char>) -> nat {
    match natural(trim_of(without_units(trim_of(s))), 10, u64::MAX as nat) {
        Some(v) => v,
        None => 0,
    }
}

/// The figure in the last line that begins with `key`, zero where there is none.
pub open spec fn figure(ls: Seq<Seq<char>>, key: Seq<char>) -> nat
    decreases ls.len(),
{
    if ls.len() == 0 {
        0
    } else if begins(ls.last(), key) {
        kilobytes(ls.last().skip(key.len() as int))
    } else {
        figure(ls.drop_last(), key)
    }
}

/// A line that does not begin with the key has no effect, wherever it stands.
pub proof fn other_lines_do_not_count(
    before: Seq<Seq<char>>,
    line: Seq<char>,
    behind: Seq<Seq<char>>,
    key: Seq<char>,
)
    requires
        !begins(line, key),
    ensures
        figure(before.push(line) + behind, key) == figure(before + behind, key),
    decreases behind.len(),
{
    if behind.len() == 0 {
        assert(before.push(line) + behind == before.push(line));
        assert(before + behind == before);
        assert(before.push(line).drop_last() == before);
    } else {
        let x: Seq<Seq<char>> = before.push(line) + behind;
        let y: Seq<Seq<char>> = before + behind;
        assert(x.drop_last() == before.push(line) + behind.drop_last());
        assert(y.drop_last() == before + behind.drop_last());
        assert(x.last() == behind.last() && y.last() == behind.last());
        other_lines_do_not_count(before, line, behind.drop_last(), key);
    }
}

fn parse_kilobytes(s: &str) -> (r: u64)
    ensures
        r == kilobytes(s@),
{
    let mut t: &str = trim(s);
    proof {
        reveal_strlit(" kB");
    }
    while ends_with(t, " kB")
        invariant
            without_units(t@) == without_units(trim_of(s@)),
            " kB"@.len() == 3,
        decreases t@.len(),
    {
        let n: usize = t.unicode_len();
        t = t.substring_char(0, n - 3);
    }
    match parse_u64(trim(t)) {
        Some(v) => v,
        None => 0,
    }
}

/// What `/proc/meminfo` says.
pub fn parse_meminfo(contents: &str) -> (r: MemInfo)
    ensures
        r.total_kb == figure(lines_of(contents@), "MemTotal:"@),
        r.available_kb == figure(lines_of(contents@), "MemAvailable:"@),
{
    let ls: Vec<&str> = lines(contents);
    let ghost all: Seq<Seq<char>> = lines_of(contents@);
    let mut total: u64 = 0;
    let mut available: u64 = 0;
    let mut i: usize = 0;
    proof {
        reveal_strlit("MemTotal:");
        reveal_strlit("MemAvailable:");
    }
    while i < ls.len()
        invariant
            i <= ls.len(),
            all == texts(ls@),
            total == figure(all.take(i as int), "MemTotal:"@),
            available == figure(all.take(i as int), "MemAvailable:"@),
            "MemTotal:"@[3] == 'T',
            "MemTotal:"@.len() == 9,
            "MemAvailable:"@[3] == 'A',
            "MemAvailable:"@.len() == 13,
        decreases ls.len() - i,
    {
        let line: &str = ls[i];
        proof {
            assert(all.take(i + 1).drop_last() == all.take(i as int));
            assert(all.take(i + 1).last() == line@);
            assert(begins(line@, "MemTotal:"@) ==> line@[3] == 'T') by {
                if begins(line@, "MemTotal:"@) {
                    assert(line@.take(9)[3] == line@[3]);
                }
            }
            assert(begins(line@, "MemAvailable:"@) ==> line@[3] == 'A') by {
                if begins(line@, "MemAvailable:"@) {
                    assert(line@.take(13)[3] == line@[3]);
                }
            }
        }
        match strip_prefix(line, "MemTotal:") {
            Some(rest) => {
                total = parse_kilobytes(rest);
            },
            None => match strip_prefix(line, "MemAvailable:") {
                Some(rest) => {
                    available = parse_kilobytes(rest);
                },
                None => {},
            },
        }
        i = i + 1;
    }
    assert(all.take(all.len() as int) == all);
    MemInfo { total_kb: total, available_kb: available }
}

/// A line of `/proc/net/dev` that describes an interface has a colon.
pub open spec fn names_interface(line: Seq<char>) -> bool {
    index_of(line, ':') < line.len()
}

/// The interface that a line describes.
pub open spec fn interface_name(line: Seq<char>) -> Seq<char> {
    trim_of(line.take(index_of(line, ':')))
}

/// The counters of the interface that a line describes.
pub open spec fn interface_counters(line: Seq<char>) -> Seq<nat> {
    naturals(words_of(line.skip(index_of(line, ':') + 1)))
}

/// The lines of `/proc/net/dev` behind its two headings.
pub open spec fn interface_lines(contents: Seq<char>) -> Seq<Seq<char>> {
    after(lines_of(contents), 2)
}

/// The sum of a counter over the lines of the physical interfaces. Lines with fewer than
/// nine counters do not count.
pub open spec fn counter_sum(ls: Seq<Seq<char>>, physical: Seq<bool>, column: int) -> nat
    decreases ls.len(),
{
    if ls.len() == 0 {
        0
    } else {
        let rest: nat = counter_sum(ls.drop_last(), physical, column);
        let counters: Seq<nat> = interface_counters(ls.last());
        if names_interface(ls.last()) && physical[ls.len() - 1] && counters.len() >= 9 {
            rest + counters[column]
        } else {
            rest
        }
    }
}

/// `f` may answer `b` for `name`.
pub open spec fn may_answer<F: Fn(&str) -> bool>(f: F, name: Seq<char>, b: bool) -> bool {
    exists|s: &str| s@ == name && #[trigger] call_ensures(f, (s,), b)
}

/// `f` may answer `physical` for the interfaces of the lines.
pub open spec fn may_answer_all<F: Fn(&str) -> bool>(
    f: F,
    ls: Seq<Seq<char>>,
    physical: Seq<bool>,
) -> bool {
    &&& physical.len() == ls.len()
    &&& forall|i: int|
        0 <= i < ls.len() && names_interface(#[trigger] ls[i]) ==> may_answer(
            f,
            interface_name(ls[i]),
            physical[i],
        )
}

/// What the answers make of `/proc/net/dev`: the bytes received, and the bytes sent.
pub open spec fn net_totals(contents: Seq<char>, physical: Seq<bool>) -> (nat, nat) {
    let ls: Seq<Seq<char>> = interface_lines(contents);
    (counter_sum(ls, physical, 0), counter_sum(ls, physical, 8))
}

/// An interface that is not physical does not count.
pub proof fn virtual_interfaces_do_not_count(
    ls: Seq<Seq<char>>,
    physical: Seq<bool>,
    line: Seq<char>,
    column: int,
)
    requires
        physical.len() == ls.len(),
    ensures
        counter_sum(ls.push(line), physical.push(false), column) == counter_sum(
            ls,
            physical,
            column,
        ),
{
    assert(ls.push(line).drop_last() == ls);
    lemma_counter_sum_prefix(ls, physical.push(false), physical, column);
}

proof fn lemma_counter_sum_prefix(ls: Seq<Seq<char>>, p: Seq<bool>, q: Seq<bool>, column: int)
    requires
        forall|i: int| 0 <= i < ls.len() ==> p[i] == q[i],
    ensures
        counter_sum(ls, p, column) == counter_sum(ls, q, column),
    decreases ls.len(),
{
    if ls.len() > 0 {
        lemma_counter_sum_prefix(ls.drop_last(), p, q, column);
    }
}

/// One more line, with its answer.
proof fn lemma_next_line<F: Fn(&str) -> bool>(
    f: F,
    ls: Seq<Seq<char>>,
    physical: Seq<bool>,
    n: int,
    b: bool,
)
    requires
        0 <= n < ls.len(),
        may_answer_all(f, ls.take(n), physical),
        names_interface(ls[n]) ==> may_answer(f, interface_name(ls[n]), b),
    ensures
        may_answer_all(f, ls.take(n + 1), physical.push(b)),
        forall|column: int|
            #[trigger] counter_sum(ls.take(n + 1), physical.push(b), column) == counter_sum(
                ls.take(n),
                physical,
                column,
            ) + if names_interface(ls[n]) && b && interface_counters(ls[n]).len() >= 9 {
                interface_counters(ls[n])[column]
            } else {
                0
            },
{
    let t: Seq<Seq<char>> = ls.take(n + 1);
    assert(t.drop_last() == ls.take(n));
    assert forall|i: int| 0 <= i < t.len() && names_interface(#[trigger] t[i]) implies may_answer(
        f,
        interface_name(t[i]),
        physical.push(b)[i],
    ) by {
        if i < n {
            assert(ls.take(n)[i] == t[i]);
        }
    }
    assert forall|column: int| #[trigger]
        counter_sum(ls.take(n + 1), physical.push(b), column) == counter_sum(
            ls.take(n),
            physical,
            column,
        ) + if names_interface(ls[n]) && b && interface_counters(ls[n]).len() >= 9 {
            interface_counters(ls[n])[column]
        } else {
            0
        } by {
        lemma_counter_sum_prefix(ls.take(n), physical, physical.push(b), column);
    }
}

/// The bytes that the physical interfaces received and sent, unless a sum does not fit in 64
/// bits. `is_physical` is asked once for each interface.
pub fn checked_net_dev<F: Fn(&str) -> bool>(contents: &str, is_physical: F) -> (r: Option<
    (u64, u64),
>)
    requires
        forall|s: &str| #[trigger] call_requires(is_physical, (s,)),
    ensures
        exists|physical: Seq<bool>|
            #[trigger] may_answer_all(is_physical, interface_lines(contents@), physical)
                && match r {
                Some((rx, tx)) => net_totals(contents@, physical) == (rx as nat, tx as nat),
                None => net_totals(contents@, physical).0 > u64::MAX || net_totals(
                    contents@,
                    physical,
                ).1 > u64::MAX,
            },
{
    let all: Vec<&str> = lines(contents);
    let ghost ls: Seq<Seq<char>> = interface_lines(contents@);
    let ghost mut physical: Seq<bool> = seq![];
    let mut rx: u128 = 0;
    let mut tx: u128 = 0;
    let start: usize = if all.len() < 2 {
        all.len()
    } else {
        2
    };
    let mut i: usize = start;
    assert(texts(all@).len() == all.len());
    assert(ls.take(0).len() == 0);
    while i < all.len()
        invariant
            start <= i <= all.len(),
            ls.len() == all.len() - start,
            forall|j: int| start <= j < all.len() ==> ls[j - start] == #[trigger] all[j]@,
            forall|s: &str| #[trigger] call_requires(is_physical, (s,)),
            may_answer_all(is_physical, ls.take(i - start), physical),
            rx == counter_sum(ls.take(i - start), physical, 0),
            tx == counter_sum(ls.take(i - start), physical, 8),
            rx <= i * 0xffff_ffff_ffff_ffff,
            tx <= i * 0xffff_ffff_ffff_ffff,
        decreases all.len() - i,
    {
        let line: &str = all[i];
        let ghost n: int = i - start;
        assert(ls[n] == line@);
        match split_once(line, ':') {
            Some((head, tail)) => {
                let name: &str = trim(head);
                let b: bool = is_physical(name);
                proof {
                    assert(may_answer(is_physical, interface_name(ls[n]), b));
                    lemma_next_line(is_physical, ls, physical, n, b);
                    physical = physical.push(b);
                }
                if b {
                    let ws: Vec<&str> = words(tail);
                    let f: Vec<u64> = fields_of(&ws, 0);
                    proof {
                        assert(after(texts(ws@), 0) == texts(ws@));
                        assert(as_nats(f@) == interface_counters(ls[n]));
                    }
                    if f.len() >= 9 {
                        assert(as_nats(f@)[0] == f[0] && as_nats(f@)[8] == f[8]);
                        rx = rx + f[0] as u128;
                        tx = tx + f[8] as u128;
                    }
                }
            },
            None => {
                proof {
                    lemma_next_line(is_physical, ls, physical, n, false);
                    physical = physical.push(false);
                }
            },
        }
        i = i + 1;
    }
    assert(ls.take(ls.len() as int) == ls);
    assert(may_answer_all(is_physical, interface_lines(contents@), physical));
    if rx > u64::MAX as u128 || tx > u64::MAX as u128 {
        None
    } else {
        Some((rx as u64, tx as u64))
    }
}

/// The bytes that the physical interfaces received and sent. The sums have to fit in 64 bits
/// for whatever `is_physical` may answer.
pub fn parse_net_dev<F: Fn(&str) -> bool>(contents: &str, is_physical: F) -> (r: (u64, u64))
    requires
        forall|s: &str| #[trigger] call_requires(is_physical, (s,)),
        forall|physical: Seq<bool>| #[trigger]
            may_answer_all(is_physical, interface_lines(contents@), physical) ==> net_totals(
                contents@,
                physical,
            ).0 <= u64::MAX && net_totals(contents@, physical).1 <= u64::MAX,
    ensures
        exists|physical: Seq<bool>|
            #[trigger] may_answer_all(is_physical, interface_lines(contents@), physical)
                && net_totals(contents@, physical) == (r.0 as nat, r.1 as nat),
{
    match checked_net_dev(contents, is_physical) {
        Some(r) => r,
        None => (0, 0),
    }
}

/// The eight numbers from user to steal count once each; of fewer numbers all count, and
/// with fewer than four there are no ticks. Idle and iowait are the idle ticks.
pub proof fn eight_numbers_are_the_total(f: Seq<nat>)
    ensures
        f.len() >= 8 ==> total_ticks(f) == f[0] + f[1] + f[2] + f[3] + f[4] + f[5] + f[6] + f[7],
        f.len() == 7 ==> total_ticks(f) == f[0] + f[1] + f[2] + f[3] + f[4] + f[5] + f[6],
        f.len() == 6 ==> total_ticks(f) == f[0] + f[1] + f[2] + f[3] + f[4] + f[5],
        f.len() == 5 ==> total_ticks(f) == f[0] + f[1] + f[2] + f[3] + f[4],
        f.len() == 4 ==> total_ticks(f) == f[0] + f[1] + f[2] + f[3],
        f.len() >= 5 ==> idle_ticks(f) == f[3] + f[4],
        f.len() == 4 ==> idle_ticks(f) == f[3],
        f.len() < 4 ==> total_ticks(f) == 0 && idle_ticks(f) == 0,
{
    reveal_with_fuel(sum_of, 9);
}

/// Raising one of the first eight numbers raises the total by as much, and the idle ticks
/// only where it is one of those two.
pub proof fn each_number_counts_once(f: Seq<nat>, i: int, k: nat)
    requires
        4 <= f.len(),
        0 <= i < f.len(),
        i < 8,
    ensures
        total_ticks(f.update(i, f[i] + k)) == total_ticks(f) + k,
        idle_ticks(f.update(i, f[i] + k)) == idle_ticks(f) + if i == 3 || i == 4 {
            k
        } else {
            0
        },
{
    reveal_with_fuel(sum_of, 9);
}

/// The numbers of words are those of each word, in order; a word that is no number has none.
pub proof fn words_give_their_numbers(a: Seq<Seq<char>>, w: Seq<char>, b: Seq<Seq<char>>)
    ensures
        naturals(a + b) == naturals(a) + naturals(b),
        naturals(seq![w]) == (match natural(w, 10, u64::MAX as nat) {
            Some(v) => seq![v],
            None => seq![],
        }),
    decreases b.len(),
{
    let one: Seq<Seq<char>> = seq![w];
    assert(one.drop_last().len() == 0);
    assert(naturals(one.drop_last()) == Seq::<nat>::empty());
    assert(Seq::<nat>::empty().push(0) == seq![0nat]);
    if b.len() == 0 {
        assert(a + b == a);
        assert(naturals(a) + naturals(b) == naturals(a));
    } else {
        words_give_their_numbers(a, w, b.drop_last());
        assert((a + b).drop_last() == a + b.drop_last());
        assert((a + b).last() == b.last());
    }
}

/// The ticks are the numbers behind the label of the first line; no other line matters.
pub proof fn first_line_gives_the_ticks(
    label: Seq<char>,
    c: char,
    figures: Seq<char>,
    rest: Seq<char>,
)
    requires
        is_word(label),
        is_space(c),
        c != '\n',
        lacks(figures, '\n'),
        figures.len() > 0 && figures.last() != '\r',
    ensures
        cpu_fields((label.push(c) + figures).push('\n') + rest) == naturals(words_of(figures)),
        cpu_fields(label.push(c) + figures) == naturals(words_of(figures)),
{
    let line: Seq<char> = label.push(c) + figures;
    assert(lacks(line, '\n')) by {
        assert forall|i: int| 0 <= i < line.len() implies line[i] != '\n' by {
            if i < label.len() {
                assert(line[i] == label[i]);
                assert(!is_space(label[i]));
            } else if i == label.len() {
                assert(line[i] == c);
            } else {
                assert(line[i] == figures[i - label.len() - 1]);
            }
        }
    }
    assert(line.last() == figures.last());
    lines_end_at_line_feeds(line, rest);
    words_end_at_white_space(label, c, figures);
    let ws: Seq<Seq<char>> = seq![label] + words_of(figures);
    assert(ws.skip(1) == words_of(figures));
    assert((seq![line] + lines_of(rest))[0] == line);
}

/// A difference of counters that have not gone back; a counter that has gone back makes none.
pub proof fn differences_are_exact(a: u64, b: u64)
    ensures
        a >= b ==> minus(a, b) == a - b,
        a <= b ==> minus(a, b) == 0,
{
}

/// The load is the share of the ticks that were not idle, in percent, off by half a percent
/// at most; above 2^32 ticks by a little more.
pub proof fn load_is_the_busy_share(prev: CpuTimes, cur: CpuTimes)
    requires
        prev.total < cur.total,
        prev.idle <= cur.idle,
        cur.idle - prev.idle <= cur.total - prev.total,
    ensures
        ({
            let total: int = cur.total - prev.total;
            let busy: int = total - (cur.idle - prev.idle);
            let error: int = 2 * (busy_percent(prev, cur) * total - 100 * busy);
            &&& total <= 0x1_0000_0000 ==> -total <= error <= total
            &&& -(0x20_0000_0000_0000 * total + 1600 * busy) <= 0x20_0000_0000_0000 * error
            &&& 0x20_0000_0000_0000 * error <= 0x20_0000_0000_0000 * total + 1600 * busy
        }),
{
    let total: nat = (cur.total - prev.total) as nat;
    let busy: nat = (total - (cur.idle - prev.idle)) as nat;
    percent_is_almost_nearest(busy, total);
    if total <= 0x1_0000_0000 {
        percent_is_nearest(busy, total);
    }
}

/// Counters that stand still or go back show no load; a machine that was idle all the time
/// shows none either, and one that was never idle shows a hundred percent. More idle ticks
/// never show more load.
pub proof fn load_at_the_ends(prev: CpuTimes, cur: CpuTimes, idler: CpuTimes)
    requires
        idler.total == cur.total,
        idler.idle >= cur.idle,
    ensures
        cur.total <= prev.total ==> busy_percent(prev, cur) == 0,
        cur.idle - prev.idle >= cur.total - prev.total ==> busy_percent(prev, cur) == 0,
        cur.total > prev.total && cur.idle <= prev.idle ==> busy_percent(prev, cur) == 100,
        busy_percent(prev, idler) <= busy_percent(prev, cur) <= 100,
{
    let total: nat = minus(cur.total, prev.total);
    if total > 0 {
        let i: nat = minus(cur.idle, prev.idle);
        let j: nat = minus(idler.idle, prev.idle);
        let a: nat = if i >= total {
            0
        } else {
            (total - i) as nat
        };
        let b: nat = if j >= total {
            0
        } else {
            (total - j) as nat
        };
        percent_is_within_bounds(a, total);
        percent_grows_with_the_part(b, a, total);
    }
}

/// A figure is the number between white space, with the unit or without it.
pub proof fn figures_are_numbers(a: Seq<char>, number: Seq<char>, b: Seq<char>)
    requires
        is_blank(a),
        is_blank(b),
        is_word(number),
    ensures
        kilobytes(a + (number + " kB"@) + b) == (match natural(number, 10, u64::MAX as nat) {
            Some(v) => v,
            None => 0,
        }),
        kilobytes(a + number + b) == (match natural(number, 10, u64::MAX as nat) {
            Some(v) => v,
            None => 0,
        }),
{
    reveal_strlit(" kB");
    let unit: Seq<char> = " kB"@;
    let s: Seq<char> = number + unit;
    assert(s[0] == number[0]);
    assert(s.last() == 'B');
    trimming_takes_off_white_space(a, s, b);
    trimming_takes_off_white_space(a, number, b);
    let none: Seq<char> = seq![];
    trimming_takes_off_white_space(none, number, none);
    assert(none + number + none == number);
    assert(!ends(number, unit)) by {
        if ends(number, unit) {
            assert(number.skip(number.len() - 3)[0] == number[number.len() - 3]);
        }
    }
    assert(s.skip(s.len() - 3) == unit);
    assert(s.take(s.len() - 3) == number);
    assert(without_units(number) == number);
    assert(without_units(s) == without_units(number));
}

/// The last line that begins with the key gives the figure.
pub proof fn last_line_gives_the_figure(ls: Seq<Seq<char>>, key: Seq<char>, rest: Seq<char>)
    ensures
        figure(ls.push(key + rest), key) == kilobytes(rest),
        figure(Seq::<Seq<char>>::empty(), key) == 0,
{
    let line: Seq<char> = key + rest;
    assert(ls.push(line).last() == line);
    assert(line.take(key.len() as int) == key);
    assert(line.skip(key.len() as int) == rest);
}

/// One more line of a physical interface adds its first counter to the bytes received and
/// its ninth to the bytes sent; one with fewer than nine counters adds nothing.
pub proof fn interfaces_add_their_first_and_ninth(
    ls: Seq<Seq<char>>,
    physical: Seq<bool>,
    head: Seq<char>,
    text: Seq<char>,
)
    requires
        physical.len() == ls.len(),
        lacks(head, ':'),
    ensures
        ({
            let line: Seq<char> = head.push(':') + text;
            let v: Seq<nat> = naturals(words_of(text));
            let received: nat = counter_sum(ls.push(line), physical.push(true), 0);
            let sent: nat = counter_sum(ls.push(line), physical.push(true), 8);
            &&& names_interface(line)
            &&& interface_name(line) == trim_of(head)
            &&& v.len() >= 9 ==> received == counter_sum(ls, physical, 0) + v[0]
            &&& v.len() >= 9 ==> sent == counter_sum(ls, physical, 8) + v[8]
            &&& v.len() < 9 ==> received == counter_sum(ls, physical, 0)
            &&& v.len() < 9 ==> sent == counter_sum(ls, physical, 8)
        }),
{
    let line: Seq<char> = head.push(':') + text;
    first_occurrence(head, ':', text);
    assert(line.take(head.len() as int) == head);
    assert(line.skip(head.len() as int + 1) == text);
    assert(ls.push(line).drop_last() == ls);
    lemma_counter_sum_prefix(ls, physical.push(true), physical, 0);
    lemma_counter_sum_prefix(ls, physical.push(true), physical, 8);
}

/// A line without a colon describes no interface, and adds nothing.
pub proof fn other_lines_add_nothing(
    ls: Seq<Seq<char>>,
    physical: Seq<bool>,
    line: Seq<char>,
    b: bool,
    column: int,
)
    requires
        physical.len() == ls.len(),
        lacks(line, ':'),
    ensures
        !names_interface(line),
        counter_sum(ls.push(line), physical.push(b), column) == counter_sum(ls, physical, column),
        counter_sum(Seq::<Seq<char>>::empty(), physical, column) == 0,
{
    first_occurrence(line, ':', seq![]);
    assert(ls.push(line).drop_last() == ls);
    lemma_counter_sum_prefix(ls, physical.push(b), physical, column);
}

/// Whatever follows the ninth counter of a line leaves both sums as they are.
pub proof fn further_counters_add_nothing(
    ls: Seq<Seq<char>>,
    physical: Seq<bool>,
    head: Seq<char>,
    text: Seq<char>,
    c: char,
    more: Seq<char>,
)
    requires
        physical.len() == ls.len(),
        lacks(head, ':'),
        is_space(c),
        naturals(words_of(text)).len() >= 9,
    ensures
        ({
            let short: Seq<char> = head.push(':') + text;
            let long: Seq<char> = head.push(':') + (text.push(c) + more);
            let p: Seq<bool> = physical.push(true);
            &&& counter_sum(ls.push(long), p, 0) == counter_sum(ls.push(short), p, 0)
            &&& counter_sum(ls.push(long), p, 8) == counter_sum(ls.push(short), p, 8)
        }),
{
    let whole: Seq<char> = text.push(c) + more;
    words_on_both_sides(text, c, more);
    words_give_their_numbers(words_of(text), seq![], words_of(more));
    interfaces_add_their_first_and_ninth(ls, physical, head, text);
    interfaces_add_their_first_and_ninth(ls, physical, head, whole);
}

/// The first two lines are headings, and the interfaces stand in all others.
pub proof fn headings_are_skipped(
    first: Seq<char>,
    second: Seq<char>,
    body: Seq<char>,
    physical: Seq<bool>,
)
    requires
        lacks(first, '\n'),
        lacks(second, '\n'),
        first.len() > 0 ==> first.last() != '\r',
        second.len() > 0 ==> second.last() != '\r',
    ensures
        ({
            let contents: Seq<char> = first.push('\n') + (second.push('\n') + body);
            &&& interface_lines(contents) == lines_of(body)
            &&& net_totals(contents, physical) == (
                counter_sum(lines_of(body), physical, 0),
                counter_sum(lines_of(body), physical, 8),
            )
        }),
        first.len() > 0 ==> interface_lines(first) == Seq::<Seq<char>>::empty(),
{
    let tail: Seq<char> = second.push('\n') + body;
    lines_end_at_line_feeds(first, tail);
    lines_end_at_line_feeds(second, body);
    let all: Seq<Seq<char>> = seq![first] + (seq![second] + lines_of(body));
    assert(all.skip(2) == lines_of(body));
}

/// A predicate that has one answer for a name gives that answer.
pub proof fn predicates_are_believed<F: Fn(&str) -> bool>(
    f: F,
    name: Seq<char>,
    b: bool,
    answer: bool,
)
    requires
        forall|s: &str, c: bool| s@ == name && #[trigger] call_ensures(f, (s,), c) ==> c == answer,
        may_answer(f, name, b),
    ensures
        b == answer,
{
}

/// Each line of an interface has the answer for the name before its colon.
pub proof fn interfaces_are_asked_by_name<F: Fn(&str) -> bool>(
    f: F,
    ls: Seq<Seq<char>>,
    physical: Seq<bool>,
    i: int,
    head: Seq<char>,
    text: Seq<char>,
)
    requires
        may_answer_all(f, ls, physical),
        0 <= i < ls.len(),
        lacks(head, ':'),
        ls[i] == head.push(':') + text,
    ensures
        physical.len() == ls.len(),
        may_answer(f, trim_of(head), physical[i]),
{
    first_occurrence(head, ':', text);
    assert(ls[i].take(head.len() as int) == head);
    assert(names_interface(ls[i]));
}

/// The counters are seen as the numbers that they are.
pub proof fn counters_are_seen_one_for_one(v: Seq<u64>, i: int)
    requires
        0 <= i < v.len(),
    ensures
        as_nats(v).len() == v.len(),
        as_nats(v)[i] == v[i],
{
}

/// The first line ends at the first line feed; an empty text has an empty first line.
pub proof fn first_lines_end_at_line_feeds(line: Seq<char>, rest: Seq<char>)
    requires
        lacks(line, '\n'),
        line.len() > 0 ==> line.last() != '\r',
    ensures
        first_line(line.push('\n') + rest) == line,
        first_line(line) == line,
{
    lines_end_at_line_feeds(line, rest);
    assert((seq![line] + lines_of(rest))[0] == line);
    if line.len() == 0 {
        assert(line == Seq::<char>::empty());
    }
}

} // verus!
