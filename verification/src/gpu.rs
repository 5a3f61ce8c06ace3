//! The load of the integrated graphics, from the counters of the i915 driver.
//!
//! For each engine the driver counts the nanoseconds during which the engine was busy. The
//! load is that of the busiest engine, so that decoding a video shows as readily as drawing.
use crate::numbers::{natural, parse_hex, parse_u32};
use crate::procfs::{as_nats, minus};
use crate::text::{
    begins, ends, ends_with, is_blank, is_word, strip_prefix, trim, trim_of,
    trimming_takes_off_white_space,
};
use vstd::prelude::*;

verus! {

broadcast use vstd::string::group_string_axioms;

/// The number in a text that holds nothing else.
pub open spec fn number_in(text: Seq<char>) -> Option<nat> {
    natural(trim_of(text), 10, u32::MAX as nat)
}

/// The number by which the kernel knows the driver's counters.
pub fn pmu_type(contents: Option<&str>) -> (r: Option<u32>)
    ensures
        match contents {
            Some(text) => match r {
                Some(n) => number_in(text@) == Some(n as nat),
                None => number_in(text@) is None,
            },
            None => r is None,
        },
{
    match contents {
        Some(text) => parse_u32(trim(text)),
        None => None,
    }
}

/// The texts, one for one.
pub open spec fn names_in(names: Seq<String>) -> Seq<Seq<char>> {
    names.map_values(|s: String| s@)
}

/// The names of the events that count busy time, in their order.
pub open spec fn busy_names(names: Seq<Seq<char>>) -> Seq<Seq<char>>
    decreases names.len(),
{
    if names.len() == 0 {
        seq![]
    } else if ends(names.last(), "-busy"@) {
        busy_names(names.drop_last()).push(names.last())
    } else {
        busy_names(names.drop_last())
    }
}

/// `a` stands before `b` in a dictionary, or is `b`.
pub open spec fn in_order(a: Seq<char>, b: Seq<char>) -> bool
    decreases a.len(),
{
    if a.len() == 0 {
        true
    } else if b.len() == 0 {
        false
    } else if a[0] != b[0] {
        a[0] < b[0]
    } else {
        in_order(a.skip(1), b.skip(1))
    }
}

/// Each text stands before those that follow it.
pub open spec fn is_sorted(s: Seq<Seq<char>>) -> bool {
    forall|i: int, j: int| 0 <= i <= j < s.len() ==> in_order(#[trigger] s[i], #[trigger] s[j])
}

proof fn lemma_in_order_same(a: Seq<char>)
    ensures
        in_order(a, a),
    decreases a.len(),
{
    if a.len() > 0 {
        lemma_in_order_same(a.skip(1));
    }
}

proof fn lemma_in_order_chain(a: Seq<char>, b: Seq<char>, c: Seq<char>)
    requires
        in_order(a, b),
        in_order(b, c),
    ensures
        in_order(a, c),
    decreases a.len(),
{
    if a.len() > 0 && a[0] == b[0] && b[0] == c[0] {
        lemma_in_order_chain(a.skip(1), b.skip(1), c.skip(1));
    }
}

proof fn lemma_in_order_either(a: Seq<char>, b: Seq<char>)
    ensures
        in_order(a, b) || in_order(b, a),
    decreases a.len(),
{
    if a.len() > 0 && b.len() > 0 && a[0] == b[0] {
        lemma_in_order_either(a.skip(1), b.skip(1));
    }
}

proof fn lemma_in_order_from(a: Seq<char>, b: Seq<char>, n: int)
    requires
        0 <= n <= a.len(),
        n <= b.len(),
        a.take(n) == b.take(n),
    ensures
        in_order(a, b) == in_order(a.skip(n), b.skip(n)),
    decreases n,
{
    if n == 0 {
        assert(a.skip(0) == a && b.skip(0) == b);
    } else {
        assert(a[0] == a.take(n)[0] && b[0] == b.take(n)[0]);
        assert(a.skip(1).take(n - 1) == a.take(n).skip(1));
        assert(b.skip(1).take(n - 1) == b.take(n).skip(1));
        lemma_in_order_from(a.skip(1), b.skip(1), n - 1);
        assert(a.skip(1).skip(n - 1) == a.skip(n));
        assert(b.skip(1).skip(n - 1) == b.skip(n));
    }
}

/// `a` stands before `b` in a dictionary, or is `b`.
fn is_in_order(a: &str, b: &str) -> (r: bool)
    ensures
        r == in_order(a@, b@),
{
    let x: Vec<char> = crate::text::chars_of(a);
    let y: Vec<char> = crate::text::chars_of(b);
    let mut i: usize = 0;
    while i < x.len() && i < y.len()
        invariant
            i <= x.len(),
            i <= y.len(),
            x@ == a@,
            y@ == b@,
            a@.take(i as int) == b@.take(i as int),
        decreases x.len() - i,
    {
        if x[i] != y[i] {
            proof {
                lemma_in_order_from(a@, b@, i as int);
            }
            return x[i] < y[i];
        }
        assert(a@.take(i + 1) == a@.take(i as int).push(a@[i as int]));
        assert(b@.take(i + 1) == b@.take(i as int).push(b@[i as int]));
        i = i + 1;
    }
    proof {
        lemma_in_order_from(a@, b@, i as int);
    }
    i == x.len()
}

/// Puts a text into its place among sorted ones.
fn insert_sorted(names: &mut Vec<String>, name: String)
    requires
        is_sorted(names_in(old(names)@)),
    ensures
        is_sorted(names_in(final(names)@)),
        names_in(final(names)@).to_multiset() == names_in(old(names)@).to_multiset().insert(name@),
{
    let ghost s: Seq<Seq<char>> = names_in(names@);
    let mut at: usize = names.len();
    while at > 0 && !is_in_order(names[at - 1].as_str(), name.as_str())
        invariant
            at <= names.len(),
            s == names_in(names@),
            forall|j: int| at <= j < s.len() ==> !in_order(#[trigger] s[j], name@),
        decreases at,
    {
        assert(s[at - 1] == names[at - 1]@);
        at = at - 1;
    }
    proof {
        if at > 0 {
            assert(s[at - 1] == names[at - 1]@);
        }
    }
    let ghost text: Seq<char> = name@;
    names.insert(at, name);
    proof {
        let t: Seq<Seq<char>> = names_in(names@);
        assert(t =~= s.insert(at as int, text));
        assert forall|i: int, j: int| 0 <= i <= j < t.len() implies in_order(
            #[trigger] t[i],
            #[trigger] t[j],
        ) by {
            lemma_in_order_same(text);
            if i < at && j == at {
                assert(in_order(s[i], s[at - 1]));
                lemma_in_order_chain(s[i], s[at - 1], text);
            } else if i == at && j > at {
                lemma_in_order_either(s[j - 1], text);
            } else if i < at && j < at {
                assert(in_order(s[i], s[j]));
            } else if i < at {
                assert(in_order(s[i], s[j - 1]));
            } else if i > at {
                assert(in_order(s[i - 1], s[j - 1]));
            }
        }
        vstd::seq_lib::to_multiset_insert(s, at as int, text);
    }
}

/// The names of the events that count busy time, sorted.
pub fn busy_events(names: &Vec<String>) -> (r: Vec<String>)
    ensures
        is_sorted(names_in(r@)),
        names_in(r@).to_multiset() == busy_names(names_in(names@)).to_multiset(),
{
    let ghost all: Seq<Seq<char>> = names_in(names@);
    let mut r: Vec<String> = Vec::new();
    let mut i: usize = 0;
    assert(names_in(r@) == busy_names(all.take(0)));
    while i < names.len()
        invariant
            i <= names.len(),
            all == names_in(names@),
            is_sorted(names_in(r@)),
            names_in(r@).to_multiset() == busy_names(all.take(i as int)).to_multiset(),
        decreases names.len() - i,
    {
        proof {
            assert(all.take(i + 1).drop_last() == all.take(i as int));
            assert(all.take(i + 1).last() == names[i as int]@);
            busy_names(all.take(i as int)).to_multiset_ensures();
        }
        if ends_with(names[i].as_str(), "-busy") {
            insert_sorted(&mut r, names[i].as_str().to_string());
        }
        i = i + 1;
    }
    assert(all.take(all.len() as int) == all);
    r
}

/// The path of the event's description.
pub fn event_path(name: &str) -> (r: String)
    ensures
        r@ == "/sys/devices/i915/events/"@ + name@,
{
    let mut r: String = "/sys/devices/i915/events/".to_string();
    r.append(name);
    r
}

/// The number in an event's description, such as `config=0x1000`.
pub open spec fn described_config(text: Seq<char>) -> Option<nat> {
    let t: Seq<char> = trim_of(text);
    if begins(t, "config=0x"@) {
        natural(t.skip("config=0x"@.len() as int), 16, u64::MAX as nat)
    } else {
        None
    }
}

/// The number in an event's description.
pub fn event_config(contents: Option<&str>) -> (r: Option<u64>)
    ensures
        match contents {
            Some(text) => match r {
                Some(n) => described_config(text@) == Some(n as nat),
                None => described_config(text@) is None,
            },
            None => r is None,
        },
{
    match contents {
        Some(text) => match strip_prefix(trim(text), "config=0x") {
            Some(hex) => parse_hex(hex),
            None => None,
        },
        None => None,
    }
}

/// The numbers in the events' descriptions, in order. A description that cannot be read, or
/// that holds no number, is left out.
pub open spec fn described_configs(descriptions: Seq<Option<String>>) -> Seq<nat>
    decreases descriptions.len(),
{
    if descriptions.len() == 0 {
        seq![]
    } else {
        let before: Seq<nat> = described_configs(descriptions.drop_last());
        match descriptions.last() {
            Some(text) => match described_config(text@) {
                Some(n) => before.push(n),
                None => before,
            },
            None => before,
        }
    }
}

/// The numbers in the events' descriptions, in order.
pub fn event_configs(descriptions: &Vec<Option<String>>) -> (r: Vec<u64>)
    ensures
        as_nats(r@) == described_configs(descriptions@),
{
    let mut r: Vec<u64> = Vec::new();
    let mut i: usize = 0;
    assert(as_nats(r@) == described_configs(descriptions@.take(0)));
    while i < descriptions.len()
        invariant
            i <= descriptions.len(),
            as_nats(r@) == described_configs(descriptions@.take(i as int)),
        decreases descriptions.len() - i,
    {
        let ghost before: Seq<nat> = as_nats(r@);
        proof {
            assert(descriptions@.take(i + 1).drop_last() == descriptions@.take(i as int));
            assert(descriptions@.take(i + 1).last() == descriptions@[i as int]);
        }
        match &descriptions[i] {
            Some(text) => match event_config(Some(text.as_str())) {
                Some(n) => {
                    r.push(n);
                    assert(as_nats(r@) == before.push(n as nat));
                },
                None => {},
            },
            None => {},
        }
        i = i + 1;
    }
    assert(descriptions@.take(i as int) == descriptions@);
    r
}

/// The size of the kernel's description of a counter.
pub const ATTR_SIZE: usize = 128;

/// The number that bytes make, the lowest first.
pub open spec fn little_endian(bytes: Seq<u8>) -> nat
    decreases bytes.len(),
{
    if bytes.len() == 0 {
        0
    } else {
        bytes[0] as nat + 256 * little_endian(bytes.skip(1))
    }
}

/// Writes the lowest `count` bytes of `n`, the lowest first.
fn push_little_endian(out: &mut Vec<u8>, n: u64, count: usize)
    requires
        count <= 8,
        count < 8 ==> n < 0x1_0000_0000,
        count == 4 || count == 8,
    ensures
        final(out)@.len() == old(out)@.len() + count,
        final(out)@.take(old(out)@.len() as int) == old(out)@,
        little_endian(final(out)@.skip(old(out)@.len() as int)) == n,
{
    let ghost start: Seq<u8> = out@;
    let b0: u8 = (n % 256) as u8;
    let n1: u64 = n / 256;
    let b1: u8 = (n1 % 256) as u8;
    let n2: u64 = n1 / 256;
    let b2: u8 = (n2 % 256) as u8;
    let n3: u64 = n2 / 256;
    let b3: u8 = (n3 % 256) as u8;
    let n4: u64 = n3 / 256;
    out.push(b0);
    out.push(b1);
    out.push(b2);
    out.push(b3);
    proof {
        reveal_with_fuel(little_endian, 9);
    }
    if count == 4 {
        assert(n4 == 0);
        assert(out@.take(start.len() as int) == start);
        assert(out@.skip(start.len() as int) == seq![b0, b1, b2, b3]);
        assert(little_endian(seq![b0, b1, b2, b3]) == n);
        return;
    }
    let b4: u8 = (n4 % 256) as u8;
    let n5: u64 = n4 / 256;
    let b5: u8 = (n5 % 256) as u8;
    let n6: u64 = n5 / 256;
    let b6: u8 = (n6 % 256) as u8;
    let b7: u8 = (n6 / 256) as u8;
    out.push(b4);
    out.push(b5);
    out.push(b6);
    out.push(b7);
    assert(out@.take(start.len() as int) == start);
    assert(out@.skip(start.len() as int) == seq![b0, b1, b2, b3, b4, b5, b6, b7]);
    assert(little_endian(seq![b0, b1, b2, b3, b4, b5, b6, b7]) == n);
}

/// The kernel's description of a plain counter: the type, the description's own size and the
/// configuration; everything else is zero.
pub fn perf_event_attr(pmu_type: u32, config: u64) -> (r: Vec<u8>)
    ensures
        r.len() == ATTR_SIZE,
        little_endian(r@.subrange(0, 4)) == pmu_type,
        little_endian(r@.subrange(4, 8)) == ATTR_SIZE,
        little_endian(r@.subrange(8, 16)) == config,
        forall|i: int| 16 <= i < ATTR_SIZE ==> r[i] == 0,
{
    let mut r: Vec<u8> = Vec::new();
    push_little_endian(&mut r, pmu_type as u64, 4);
    let ghost first: Seq<u8> = r@;
    push_little_endian(&mut r, ATTR_SIZE as u64, 4);
    let ghost second: Seq<u8> = r@;
    push_little_endian(&mut r, config, 8);
    let ghost third: Seq<u8> = r@;
    while r.len() < ATTR_SIZE
        invariant
            16 <= r.len() <= ATTR_SIZE,
            third.len() == 16,
            r@.take(16) == third,
            forall|i: int| 16 <= i < r.len() ==> r[i] == 0,
        decreases ATTR_SIZE - r.len(),
    {
        let ghost before: Seq<u8> = r@;
        r.push(0);
        assert(r@.take(16) == before.take(16));
    }
    proof {
        assert(r@.subrange(8, 16) == third.skip(8)) by {
            assert(r@.subrange(8, 16) == r@.take(16).skip(8));
        }
        assert(r@.subrange(4, 8) == second.skip(4)) by {
            assert(r@.subrange(4, 8) == r@.take(16).take(8).skip(4));
        }
        assert(r@.subrange(0, 4) == first.skip(0)) by {
            assert(r@.subrange(0, 4) == r@.take(16).take(8).take(4));
            assert(first.skip(0) == first);
        }
    }
    r
}

/// A counter's value, zero where it could not be read whole.
pub open spec fn counter_value(bytes: Seq<u8>) -> nat {
    if bytes.len() == 8 {
        little_endian(bytes)
    } else {
        0
    }
}

/// A counter's value, from the bytes that were read of it.
pub fn read_counter(bytes: &Vec<u8>) -> (r: u64)
    ensures
        r == counter_value(bytes@),
{
    if bytes.len() != 8 {
        return 0;
    }
    proof {
        reveal_with_fuel(little_endian, 9);
        assert(bytes@ == seq![
            bytes[0],
            bytes[1],
            bytes[2],
            bytes[3],
            bytes[4],
            bytes[5],
            bytes[6],
            bytes[7],
        ]);
    }
    let low: u64 = bytes[0] as u64 + bytes[1] as u64 * 0x100 + bytes[2] as u64 * 0x1_0000
        + bytes[3] as u64 * 0x100_0000;
    let high: u64 = bytes[4] as u64 + bytes[5] as u64 * 0x100 + bytes[6] as u64 * 0x1_0000
        + bytes[7] as u64 * 0x100_0000;
    low + high * 0x1_0000_0000
}

/// The share of the time that one engine was busy, in percent.
pub open spec fn engine_percent(prev: u64, cur: u64, elapsed_ns: u64) -> nat {
    (minus(cur, prev) * 100) / elapsed_ns as nat
}

/// The number of engines that have a value before and after.
pub open spec fn engines(prev: Seq<u64>, cur: Seq<u64>) -> int {
    if prev.len() <= cur.len() {
        prev.len() as int
    } else {
        cur.len() as int
    }
}

/// The greatest share among the first `n` engines.
pub open spec fn busiest(prev: Seq<u64>, cur: Seq<u64>, elapsed_ns: u64, n: int) -> nat
    decreases n,
{
    if n <= 0 {
        0
    } else {
        let p: nat = engine_percent(prev[n - 1], cur[n - 1], elapsed_ns);
        let q: nat = busiest(prev, cur, elapsed_ns, n - 1);
        if p >= q {
            p
        } else {
            q
        }
    }
}

/// The load since the counters were `prev`: that of the busiest engine, 100 at most.
pub open spec fn gpu_load(prev: Seq<u64>, cur: Seq<u64>, elapsed_ns: u64) -> int {
    if elapsed_ns == 0 {
        0
    } else {
        let load: nat = busiest(prev, cur, elapsed_ns, engines(prev, cur));
        if load < 100 {
            load as int
        } else {
            100
        }
    }
}

/// The shares can be computed in 64 bits.
pub open spec fn counters_fit(prev: Seq<u64>, cur: Seq<u64>, elapsed_ns: u64) -> bool {
    elapsed_ns > 0 ==> forall|i: int|
        0 <= i < engines(prev, cur) ==> minus(#[trigger] cur[i], prev[i]) * 100 <= u64::MAX
}

proof fn lemma_busiest_is_greatest(prev: Seq<u64>, cur: Seq<u64>, elapsed_ns: u64, n: int)
    ensures
        forall|i: int|
            0 <= i < n ==> engine_percent(prev[i], #[trigger] cur[i], elapsed_ns) <= busiest(
                prev,
                cur,
                elapsed_ns,
                n,
            ),
        n > 0 ==> exists|i: int|
            0 <= i < n && engine_percent(prev[i], #[trigger] cur[i], elapsed_ns) == busiest(
                prev,
                cur,
                elapsed_ns,
                n,
            ),
    decreases n,
{
    if n > 0 {
        reveal_with_fuel(busiest, 2);
        lemma_busiest_is_greatest(prev, cur, elapsed_ns, n - 1);
        let last: u64 = cur[n - 1];
        assert(engine_percent(prev[n - 1], last, elapsed_ns) <= busiest(prev, cur, elapsed_ns, n));
        if n > 1 && engine_percent(prev[n - 1], last, elapsed_ns) < busiest(
            prev,
            cur,
            elapsed_ns,
            n - 1,
        ) {
            let i: int = choose|i: int|
                0 <= i < n - 1 && engine_percent(prev[i], #[trigger] cur[i], elapsed_ns)
                    == busiest(prev, cur, elapsed_ns, n - 1);
            assert(engine_percent(prev[i], cur[i], elapsed_ns) == busiest(
                prev,
                cur,
                elapsed_ns,
                n,
            ));
        } else {
            assert(engine_percent(prev[n - 1], cur[n - 1], elapsed_ns) == busiest(
                prev,
                cur,
                elapsed_ns,
                n,
            ));
        }
    }
}

/// Whatever the counters say, the load is a percentage.
pub proof fn load_is_a_percentage(prev: Seq<u64>, cur: Seq<u64>, elapsed_ns: u64)
    ensures
        0 <= gpu_load(prev, cur, elapsed_ns) <= 100,
{
}

/// No engine is busier than the load says, unless the load is 100; below 100 one engine is
/// as busy.
pub proof fn load_is_that_of_the_busiest(
    prev: Seq<u64>,
    cur: Seq<u64>,
    elapsed_ns: u64,
    i: int,
)
    requires
        elapsed_ns > 0,
        0 <= i < engines(prev, cur),
    ensures
        engine_percent(prev[i], cur[i], elapsed_ns) <= gpu_load(prev, cur, elapsed_ns) || gpu_load(
            prev,
            cur,
            elapsed_ns,
        ) == 100,
        gpu_load(prev, cur, elapsed_ns) < 100 ==> exists|j: int|
            0 <= j < engines(prev, cur) && engine_percent(prev[j], #[trigger] cur[j], elapsed_ns)
                == gpu_load(prev, cur, elapsed_ns),
{
    lemma_busiest_is_greatest(prev, cur, elapsed_ns, engines(prev, cur));
}

/// Engines whose counters stand still are idle.
pub proof fn still_engines_are_idle(counters: Seq<u64>, elapsed_ns: u64)
    ensures
        gpu_load(counters, counters, elapsed_ns) == 0,
{
    lemma_still_engines(counters, elapsed_ns, counters.len() as int);
}

proof fn lemma_still_engines(counters: Seq<u64>, elapsed_ns: u64, n: int)
    ensures
        elapsed_ns > 0 ==> busiest(counters, counters, elapsed_ns, n) == 0,
    decreases n,
{
    if n > 0 && elapsed_ns > 0 {
        lemma_still_engines(counters, elapsed_ns, n - 1);
        assert(0nat / elapsed_ns as nat == 0) by (nonlinear_arith)
            requires
                elapsed_ns > 0,
        ;
    }
}

/// The counters of the engines, as they were last read.
#[derive(Debug)]
pub struct GpuBusy {
    pub prev: Vec<u64>,
}

impl GpuBusy {
    /// The counters' first values. Without a counter there is no load to report.
    pub fn open(counters: Vec<u64>) -> (r: Option<GpuBusy>)
        ensures
            counters.len() == 0 ==> r is None,
            counters.len() > 0 ==> (r matches Some(g) && g.prev@ == counters@),
    {
        if counters.len() == 0 {
            None
        } else {
            Some(GpuBusy { prev: counters })
        }
    }

    /// The shares can be computed in 64 bits.
    pub fn fits(&self, cur: &Vec<u64>, elapsed_ns: u64) -> (r: bool)
        ensures
            r == counters_fit(self.prev@, cur@, elapsed_ns),
    {
        if elapsed_ns == 0 {
            return true;
        }
        let mut i: usize = 0;
        while i < self.prev.len() && i < cur.len()
            invariant
                i <= self.prev.len(),
                i <= cur.len(),
                elapsed_ns > 0,
                forall|j: int|
                    0 <= j < i ==> minus(#[trigger] cur[j], self.prev[j]) * 100 <= u64::MAX,
            decreases cur.len() - i,
        {
            if cur[i].saturating_sub(self.prev[i]) > u64::MAX / 100 {
                assert(minus(cur@[i as int], self.prev@[i as int]) * 100 > u64::MAX);
                return false;
            }
            i = i + 1;
        }
        true
    }

    /// The load since the counters were last read. The shares have to fit in 64 bits.
    pub fn percent(&mut self, cur: Vec<u64>, elapsed_ns: u64) -> (r: i64)
        requires
            counters_fit(old(self).prev@, cur@, elapsed_ns),
        ensures
            r == gpu_load(old(self).prev@, cur@, elapsed_ns),
            0 <= r <= 100,
            final(self).prev@ == cur@,
    {
        let mut most: u64 = 0;
        if elapsed_ns > 0 {
            let mut i: usize = 0;
            while i < self.prev.len() && i < cur.len()
                invariant
                    i <= self.prev.len(),
                    i <= cur.len(),
                    elapsed_ns > 0,
                    self.prev@ == old(self).prev@,
                    counters_fit(self.prev@, cur@, elapsed_ns),
                    most == busiest(self.prev@, cur@, elapsed_ns, i as int),
                decreases cur.len() - i,
            {
                assert(minus(cur@[i as int], self.prev@[i as int]) * 100 <= u64::MAX);
                let share: u64 = cur[i].saturating_sub(self.prev[i]) * 100 / elapsed_ns;
                if share >= most {
                    most = share;
                }
                i = i + 1;
            }
        }
        self.prev = cur;
        if most < 100 {
            most as i64
        } else {
            100
        }
    }
}

/// Where no engine gained more than the engine `j`, the load is the share of the time that
/// this engine was busy, in percent, rounded down; it is 100 exactly where the engine was
/// busy all the time. A counter that went back gained nothing.
pub proof fn load_is_the_busiest_share(prev: Seq<u64>, cur: Seq<u64>, elapsed_ns: u64, j: int)
    requires
        elapsed_ns > 0,
        0 <= j < prev.len(),
        j < cur.len(),
        forall|i: int|
            0 <= i < prev.len() && i < cur.len() ==> #[trigger] cur[i] - prev[i] <= cur[j] - prev[j]
                || cur[i] <= prev[i],
    ensures
        ({
            let gain: int = if cur[j] >= prev[j] {
                cur[j] - prev[j]
            } else {
                0
            };
            let load: int = gpu_load(prev, cur, elapsed_ns);
            &&& load == 100 <==> gain >= elapsed_ns
            &&& load < 100 ==> load * elapsed_ns <= 100 * gain < (load + 1) * elapsed_ns
        }),
{
    let n: int = engines(prev, cur);
    let gain: int = if cur[j] >= prev[j] {
        cur[j] - prev[j]
    } else {
        0
    };
    let e: int = elapsed_ns as int;
    lemma_busiest_is_greatest(prev, cur, elapsed_ns, n);
    let i: int = choose|i: int|
        0 <= i < n && engine_percent(prev[i], #[trigger] cur[i], elapsed_ns) == busiest(
            prev,
            cur,
            elapsed_ns,
            n,
        );
    assert(cur[i] - prev[i] <= cur[j] - prev[j] || cur[i] <= prev[i]);
    let g: int = minus(cur[i], prev[i]) as int;
    assert(g <= gain);
    let p: int = busiest(prev, cur, elapsed_ns, n) as int;
    assert((g * 100) / e <= (gain * 100) / e) by (nonlinear_arith)
        requires
            g <= gain,
            e > 0,
    ;
    assert(p == (gain * 100) / e) by {
        assert(engine_percent(prev[j], cur[j], elapsed_ns) <= busiest(prev, cur, elapsed_ns, n));
    }
    assert(p * e <= gain * 100 && gain * 100 < (p + 1) * e) by (nonlinear_arith)
        requires
            p == (gain * 100) / e,
            e > 0,
    ;
    assert(p >= 100 <==> gain >= e) by (nonlinear_arith)
        requires
            p * e <= gain * 100,
            gain * 100 < (p + 1) * e,
            e > 0,
    {
        if p >= 100 {
            assert(100 * e <= p * e);
        } else {
            assert((p + 1) * e <= 100 * e);
        }
    }
}

/// Without engines, and without elapsed time, there is no load. A greater gain of an engine
/// never lowers the load.
pub proof fn gains_never_lower_the_load(
    prev: Seq<u64>,
    cur: Seq<u64>,
    elapsed_ns: u64,
    i: int,
    more: u64,
)
    requires
        0 <= i < cur.len(),
        cur[i] <= more,
    ensures
        gpu_load(prev, cur, 0) == 0,
        gpu_load(Seq::<u64>::empty(), cur, elapsed_ns) == 0,
        gpu_load(prev, cur, elapsed_ns) <= gpu_load(prev, cur.update(i, more), elapsed_ns),
{
    if elapsed_ns > 0 {
        lemma_gain(prev, cur, elapsed_ns, i, more, engines(prev, cur));
    }
}

proof fn lemma_gain(prev: Seq<u64>, cur: Seq<u64>, elapsed_ns: u64, i: int, more: u64, n: int)
    requires
        0 <= i < cur.len(),
        cur[i] <= more,
        elapsed_ns > 0,
        n <= cur.len(),
    ensures
        busiest(prev, cur, elapsed_ns, n) <= busiest(prev, cur.update(i, more), elapsed_ns, n),
    decreases n,
{
    if n > 0 {
        lemma_gain(prev, cur, elapsed_ns, i, more, n - 1);
        if n - 1 == i {
            let a: int = minus(cur[i], prev[i]) as int * 100;
            let b: int = minus(more, prev[i]) as int * 100;
            let e: int = elapsed_ns as int;
            assert(a / e <= b / e) by (nonlinear_arith)
                requires
                    a <= b,
                    e > 0,
            ;
        }
    }
}

/// A number's bytes are its digits in base 256, the lowest first.
pub proof fn bytes_are_digits(byte: u8, rest: Seq<u8>)
    ensures
        little_endian(seq![byte] + rest) == byte + 256 * little_endian(rest),
        little_endian(Seq::<u8>::empty()) == 0,
{
    assert((seq![byte] + rest).skip(1) == rest);
}

/// A description gives the hexadecimal number behind its key, whatever white space stands
/// around it; any other text gives none.
pub proof fn descriptions_give_their_number(a: Seq<char>, number: Seq<char>, b: Seq<char>)
    requires
        is_blank(a),
        is_blank(b),
        is_word(number),
    ensures
        described_config(a + ("config=0x"@ + number) + b) == natural(
            number,
            16,
            u64::MAX as nat,
        ),
        !begins(number, "config=0x"@) ==> described_config(a + number + b) is None,
{
    reveal_strlit("config=0x");
    let key: Seq<char> = "config=0x"@;
    let s: Seq<char> = key + number;
    assert(s[0] == 'c');
    assert(s.last() == number.last());
    trimming_takes_off_white_space(a, s, b);
    trimming_takes_off_white_space(a, number, b);
    assert(s.take(key.len() as int) == key);
    assert(s.skip(key.len() as int) == number);
}

/// Of one more name it is its ending that decides whether it is picked.
pub proof fn endings_decide(names: Seq<Seq<char>>, stem: Seq<char>, other: Seq<char>)
    requires
        !ends(other, "-busy"@),
    ensures
        busy_names(names.push(stem + "-busy"@)) == busy_names(names).push(stem + "-busy"@),
        busy_names(names.push(other)) == busy_names(names),
        busy_names(Seq::<Seq<char>>::empty()) == Seq::<Seq<char>>::empty(),
{
    let name: Seq<char> = stem + "-busy"@;
    assert(name.skip(name.len() - "-busy"@.len()) == "-busy"@);
    assert(names.push(name).drop_last() == names);
    assert(names.push(other).drop_last() == names);
}

/// The order is that of a dictionary: the first character that differs decides, and a text
/// comes before its own continuations.
pub proof fn first_difference_decides(
    common: Seq<char>,
    a: char,
    b: char,
    x: Seq<char>,
    y: Seq<char>,
)
    requires
        a < b,
    ensures
        in_order(common + (seq![a] + x), common + (seq![b] + y)),
        !in_order(common + (seq![b] + y), common + (seq![a] + x)),
        in_order(common, common + (seq![a] + x)),
        !in_order(common + (seq![a] + x), common),
{
    let n: int = common.len() as int;
    let (s, t): (Seq<char>, Seq<char>) = (common + (seq![a] + x), common + (seq![b] + y));
    assert(s.take(n) == common && t.take(n) == common && common.take(n) == common);
    lemma_in_order_from(s, t, n);
    lemma_in_order_from(t, s, n);
    lemma_in_order_from(common, s, n);
    lemma_in_order_from(s, common, n);
    assert(s.skip(n) == seq![a] + x);
    assert(t.skip(n) == seq![b] + y);
    assert(common.skip(n).len() == 0);
}

/// Each name is seen as its text.
pub proof fn names_are_seen_one_for_one(names: Seq<String>, i: int)
    requires
        0 <= i < names.len(),
    ensures
        names_in(names).len() == names.len(),
        names_in(names)[i] == names[i]@,
{
}

/// One more description adds its number behind the others, where it has one.
pub proof fn descriptions_add_their_number(
    descriptions: Seq<Option<String>>,
    one: Option<String>,
)
    ensures
        described_configs(descriptions.push(one)) == described_configs(descriptions) + (match one {
            Some(text) => match described_config(text@) {
                Some(n) => seq![n],
                None => seq![],
            },
            None => seq![],
        }),
        described_configs(Seq::<Option<String>>::empty()) == Seq::<nat>::empty(),
{
    assert(descriptions.push(one).drop_last() == descriptions);
}

/// The type's number stands between white space.
pub proof fn types_are_numbers(a: Seq<char>, number: Seq<char>, b: Seq<char>)
    requires
        is_blank(a),
        is_blank(b),
        is_word(number),
    ensures
        number_in(a + number + b) == natural(number, 10, u32::MAX as nat),
{
    trimming_takes_off_white_space(a, number, b);
}

/// Sorted lists of the same texts are the same list: in which order the names were listed
/// does not matter.
pub proof fn sorted_lists_are_unique(a: Seq<Seq<char>>, b: Seq<Seq<char>>)
    requires
        is_sorted(a),
        is_sorted(b),
        a.to_multiset() == b.to_multiset(),
    ensures
        a == b,
    decreases a.len(),
{
    a.to_multiset_ensures();
    b.to_multiset_ensures();
    if a.len() == 0 {
        assert(a == b);
    } else {
        let x: Seq<char> = a.last();
        let y: Seq<char> = b.last();
        assert(a.contains(x)) by {
            assert(a[a.len() - 1] == x);
        }
        assert(b.contains(y)) by {
            assert(b[b.len() - 1] == y);
        }
        assert(b.contains(x)) by {
            assert(b.to_multiset().count(x) > 0);
        }
        assert(a.contains(y)) by {
            assert(a.to_multiset().count(y) > 0);
        }
        let i: int = choose|i: int| 0 <= i < b.len() && b[i] == x;
        let j: int = choose|j: int| 0 <= j < a.len() && a[j] == y;
        assert(in_order(b[i], b[b.len() - 1]));
        assert(in_order(a[j], a[a.len() - 1]));
        lemma_in_order_both(x, y);
        let c: Seq<Seq<char>> = a.drop_last();
        let d: Seq<Seq<char>> = b.drop_last();
        assert(is_sorted(c)) by {
            assert forall|i: int, j: int| 0 <= i <= j < c.len() implies in_order(
                #[trigger] c[i],
                #[trigger] c[j],
            ) by {
                assert(in_order(a[i], a[j]));
            }
        }
        assert(is_sorted(d)) by {
            assert forall|i: int, j: int| 0 <= i <= j < d.len() implies in_order(
                #[trigger] d[i],
                #[trigger] d[j],
            ) by {
                assert(in_order(b[i], b[j]));
            }
        }
        assert(c.push(x) == a);
        assert(d.push(y) == b);
        vstd::seq_lib::to_multiset_build(c, x);
        vstd::seq_lib::to_multiset_build(d, y);
        assert(c.to_multiset() =~= a.to_multiset().remove(x));
        assert(d.to_multiset() =~= b.to_multiset().remove(x));
        sorted_lists_are_unique(c, d);
    }
}

proof fn lemma_in_order_both(a: Seq<char>, b: Seq<char>)
    requires
        in_order(a, b),
        in_order(b, a),
    ensures
        a == b,
    decreases a.len(),
{
    if a.len() > 0 {
        lemma_in_order_both(a.skip(1), b.skip(1));
        assert(a == seq![a[0]] + a.skip(1));
        assert(b == seq![b[0]] + b.skip(1));
    } else {
        assert(b.len() == 0);
        assert(a == b);
    }
}

} // verus!
