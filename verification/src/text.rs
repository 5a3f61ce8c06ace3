//! Text as sequences of characters: lines, words, numbers.
use vstd::prelude::*;

verus! {

broadcast use vstd::string::group_string_axioms;

/// The characters with the Unicode property `White_Space`.
pub open spec fn is_space(c: char) -> bool {
    ||| '\u{9}' <= c <= '\u{d}'
    ||| c == '\u{20}'
    ||| c == '\u{85}'
    ||| c == '\u{a0}'
    ||| c == '\u{1680}'
    ||| '\u{2000}' <= c <= '\u{200a}'
    ||| c == '\u{2028}'
    ||| c == '\u{2029}'
    ||| c == '\u{202f}'
    ||| c == '\u{205f}'
    ||| c == '\u{3000}'
}

/// The number of leading characters of `s` that are not `c`.
pub open spec fn index_of(s: Seq<char>, c: char) -> int
    decreases s.len(),
{
    if s.len() == 0 || s[0] == c {
        0
    } else {
        1 + index_of(s.skip(1), c)
    }
}

/// The number of leading characters of `s` that are white space, or that are not.
pub open spec fn run(s: Seq<char>, space: bool) -> int
    decreases s.len(),
{
    if s.len() == 0 || is_space(s[0]) != space {
        0
    } else {
        1 + run(s.skip(1), space)
    }
}

/// `s` without a last carriage return.
pub open spec fn without_cr(s: Seq<char>) -> Seq<char> {
    if s.len() > 0 && s.last() == '\r' {
        s.drop_last()
    } else {
        s
    }
}

/// The lines of `s`, each without its line feed or carriage return and line feed. What
/// follows the last line feed is a line if it is not empty.
pub open spec fn lines_of(s: Seq<char>) -> Seq<Seq<char>>
    decreases s.len(),
{
    let n: int = index_of(s, '\n');
    if s.len() == 0 {
        seq![]
    } else if 0 <= n < s.len() {
        seq![without_cr(s.take(n))] + lines_of(s.skip(n + 1))
    } else {
        seq![s]
    }
}

/// The maximal runs of characters in `s` that are not white space.
pub open spec fn words_of(s: Seq<char>) -> Seq<Seq<char>>
    decreases s.len(),
{
    let t: Seq<char> = s.skip(run(s, true));
    let n: int = run(t, false);
    if 0 < n <= t.len() <= s.len() {
        seq![t.take(n)] + words_of(t.skip(n))
    } else {
        seq![]
    }
}

/// The parts of `s` between the characters `c`: one more than there are `c` in `s`.
pub open spec fn parts_of(s: Seq<char>, c: char) -> Seq<Seq<char>>
    decreases s.len(),
{
    let n: int = index_of(s, c);
    if 0 <= n < s.len() {
        seq![s.take(n)] + parts_of(s.skip(n + 1), c)
    } else {
        seq![s]
    }
}

/// `s` without white space at its end.
pub open spec fn trim_end_of(s: Seq<char>) -> Seq<char>
    decreases s.len(),
{
    if s.len() > 0 && is_space(s.last()) {
        trim_end_of(s.drop_last())
    } else {
        s
    }
}

/// `s` without white space at its ends.
pub open spec fn trim_of(s: Seq<char>) -> Seq<char> {
    trim_end_of(s.skip(run(s, true)))
}

/// `s` begins with `p`.
pub open spec fn begins(s: Seq<char>, p: Seq<char>) -> bool {
    p.len() <= s.len() && s.take(p.len() as int) == p
}

/// `s` ends with `p`.
pub open spec fn ends(s: Seq<char>, p: Seq<char>) -> bool {
    p.len() <= s.len() && s.skip(s.len() - p.len()) == p
}

/// `p` stands somewhere in `s`.
pub open spec fn holds(s: Seq<char>, p: Seq<char>) -> bool {
    exists|i: int| 0 <= i <= s.len() && #[trigger] begins(s.skip(i), p)
}

/// The text of each string.
pub open spec fn texts(v: Seq<&str>) -> Seq<Seq<char>> {
    v.map_values(|s: &str| s@)
}

proof fn lemma_run(s: Seq<char>, space: bool)
    ensures
        0 <= run(s, space) <= s.len(),
        run(s, space) < s.len() ==> is_space(s[run(s, space)]) != space,
    decreases s.len(),
{
    if s.len() > 0 && is_space(s[0]) == space {
        lemma_run(s.skip(1), space);
    }
}

/// The characters of `s`.
pub fn chars_of(s: &str) -> (r: Vec<char>)
    ensures
        r@ == s@,
{
    let mut r: Vec<char> = Vec::new();
    for c in it: s.chars()
        invariant
            r@ == it.seq().take(it.index() as int),
            it.seq() == s@,
    {
        r.push(c);
    }
    r
}

pub fn is_white_space(c: char) -> (r: bool)
    ensures
        r == is_space(c),
{
    ('\u{9}' <= c && c <= '\u{d}') || c == '\u{20}' || c == '\u{85}' || c == '\u{a0}' || c
        == '\u{1680}' || ('\u{2000}' <= c && c <= '\u{200a}') || c == '\u{2028}' || c == '\u{2029}'
        || c == '\u{202f}' || c == '\u{205f}' || c == '\u{3000}'
}

/// The position of the first `c` at or after `from`, or the length.
fn find_from(cs: &Vec<char>, from: usize, c: char) -> (r: usize)
    requires
        from <= cs.len(),
    ensures
        from <= r <= cs.len(),
        r == from + index_of(cs@.skip(from as int), c),
{
    let mut i: usize = from;
    while i < cs.len() && cs[i] != c
        invariant
            from <= i <= cs.len(),
            from + index_of(cs@.skip(from as int), c) == i + index_of(cs@.skip(i as int), c),
        decreases cs.len() - i,
    {
        assert(cs@.skip(i as int).skip(1) == cs@.skip(i + 1));
        i = i + 1;
    }
    i
}

/// The position of the first `c`, or the length.
pub fn find_char(cs: &Vec<char>, c: char) -> (r: usize)
    ensures
        r <= cs.len(),
        r == index_of(cs@, c),
{
    assert(cs@.skip(0) == cs@);
    find_from(cs, 0, c)
}

/// The end of the run of white space, or of other characters, that begins at `from`.
fn run_from(cs: &Vec<char>, from: usize, space: bool) -> (r: usize)
    requires
        from <= cs.len(),
    ensures
        from <= r <= cs.len(),
        r == from + run(cs@.skip(from as int), space),
{
    let mut i: usize = from;
    while i < cs.len() && is_white_space(cs[i]) == space
        invariant
            from <= i <= cs.len(),
            from + run(cs@.skip(from as int), space) == i + run(cs@.skip(i as int), space),
        decreases cs.len() - i,
    {
        assert(cs@.skip(i as int).skip(1) == cs@.skip(i + 1));
        i = i + 1;
    }
    i
}

/// The lines of `s`.
pub fn lines<'a>(s: &'a str) -> (r: Vec<&'a str>)
    ensures
        texts(r@) == lines_of(s@),
{
    let cs: Vec<char> = chars_of(s);
    let mut r: Vec<&'a str> = Vec::new();
    let mut start: usize = 0;
    assert(s@.skip(0) == s@);
    while start < cs.len()
        invariant
            cs@ == s@,
            start <= cs.len(),
            lines_of(s@) == texts(r@) + lines_of(s@.skip(start as int)),
        decreases cs.len() - start,
    {
        let end: usize = find_from(&cs, start, '\n');
        let ghost rest: Seq<char> = s@.skip(start as int);
        let ghost before: Seq<Seq<char>> = texts(r@);
        if end == cs.len() {
            let line: &'a str = s.substring_char(start, end);
            assert(line@ == rest);
            r.push(line);
            assert(texts(r@) == before + seq![rest]);
            assert(s@.skip(end as int).len() == 0);
            start = end;
        } else {
            let stop: usize = if end > start && cs[end - 1] == '\r' {
                end - 1
            } else {
                end
            };
            let line: &'a str = s.substring_char(start, stop);
            assert(line@ == without_cr(rest.take(end - start)));
            assert(rest.skip(end - start + 1) == s@.skip(end + 1));
            r.push(line);
            assert(texts(r@) == before + seq![line@]);
            start = end + 1;
        }
    }
    assert(s@.skip(start as int).len() == 0);
    r
}

/// The words of `s`.
pub fn words<'a>(s: &'a str) -> (r: Vec<&'a str>)
    ensures
        texts(r@) == words_of(s@),
{
    let cs: Vec<char> = chars_of(s);
    let mut r: Vec<&'a str> = Vec::new();
    let mut start: usize = 0;
    assert(s@.skip(0) == s@);
    while start < cs.len()
        invariant
            cs@ == s@,
            start <= cs.len(),
            words_of(s@) == texts(r@) + words_of(s@.skip(start as int)),
        decreases cs.len() - start,
    {
        let ghost rest: Seq<char> = s@.skip(start as int);
        let ghost before: Seq<Seq<char>> = texts(r@);
        let from: usize = run_from(&cs, start, true);
        assert(rest.skip(from - start) == s@.skip(from as int));
        let end: usize = run_from(&cs, from, false);
        if end > from {
            let word: &'a str = s.substring_char(from, end);
            assert(word@ == s@.skip(from as int).take(end - from));
            assert(s@.skip(from as int).skip(end - from) == s@.skip(end as int));
            r.push(word);
            assert(texts(r@) == before + seq![word@]);
        } else {
            proof {
                lemma_run(s@.skip(start as int), true);
                lemma_run(s@.skip(from as int), false);
                assert(from == cs.len());
                assert(words_of(s@.skip(end as int)) == Seq::<Seq<char>>::empty());
            }
        }
        start = end;
    }
    assert(words_of(s@.skip(start as int)) == Seq::<Seq<char>>::empty());
    r
}

/// The parts of `s` between the characters `c`.
pub fn parts<'a>(s: &'a str, c: char) -> (r: Vec<&'a str>)
    ensures
        texts(r@) == parts_of(s@, c),
        r.len() >= 1,
{
    let cs: Vec<char> = chars_of(s);
    let mut r: Vec<&'a str> = Vec::new();
    let mut start: usize = 0;
    let mut end: usize = find_from(&cs, 0, c);
    assert(s@.skip(0) == s@);
    while end < cs.len()
        invariant
            cs@ == s@,
            start <= end <= cs.len(),
            end == start + index_of(s@.skip(start as int), c),
            parts_of(s@, c) == texts(r@) + parts_of(s@.skip(start as int), c),
        decreases cs.len() - end,
    {
        let ghost rest: Seq<char> = s@.skip(start as int);
        let ghost before: Seq<Seq<char>> = texts(r@);
        let part: &'a str = s.substring_char(start, end);
        assert(part@ == rest.take(end - start));
        assert(rest.skip(end - start + 1) == s@.skip(end + 1));
        r.push(part);
        assert(texts(r@) == before + seq![part@]);
        start = end + 1;
        end = find_from(&cs, start, c);
    }
    let ghost before: Seq<Seq<char>> = texts(r@);
    let last: &'a str = s.substring_char(start, end);
    assert(last@ == s@.skip(start as int));
    r.push(last);
    assert(texts(r@) == before + seq![last@]);
    r
}

/// `s` split at its first `c`.
pub fn split_once<'a>(s: &'a str, c: char) -> (r: Option<(&'a str, &'a str)>)
    ensures
        match r {
            Some((a, b)) => {
                &&& 0 <= index_of(s@, c) < s@.len()
                &&& a@ == s@.take(index_of(s@, c))
                &&& b@ == s@.skip(index_of(s@, c) + 1)
            },
            None => index_of(s@, c) == s@.len(),
        },
{
    let cs: Vec<char> = chars_of(s);
    assert(s@.skip(0) == s@);
    let n: usize = find_from(&cs, 0, c);
    if n < cs.len() {
        let a: &'a str = s.substring_char(0, n);
        let b: &'a str = s.substring_char(n + 1, cs.len());
        assert(a@ == s@.take(n as int));
        assert(b@ == s@.skip(n + 1));
        Some((a, b))
    } else {
        None
    }
}

/// `s` without white space at its ends.
pub fn trim<'a>(s: &'a str) -> (r: &'a str)
    ensures
        r@ == trim_of(s@),
{
    let cs: Vec<char> = chars_of(s);
    assert(s@.skip(0) == s@);
    let from: usize = run_from(&cs, 0, true);
    let ghost t: Seq<char> = s@.skip(from as int);
    let mut end: usize = cs.len();
    assert(s@.subrange(from as int, end as int) == t);
    while end > from && is_white_space(cs[end - 1])
        invariant
            cs@ == s@,
            from <= end <= cs.len(),
            trim_end_of(t) == trim_end_of(s@.subrange(from as int, end as int)),
        decreases end,
    {
        assert(s@.subrange(from as int, end as int).drop_last() == s@.subrange(
            from as int,
            end - 1,
        ));
        end = end - 1;
    }
    s.substring_char(from, end)
}

/// Whether the characters of `p` stand in `cs` from `at` on.
fn stands_at(cs: &Vec<char>, at: usize, p: &Vec<char>) -> (r: bool)
    requires
        at <= cs.len(),
    ensures
        r == begins(cs@.skip(at as int), p@),
{
    let ghost rest: Seq<char> = cs@.skip(at as int);
    if p.len() > cs.len() - at {
        return false;
    }
    let mut i: usize = 0;
    while i < p.len()
        invariant
            at + p.len() <= cs.len(),
            rest == cs@.skip(at as int),
            i <= p.len(),
            forall|j: int| 0 <= j < i ==> rest[j] == p[j],
        decreases p.len() - i,
    {
        if cs[at + i] != p[i] {
            assert(rest.take(p.len() as int)[i as int] != p[i as int]);
            return false;
        }
        i = i + 1;
    }
    assert(rest.take(p.len() as int) == p@);
    true
}

pub fn same_text(a: &str, b: &str) -> (r: bool)
    ensures
        r == (a@ == b@),
{
    let x: Vec<char> = chars_of(a);
    let y: Vec<char> = chars_of(b);
    assert(x@.skip(0) == x@);
    assert(x.len() == y.len() ==> x@.take(y.len() as int) == x@);
    x.len() == y.len() && stands_at(&x, 0, &y)
}

pub fn starts_with(s: &str, p: &str) -> (r: bool)
    ensures
        r == begins(s@, p@),
{
    let x: Vec<char> = chars_of(s);
    assert(x@.skip(0) == x@);
    stands_at(&x, 0, &chars_of(p))
}

/// What follows `p` in `s`, where `s` begins with `p`.
pub fn strip_prefix<'a>(s: &'a str, p: &str) -> (r: Option<&'a str>)
    ensures
        match r {
            Some(t) => begins(s@, p@) && t@ == s@.skip(p@.len() as int),
            None => !begins(s@, p@),
        },
{
    if starts_with(s, p) {
        let t: &'a str = s.substring_char(p.unicode_len(), s.unicode_len());
        assert(t@ == s@.skip(p@.len() as int));
        Some(t)
    } else {
        None
    }
}

pub fn ends_with(s: &str, p: &str) -> (r: bool)
    ensures
        r == ends(s@, p@),
{
    let x: Vec<char> = chars_of(s);
    let y: Vec<char> = chars_of(p);
    if y.len() > x.len() {
        return false;
    }
    assert(x@.skip(x.len() - y.len()).take(y.len() as int) == x@.skip(x.len() - y.len()));
    stands_at(&x, x.len() - y.len(), &y)
}

pub fn contains(s: &str, p: &str) -> (r: bool)
    ensures
        r == holds(s@, p@),
{
    let x: Vec<char> = chars_of(s);
    let y: Vec<char> = chars_of(p);
    let mut i: usize = 0;
    loop
        invariant
            x@ == s@,
            y@ == p@,
            i <= x.len(),
            forall|j: int| 0 <= j < i ==> !#[trigger] begins(s@.skip(j), p@),
        decreases x.len() - i,
    {
        if stands_at(&x, i, &y) {
            return true;
        }
        if i == x.len() {
            return false;
        }
        i = i + 1;
    }
}

/// The character `c` does not stand in `s`.
pub open spec fn lacks(s: Seq<char>, c: char) -> bool {
    forall|i: int| 0 <= i < s.len() ==> s[i] != c
}

/// `s` is one word: not empty, and without white space.
pub open spec fn is_word(s: Seq<char>) -> bool {
    s.len() > 0 && forall|i: int| 0 <= i < s.len() ==> !is_space(#[trigger] s[i])
}

/// `s` is white space, or empty.
pub open spec fn is_blank(s: Seq<char>) -> bool {
    forall|i: int| 0 <= i < s.len() ==> is_space(#[trigger] s[i])
}

/// The first `c` stands where no `c` comes before it.
pub proof fn first_occurrence(a: Seq<char>, c: char, b: Seq<char>)
    requires
        lacks(a, c),
    ensures
        index_of(a, c) == a.len(),
        index_of(a.push(c) + b, c) == a.len(),
    decreases a.len(),
{
    let s: Seq<char> = a.push(c) + b;
    if a.len() > 0 {
        assert(lacks(a.skip(1), c)) by {
            assert forall|i: int| 0 <= i < a.skip(1).len() implies a.skip(1)[i] != c by {
                assert(a.skip(1)[i] == a[i + 1]);
            }
        }
        first_occurrence(a.skip(1), c, b);
        assert(s[0] == a[0]);
        assert(s.skip(1) == a.skip(1).push(c) + b);
    }
}

/// A line ends at its line feed, and loses one carriage return before it. What follows is
/// split likewise; at the end of the text a line needs no line feed.
pub proof fn lines_end_at_line_feeds(line: Seq<char>, rest: Seq<char>)
    requires
        lacks(line, '\n'),
    ensures
        lines_of(line.push('\r').push('\n') + rest) == seq![line] + lines_of(rest),
        line.len() == 0 || line.last() != '\r' ==> lines_of(line.push('\n') + rest) == seq![line]
            + lines_of(rest),
        line.len() > 0 ==> lines_of(line) == seq![line],
        lines_of(Seq::<char>::empty()) == Seq::<Seq<char>>::empty(),
{
    first_occurrence(line, '\n', rest);
    let s: Seq<char> = line.push('\n') + rest;
    assert(s.take(line.len() as int) == line);
    assert(s.skip(line.len() as int + 1) == rest);
    let l: Seq<char> = line.push('\r');
    first_occurrence(l, '\n', rest);
    let t: Seq<char> = l.push('\n') + rest;
    assert(t.take(l.len() as int) == l);
    assert(t.skip(l.len() as int + 1) == rest);
    assert(l.drop_last() == line);
}

/// A part ends at the next separator.
pub proof fn parts_end_at_separators(part: Seq<char>, c: char, rest: Seq<char>)
    requires
        lacks(part, c),
    ensures
        parts_of(part.push(c) + rest, c) == seq![part] + parts_of(rest, c),
        parts_of(part, c) == seq![part],
{
    first_occurrence(part, c, rest);
    let s: Seq<char> = part.push(c) + rest;
    assert(s.take(part.len() as int) == part);
    assert(s.skip(part.len() as int + 1) == rest);
}

proof fn lemma_run_of_word(w: Seq<char>, rest: Seq<char>)
    requires
        forall|i: int| 0 <= i < w.len() ==> !is_space(#[trigger] w[i]),
        rest.len() == 0 || is_space(rest[0]),
    ensures
        run(w + rest, false) == w.len(),
    decreases w.len(),
{
    let s: Seq<char> = w + rest;
    if w.len() > 0 {
        assert forall|i: int| 0 <= i < w.skip(1).len() implies !is_space(
            #[trigger] w.skip(1)[i],
        ) by {
            assert(w.skip(1)[i] == w[i + 1]);
        }
        lemma_run_of_word(w.skip(1), rest);
        assert(s.skip(1) == w.skip(1) + rest);
        assert(s[0] == w[0]);
    } else {
        assert(s == rest);
    }
}

proof fn lemma_run_of_blank(a: Seq<char>, rest: Seq<char>)
    requires
        is_blank(a),
        rest.len() == 0 || !is_space(rest[0]),
    ensures
        run(a + rest, true) == a.len(),
    decreases a.len(),
{
    let s: Seq<char> = a + rest;
    if a.len() > 0 {
        assert forall|i: int| 0 <= i < a.skip(1).len() implies is_space(
            #[trigger] a.skip(1)[i],
        ) by {
            assert(a.skip(1)[i] == a[i + 1]);
        }
        lemma_run_of_blank(a.skip(1), rest);
        assert(s.skip(1) == a.skip(1) + rest);
        assert(s[0] == a[0]);
    } else {
        assert(s == rest);
    }
}

/// A word ends at white space, which is no part of any word.
pub proof fn words_end_at_white_space(word: Seq<char>, c: char, rest: Seq<char>)
    requires
        is_word(word),
        is_space(c),
    ensures
        words_of(word.push(c) + rest) == seq![word] + words_of(rest),
        words_of(word) == seq![word],
        words_of(seq![c] + rest) == words_of(rest),
        words_of(Seq::<char>::empty()) == Seq::<Seq<char>>::empty(),
{
    let s: Seq<char> = word.push(c) + rest;
    let tail: Seq<char> = seq![c] + rest;
    assert(s == word + tail);
    assert(s[0] == word[0]);
    assert(s.skip(0) == s);
    lemma_run_of_word(word, tail);
    assert(s.take(word.len() as int) == word);
    assert(s.skip(word.len() as int) == tail);
    lemma_leading_space(c, rest);
    assert(words_of(s) == seq![word] + words_of(tail));
    let none: Seq<char> = seq![];
    assert(word + none == word);
    lemma_run_of_word(word, none);
    assert(word.skip(0) == word);
    assert(word.take(word.len() as int) == word);
    assert(word.skip(word.len() as int) == none);
    assert(words_of(none) == Seq::<Seq<char>>::empty());
    assert(words_of(word) =~= seq![word]);
}

proof fn lemma_leading_space(c: char, rest: Seq<char>)
    requires
        is_space(c),
    ensures
        words_of(seq![c] + rest) == words_of(rest),
{
    let s: Seq<char> = seq![c] + rest;
    assert(s.skip(1) == rest);
    lemma_run(rest, true);
    assert(run(s, true) == 1 + run(rest, true));
    assert(s.skip(run(s, true)) == rest.skip(run(rest, true)));
}

/// The words on both sides of white space are the words of the whole.
pub proof fn words_on_both_sides(a: Seq<char>, c: char, b: Seq<char>)
    requires
        is_space(c),
    ensures
        words_of(a.push(c) + b) == words_of(a) + words_of(b),
    decreases a.len(),
{
    let whole: Seq<char> = a.push(c) + b;
    if a.len() == 0 {
        assert(whole == seq![c] + b);
        lemma_leading_space(c, b);
        assert(words_of(a) == Seq::<Seq<char>>::empty());
        assert(words_of(a) + words_of(b) == words_of(b));
    } else if is_space(a[0]) {
        let t: Seq<char> = a.skip(1);
        words_on_both_sides(t, c, b);
        assert(a == seq![a[0]] + t);
        assert(whole == seq![a[0]] + (t.push(c) + b));
        lemma_leading_space(a[0], t);
        lemma_leading_space(a[0], t.push(c) + b);
    } else {
        lemma_run(a, false);
        let n: int = run(a, false);
        let w: Seq<char> = a.take(n);
        lemma_run_holds(a, n);
        assert(is_word(w)) by {
            assert forall|i: int| 0 <= i < w.len() implies !is_space(#[trigger] w[i]) by {
                assert(w[i] == a[i]);
            }
        }
        if n == a.len() {
            assert(w == a);
            words_end_at_white_space(w, c, b);
        } else {
            let t: Seq<char> = a.skip(n + 1);
            words_on_both_sides(t, c, b);
            assert(a == w.push(a[n]) + t);
            assert(whole == w.push(a[n]) + (t.push(c) + b));
            words_end_at_white_space(w, a[n], t);
            words_end_at_white_space(w, a[n], t.push(c) + b);
            assert(seq![w] + (words_of(t) + words_of(b)) == (seq![w] + words_of(t)) + words_of(b));
        }
    }
}

proof fn lemma_run_holds(s: Seq<char>, n: int)
    requires
        n <= run(s, false),
        n <= s.len(),
    ensures
        forall|i: int| 0 <= i < n ==> !is_space(#[trigger] s[i]),
    decreases s.len(),
{
    if s.len() > 0 && n > 0 {
        lemma_run_holds(s.skip(1), n - 1);
        assert forall|i: int| 0 <= i < n implies !is_space(#[trigger] s[i]) by {
            if i > 0 {
                assert(s.skip(1)[i - 1] == s[i]);
            }
        }
    }
}

/// Trimming takes the white space off both ends, and nothing else.
pub proof fn trimming_takes_off_white_space(a: Seq<char>, text: Seq<char>, b: Seq<char>)
    requires
        is_blank(a),
        is_blank(b),
        text.len() > 0 ==> !is_space(text[0]) && !is_space(text.last()),
    ensures
        trim_of(a + text + b) == text,
{
    let s: Seq<char> = a + text + b;
    if text.len() > 0 {
        assert(s == a + (text + b));
        assert((text + b)[0] == text[0]);
        lemma_run_of_blank(a, text + b);
        assert(s.skip(a.len() as int) == text + b);
        lemma_trim_end(text, b);
    } else {
        assert(s == (a + b) + text);
        assert forall|i: int| 0 <= i < (a + b).len() implies is_space(#[trigger] (a + b)[i]) by {
            if i >= a.len() {
                assert((a + b)[i] == b[i - a.len()]);
            } else {
                assert((a + b)[i] == a[i]);
            }
        }
        lemma_run_of_blank(a + b, text);
        assert(s.skip(s.len() as int) == text);
    }
}

proof fn lemma_trim_end(text: Seq<char>, b: Seq<char>)
    requires
        is_blank(b),
        text.len() > 0 ==> !is_space(text.last()),
    ensures
        trim_end_of(text + b) == text,
    decreases b.len(),
{
    if b.len() == 0 {
        assert(text + b == text);
    } else {
        assert((text + b).last() == b.last());
        assert((text + b).drop_last() == text + b.drop_last());
        assert forall|i: int| 0 <= i < b.drop_last().len() implies is_space(
            #[trigger] b.drop_last()[i],
        ) by {
            assert(b.drop_last()[i] == b[i]);
        }
        lemma_trim_end(text, b.drop_last());
    }
}

/// A text begins with `p` exactly where it is `p` and something behind it, ends with `p`
/// exactly where it is something and `p` behind it, and holds `p` exactly where it is
/// something, `p`, and something behind it.
pub proof fn places_of_a_text(s: Seq<char>, p: Seq<char>)
    ensures
        begins(s, p) <==> exists|b: Seq<char>| s == #[trigger] (p + b),
        ends(s, p) <==> exists|a: Seq<char>| s == #[trigger] (a + p),
        holds(s, p) <==> exists|a: Seq<char>, b: Seq<char>| s == #[trigger] (a + p + b),
{
    if begins(s, p) {
        assert(s == p + s.skip(p.len() as int));
    }
    if exists|b: Seq<char>| s == #[trigger] (p + b) {
        assert(s.take(p.len() as int) == p);
    }
    if ends(s, p) {
        assert(s == s.take(s.len() - p.len()) + p);
    }
    if exists|a: Seq<char>| s == #[trigger] (a + p) {
        assert(s.skip(s.len() - p.len()) == p);
    }
    if holds(s, p) {
        let i: int = choose|i: int| 0 <= i <= s.len() && #[trigger] begins(s.skip(i), p);
        assert(s == s.take(i) + p + s.skip(i + p.len())) by {
            assert(s.skip(i).take(p.len() as int) == p);
            assert forall|j: int| 0 <= j < s.len() implies s[j] == (s.take(i) + p + s.skip(
                i + p.len(),
            ))[j] by {
                if i <= j < i + p.len() {
                    assert(s.skip(i).take(p.len() as int)[j - i] == s[j]);
                }
            }
        }
    }
    if exists|a: Seq<char>, b: Seq<char>| s == #[trigger] (a + p + b) {
        let (a, b): (Seq<char>, Seq<char>) = choose|a: Seq<char>, b: Seq<char>|
            s == #[trigger] (a + p + b);
        assert(s.skip(a.len() as int).take(p.len() as int) == p);
        assert(begins(s.skip(a.len() as int), p));
    }
}

/// Each string is seen as its text.
pub proof fn strings_are_seen_one_for_one(v: Seq<&str>, i: int)
    requires
        0 <= i < v.len(),
    ensures
        texts(v).len() == v.len(),
        texts(v)[i] == v[i]@,
{
}

} // verus!
