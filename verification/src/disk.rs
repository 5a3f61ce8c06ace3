//! The disk behind the root of the file system.
use crate::text::{
    begins, index_of, is_space, is_word, lacks, lines, lines_of, parts, parts_end_at_separators,
    parts_of, same_text, starts_with, texts, words, words_end_at_white_space, words_of,
};
use vstd::prelude::*;

verus! {

broadcast use vstd::string::group_string_axioms;

/// A line of `/proc/mounts` that mounts a device on `mount`: the device, then the directory.
pub open spec fn mounts_device(line: Seq<char>, mount: Seq<char>) -> bool {
    let ws: Seq<Seq<char>> = words_of(line);
    ws.len() >= 2 && ws[1] == mount && begins(ws[0], "/dev/"@)
}

/// The device that the last such line mounts: later mounts hide earlier ones.
pub open spec fn mounted_device(ls: Seq<Seq<char>>, mount: Seq<char>) -> Option<Seq<char>>
    decreases ls.len(),
{
    if ls.len() == 0 {
        None
    } else if mounts_device(ls.last(), mount) {
        Some(words_of(ls.last())[0])
    } else {
        mounted_device(ls.drop_last(), mount)
    }
}

/// A later mount hides the earlier ones.
pub proof fn later_mounts_hide_earlier(ls: Seq<Seq<char>>, line: Seq<char>, mount: Seq<char>)
    ensures
        mounts_device(line, mount) ==> mounted_device(ls.push(line), mount) == Some(
            words_of(line)[0],
        ),
        !mounts_device(line, mount) ==> mounted_device(ls.push(line), mount) == mounted_device(
            ls,
            mount,
        ),
{
    assert(ls.push(line).drop_last() == ls);
}

/// The device that is mounted on `mount`.
fn mount_source(mounts: &str, mount: &str) -> (r: Option<String>)
    ensures
        match r {
            Some(s) => mounted_device(lines_of(mounts@), mount@) == Some(s@),
            None => mounted_device(lines_of(mounts@), mount@) is None,
        },
{
    let ls: Vec<&str> = lines(mounts);
    let ghost all: Seq<Seq<char>> = lines_of(mounts@);
    let mut n: usize = ls.len();
    assert(all.take(all.len() as int) == all);
    assert(all.len() == ls.len());
    while n > 0
        invariant
            n <= ls.len(),
            all == texts(ls@),
            all == lines_of(mounts@),
            all.len() == ls.len(),
            mounted_device(all, mount@) == mounted_device(all.take(n as int), mount@),
        decreases n,
    {
        n = n - 1;
        let ws: Vec<&str> = words(ls[n]);
        proof {
            assert(all.take(n + 1).drop_last() == all.take(n as int));
            assert(all.take(n + 1).last() == ls[n as int]@);
            assert(texts(ws@).len() == ws.len());
            if ws.len() >= 2 {
                assert(texts(ws@)[0] == ws[0]@ && texts(ws@)[1] == ws[1]@);
            }
        }
        if ws.len() >= 2 && same_text(ws[1], mount) && starts_with(ws[0], "/dev/") {
            return Some(ws[0].to_string());
        }
    }
    None
}

/// A part of a path that names something.
pub open spec fn is_name(part: Seq<char>) -> bool {
    part.len() > 0 && part != seq!['.']
}

/// The names in a path: its parts between slashes, but for empty ones and single dots.
pub open spec fn names_of(parts: Seq<Seq<char>>) -> Seq<Seq<char>>
    decreases parts.len(),
{
    if parts.len() == 0 {
        seq![]
    } else if is_name(parts.last()) {
        names_of(parts.drop_last()).push(parts.last())
    } else {
        names_of(parts.drop_last())
    }
}

/// The name that is `up` names above the end of the path, unless it is that of a parent
/// directory, or there are too few.
pub open spec fn name_above(path: Seq<char>, up: int) -> Option<Seq<char>> {
    let names: Seq<Seq<char>> = names_of(parts_of(path, '/'));
    if names.len() > up && names[names.len() - 1 - up] != seq!['.', '.'] {
        Some(names[names.len() - 1 - up])
    } else {
        None
    }
}

/// The name that is `up` names above the end of the path.
fn find_name(path: &str, up: usize) -> (r: Option<String>)
    ensures
        match r {
            Some(s) => name_above(path@, up as int) == Some(s@),
            None => name_above(path@, up as int) is None,
        },
{
    let ps: Vec<&str> = parts(path, '/');
    let ghost all: Seq<Seq<char>> = parts_of(path@, '/');
    let mut names: Vec<&str> = Vec::new();
    let mut i: usize = 0;
    proof {
        reveal_strlit(".");
        reveal_strlit("..");
        assert("."@ == seq!['.']);
        assert(".."@ == seq!['.', '.']);
        assert(texts(names@) == names_of(all.take(0)));
        assert(all.len() == ps.len());
    }
    while i < ps.len()
        invariant
            i <= ps.len(),
            all == texts(ps@),
            all.len() == ps.len(),
            texts(names@) == names_of(all.take(i as int)),
            "."@ == seq!['.'],
        decreases ps.len() - i,
    {
        let ghost before: Seq<Seq<char>> = texts(names@);
        proof {
            assert(all.take(i + 1).drop_last() == all.take(i as int));
            assert(all.take(i + 1).last() == ps[i as int]@);
        }
        if !ps[i].is_empty() && !same_text(ps[i], ".") {
            names.push(ps[i]);
            assert(texts(names@) == before.push(ps[i as int]@));
        }
        i = i + 1;
    }
    assert(all.take(all.len() as int) == all);
    assert(texts(names@).len() == names.len());
    if names.len() > up {
        let name: &str = names[names.len() - 1 - up];
        assert(texts(names@)[names.len() - 1 - up] == name@);
        if same_text(name, "..") {
            None
        } else {
            Some(name.to_string())
        }
    } else {
        None
    }
}

/// The search for the disk: what is known, and what has to be looked up next.
#[derive(Debug)]
pub enum DiskSearch {
    /// The path `source` has to be resolved; it is that of the mapped device `name`.
    ResolveMapped { source: String, name: String },
    /// The first entry of the directory `dir` is needed; it stands below `name`.
    ListBelow { dir: String, name: String },
    /// Whether `path` exists has to be known: then `name` is a partition.
    IsPartition { path: String, name: String },
    /// The path `path` of a partition has to be resolved.
    ResolvePartition { path: String },
    /// This is the disk.
    Found(String),
    /// There is none.
    Unknown,
}

impl DiskSearch {
    /// How many lookups can be left.
    pub open spec fn lookups_left(self) -> nat {
        match self {
            DiskSearch::ResolveMapped { .. } => 4,
            DiskSearch::ListBelow { .. } => 3,
            DiskSearch::IsPartition { .. } => 2,
            DiskSearch::ResolvePartition { .. } => 1,
            _ => 0,
        }
    }
}

/// The directory in which the kernel describes block devices.
pub open spec fn block_path(name: Seq<char>) -> Seq<char> {
    "/sys/class/block/"@ + name
}

fn ask_partition(name: String) -> (r: DiskSearch)
    ensures
        r@ == SearchView::of_device(name@),
{
    let mut path: String = "/sys/class/block/".to_string();
    path.append(name.as_str());
    path.append("/partition");
    DiskSearch::IsPartition { path, name }
}

/// The search for the disk behind `mount`, from what `/proc/mounts` says.
pub fn root_blockdev(mounts: Option<&str>, mount: &str) -> (r: DiskSearch)
    ensures
        match mounts {
            Some(text) => match mounted_device(lines_of(text@), mount@) {
                Some(source) => r@ == SearchView::begin(source),
                None => r is Unknown,
            },
            None => r is Unknown,
        },
{
    match mounts {
        Some(text) => match mount_source(text, mount) {
            Some(source) => match find_name(source.as_str(), 0) {
                Some(name) => if starts_with(name.as_str(), "dm-") || starts_with(
                    source.as_str(),
                    "/dev/mapper/",
                ) {
                    DiskSearch::ResolveMapped { source, name }
                } else {
                    ask_partition(name)
                },
                None => DiskSearch::Unknown,
            },
            None => DiskSearch::Unknown,
        },
        None => DiskSearch::Unknown,
    }
}

/// The mapped device `name` has the resolved path `resolved`: what stands below it is next.
pub fn mapped_resolved(name: String, resolved: Option<&str>) -> (r: DiskSearch)
    ensures
        r.lookups_left() < 4,
        match resolved {
            Some(path) => match name_above(path@, 0) {
                Some(dm) => r matches DiskSearch::ListBelow { dir, name: n } && n@ == name@
                    && dir@ == block_path(dm) + "/slaves"@,
                None => r is Unknown,
            },
            None => r is Unknown,
        },
{
    match resolved {
        Some(path) => match find_name(path, 0) {
            Some(dm) => {
                let mut dir: String = "/sys/class/block/".to_string();
                dir.append(dm.as_str());
                dir.append("/slaves");
                DiskSearch::ListBelow { dir, name }
            },
            None => DiskSearch::Unknown,
        },
        None => DiskSearch::Unknown,
    }
}

/// The first entry below a mapped device.
#[derive(Debug)]
pub enum FirstEntry {
    /// There is none, or the directory cannot be read.
    Missing,
    /// Its name is not text.
    Unreadable,
    Named(String),
}

/// The first device below the mapped device takes its place, where there is one.
pub fn below_listed(name: String, first: FirstEntry) -> (r: DiskSearch)
    ensures
        r.lookups_left() < 3,
        match first {
            FirstEntry::Missing => r@ == SearchView::of_device(name@),
            FirstEntry::Unreadable => r is Unknown,
            FirstEntry::Named(n) => r@ == SearchView::of_device(n@),
        },
{
    match first {
        FirstEntry::Missing => ask_partition(name),
        FirstEntry::Unreadable => DiskSearch::Unknown,
        FirstEntry::Named(n) => ask_partition(n),
    }
}

/// The device is the disk, unless it is a partition of it.
pub fn partition_checked(name: String, is_partition: bool) -> (r: DiskSearch)
    ensures
        r.lookups_left() < 2,
        if is_partition {
            r matches DiskSearch::ResolvePartition { path } && path@ == block_path(name@)
        } else {
            r matches DiskSearch::Found(n) && n@ == name@
        },
{
    if is_partition {
        let mut path: String = "/sys/class/block/".to_string();
        path.append(name.as_str());
        DiskSearch::ResolvePartition { path }
    } else {
        DiskSearch::Found(name)
    }
}

/// The directory above a partition is that of its disk.
pub fn partition_resolved(resolved: Option<&str>) -> (r: DiskSearch)
    ensures
        r.lookups_left() < 1,
        match resolved {
            Some(path) => match name_above(path@, 1) {
                Some(disk) => r matches DiskSearch::Found(n) && n@ == disk,
                None => r is Unknown,
            },
            None => r is Unknown,
        },
{
    match resolved {
        Some(path) => match find_name(path, 1) {
            Some(disk) => DiskSearch::Found(disk),
            None => DiskSearch::Unknown,
        },
        None => DiskSearch::Unknown,
    }
}

/// What is looked up next, or what the search came to.
#[derive(Debug)]
pub enum Lookup {
    /// The path with all links resolved.
    Resolve(String),
    /// The first entry of the directory.
    FirstEntry(String),
    /// Whether the path exists.
    Exists(String),
    /// Nothing: this is the disk, where there is one.
    Nothing(Option<String>),
}

/// What a lookup found.
#[derive(Debug)]
pub enum Answer {
    /// The resolved path, where there is one.
    Resolved(Option<String>),
    First(FirstEntry),
    Exists(bool),
}

/// What a system says of its paths.
pub struct System {
    /// The path with all links resolved.
    pub resolved: spec_fn(Seq<char>) -> Option<Seq<char>>,
    /// The first entry of a directory: none, one whose name is not text, or a name.
    pub first: spec_fn(Seq<char>) -> Option<Option<Seq<char>>>,
    /// Whether the path exists.
    pub exists: spec_fn(Seq<char>) -> bool,
}

/// A search, by the texts in it.
pub enum SearchView {
    ResolveMapped { source: Seq<char>, name: Seq<char> },
    ListBelow { dir: Seq<char>, name: Seq<char> },
    IsPartition { path: Seq<char>, name: Seq<char> },
    ResolvePartition { path: Seq<char> },
    Found(Seq<char>),
    Unknown,
}

/// An answer, by the texts in it.
pub enum AnswerView {
    Resolved(Option<Seq<char>>),
    First(Option<Option<Seq<char>>>),
    Exists(bool),
}

impl View for DiskSearch {
    type V = SearchView;

    open spec fn view(&self) -> SearchView {
        match *self {
            DiskSearch::ResolveMapped { source, name } => SearchView::ResolveMapped {
                source: source@,
                name: name@,
            },
            DiskSearch::ListBelow { dir, name } => SearchView::ListBelow { dir: dir@, name: name@ },
            DiskSearch::IsPartition { path, name } => SearchView::IsPartition {
                path: path@,
                name: name@,
            },
            DiskSearch::ResolvePartition { path } => SearchView::ResolvePartition { path: path@ },
            DiskSearch::Found(name) => SearchView::Found(name@),
            DiskSearch::Unknown => SearchView::Unknown,
        }
    }
}

impl View for FirstEntry {
    type V = Option<Option<Seq<char>>>;

    open spec fn view(&self) -> Option<Option<Seq<char>>> {
        match *self {
            FirstEntry::Missing => None,
            FirstEntry::Unreadable => Some(None),
            FirstEntry::Named(name) => Some(Some(name@)),
        }
    }
}

impl View for Answer {
    type V = AnswerView;

    open spec fn view(&self) -> AnswerView {
        match *self {
            Answer::Resolved(Some(path)) => AnswerView::Resolved(Some(path@)),
            Answer::Resolved(None) => AnswerView::Resolved(None),
            Answer::First(entry) => AnswerView::First(entry@),
            Answer::Exists(b) => AnswerView::Exists(b),
        }
    }
}

impl SearchView {
    /// The search for the disk of the device `source` begins.
    pub open spec fn begin(source: Seq<char>) -> SearchView {
        match name_above(source, 0) {
            Some(device) => if is_mapped(source, device) {
                SearchView::ResolveMapped { source, name: device }
            } else {
                SearchView::of_device(device)
            },
            None => SearchView::Unknown,
        }
    }

    /// Whether the device is a partition is looked up.
    pub open spec fn of_device(device: Seq<char>) -> SearchView {
        SearchView::IsPartition { path: block_path(device) + "/partition"@, name: device }
    }

    /// The search after the answer. An answer to another question changes nothing.
    pub open spec fn after(self, answer: AnswerView) -> SearchView {
        match (self, answer) {
            (SearchView::ResolveMapped { name, .. }, AnswerView::Resolved(path)) => match path {
                Some(p) => match name_above(p, 0) {
                    Some(dm) => SearchView::ListBelow { dir: block_path(dm) + "/slaves"@, name },
                    None => SearchView::Unknown,
                },
                None => SearchView::Unknown,
            },
            (SearchView::ListBelow { name, .. }, AnswerView::First(entry)) => match entry {
                None => SearchView::of_device(name),
                Some(None) => SearchView::Unknown,
                Some(Some(n)) => SearchView::of_device(n),
            },
            (SearchView::IsPartition { name, .. }, AnswerView::Exists(b)) => if b {
                SearchView::ResolvePartition { path: block_path(name) }
            } else {
                SearchView::Found(name)
            },
            (SearchView::ResolvePartition { .. }, AnswerView::Resolved(path)) => match path {
                Some(p) => match name_above(p, 1) {
                    Some(disk) => SearchView::Found(disk),
                    None => SearchView::Unknown,
                },
                None => SearchView::Unknown,
            },
            _ => self,
        }
    }

    /// What the system answers to the lookup that is next.
    pub open spec fn answer(self, system: System) -> AnswerView {
        match self {
            SearchView::ResolveMapped { source, .. } => AnswerView::Resolved(
                (system.resolved)(source),
            ),
            SearchView::ListBelow { dir, .. } => AnswerView::First((system.first)(dir)),
            SearchView::IsPartition { path, .. } => AnswerView::Exists((system.exists)(path)),
            SearchView::ResolvePartition { path } => AnswerView::Resolved((system.resolved)(path)),
            _ => AnswerView::Exists(false),
        }
    }

    /// The search after one lookup in the system.
    pub open spec fn step(self, system: System) -> SearchView {
        self.after(self.answer(system))
    }

    /// The search has come to this, where it is over.
    pub open spec fn result(self) -> Option<Option<Seq<char>>> {
        match self {
            SearchView::Found(name) => Some(Some(name)),
            SearchView::Unknown => Some(None),
            _ => None,
        }
    }
}

/// The device `source` with the name `device` is a mapped one.
pub open spec fn is_mapped(source: Seq<char>, device: Seq<char>) -> bool {
    begins(device, "dm-"@) || begins(source, "/dev/mapper/"@)
}

/// The device below `source`: for a mapped device the first one that it is made of, where
/// one is listed, and otherwise the device itself.
pub open spec fn device_below(source: Seq<char>, system: System) -> Option<Seq<char>> {
    match name_above(source, 0) {
        Some(device) => if is_mapped(source, device) {
            match (system.resolved)(source) {
                Some(path) => match name_above(path, 0) {
                    Some(dm) => match (system.first)(block_path(dm) + "/slaves"@) {
                        None => Some(device),
                        Some(first) => first,
                    },
                    None => None,
                },
                None => None,
            }
        } else {
            Some(device)
        },
        None => None,
    }
}

/// The disk of a device: for a partition the name above its resolved path, and otherwise the
/// device itself.
pub open spec fn disk_of(device: Seq<char>, system: System) -> Option<Seq<char>> {
    if (system.exists)(block_path(device) + "/partition"@) {
        match (system.resolved)(block_path(device)) {
            Some(path) => name_above(path, 1),
            None => None,
        }
    } else {
        Some(device)
    }
}

/// The disk behind the device `source`.
pub open spec fn disk_behind(source: Seq<char>, system: System) -> Option<Seq<char>> {
    match device_below(source, system) {
        Some(device) => disk_of(device, system),
        None => None,
    }
}

/// The search finds the disk behind the device, in four lookups at most: a mapped device
/// leads to the first device that it is made of, a partition to the name above its resolved
/// path, and a whole disk to itself.
pub proof fn search_finds_the_disk(source: Seq<char>, system: System)
    ensures
        SearchView::begin(source).step(system).step(system).step(system).step(system).result()
            == Some(disk_behind(source, system)),
{
}

impl DiskSearch {
    /// What is looked up next, or what the search came to.
    pub fn lookup(&self) -> (r: Lookup)
        ensures
            match self@ {
                SearchView::ResolveMapped { source, .. } => r matches Lookup::Resolve(p) && p@
                    == source,
                SearchView::ListBelow { dir, .. } => r matches Lookup::FirstEntry(p) && p@ == dir,
                SearchView::IsPartition { path, .. } => r matches Lookup::Exists(p) && p@ == path,
                SearchView::ResolvePartition { path } => r matches Lookup::Resolve(p) && p@ == path,
                SearchView::Found(name) => r matches Lookup::Nothing(Some(n)) && n@ == name,
                SearchView::Unknown => r matches Lookup::Nothing(None),
            },
    {
        match self {
            DiskSearch::ResolveMapped { source, name: _ } => Lookup::Resolve(
                source.as_str().to_string(),
            ),
            DiskSearch::ListBelow { dir, name: _ } => Lookup::FirstEntry(dir.as_str().to_string()),
            DiskSearch::IsPartition { path, name: _ } => Lookup::Exists(path.as_str().to_string()),
            DiskSearch::ResolvePartition { path } => Lookup::Resolve(path.as_str().to_string()),
            DiskSearch::Found(name) => Lookup::Nothing(Some(name.as_str().to_string())),
            DiskSearch::Unknown => Lookup::Nothing(None),
        }
    }

    /// The search after the answer.
    pub fn answered(self, answer: Answer) -> (r: DiskSearch)
        ensures
            r@ == self@.after(answer@),
    {
        match (self, answer) {
            (DiskSearch::ResolveMapped { source: _, name }, Answer::Resolved(path)) => {
                mapped_resolved(name, text_of(&path))
            },
            (DiskSearch::ListBelow { dir: _, name }, Answer::First(entry)) => below_listed(
                name,
                entry,
            ),
            (DiskSearch::IsPartition { path: _, name }, Answer::Exists(b)) => partition_checked(
                name,
                b,
            ),
            (DiskSearch::ResolvePartition { path: _ }, Answer::Resolved(path)) => {
                partition_resolved(text_of(&path))
            },
            (other, _) => other,
        }
    }
}

/// The text, where there is one.
fn text_of(s: &Option<String>) -> (r: Option<&str>)
    ensures
        match *s {
            Some(t) => r matches Some(u) && u@ == t@,
            None => r is None,
        },
{
    match s {
        Some(t) => Some(t.as_str()),
        None => None,
    }
}

/// The size of a file system, in blocks.
#[derive(Clone, Copy, Debug, PartialEq, Eq)]
pub struct FsSize {
    pub block_size: u64,
    pub blocks: u64,
    pub free_blocks: u64,
}

/// The bytes in use and in all, zero where the size is not known. Both products have to fit
/// in 64 bits.
pub fn disk_usage(size: Option<FsSize>) -> (r: (u64, u64))
    requires
        size matches Some(s) ==> s.blocks * s.block_size <= u64::MAX && s.free_blocks
            * s.block_size <= u64::MAX,
    ensures
        match size {
            Some(s) => {
                &&& r.1 == s.blocks * s.block_size
                &&& r.0 == crate::procfs::minus(
                    (s.blocks * s.block_size) as u64,
                    (s.free_blocks * s.block_size) as u64,
                )
            },
            None => r == (0u64, 0u64),
        },
        r.0 <= r.1,
{
    match size {
        Some(s) => {
            let total: u64 = s.blocks * s.block_size;
            let free: u64 = s.free_blocks * s.block_size;
            (total.saturating_sub(free), total)
        },
        None => (0, 0),
    }
}

proof fn lemma_names_apart(a: Seq<Seq<char>>, b: Seq<Seq<char>>)
    ensures
        names_of(a + b) == names_of(a) + names_of(b),
    decreases b.len(),
{
    if b.len() == 0 {
        assert(a + b == a);
        assert(names_of(a) + names_of(b) == names_of(a));
    } else {
        lemma_names_apart(a, b.drop_last());
        assert((a + b).drop_last() == a + b.drop_last());
        assert((a + b).last() == b.last());
    }
}

proof fn lemma_parts_apart(dir: Seq<char>, rest: Seq<char>)
    ensures
        parts_of(dir.push('/') + rest, '/') == parts_of(dir, '/') + parts_of(rest, '/'),
    decreases dir.len(),
{
    let n: int = index_of(dir, '/');
    lemma_index(dir, '/');
    let p: Seq<char> = dir.take(n);
    assert(lacks(p, '/'));
    if n == dir.len() {
        assert(p == dir);
        parts_end_at_separators(dir, '/', rest);
    } else {
        let t: Seq<char> = dir.skip(n + 1);
        assert(dir == p.push('/') + t);
        assert(dir.push('/') + rest == p.push('/') + (t.push('/') + rest));
        parts_end_at_separators(p, '/', t);
        parts_end_at_separators(p, '/', t.push('/') + rest);
        lemma_parts_apart(t, rest);
        assert(seq![p] + (parts_of(t, '/') + parts_of(rest, '/')) == (seq![p] + parts_of(t, '/'))
            + parts_of(rest, '/'));
    }
}

proof fn lemma_index(s: Seq<char>, c: char)
    ensures
        0 <= index_of(s, c) <= s.len(),
        index_of(s, c) < s.len() ==> s[index_of(s, c)] == c,
        forall|i: int| 0 <= i < index_of(s, c) ==> s[i] != c,
    decreases s.len(),
{
    if s.len() > 0 && s[0] != c {
        lemma_index(s.skip(1), c);
        assert forall|i: int| 0 <= i < index_of(s, c) implies s[i] != c by {
            if i > 0 {
                assert(s.skip(1)[i - 1] == s[i]);
            }
        }
    }
}

/// A path's name is what follows its last slash, and the name above it is that of the
/// directory. A slash or a slash and a dot at the end change nothing; two dots name nothing.
pub proof fn names_follow_slashes(dir: Seq<char>, name: Seq<char>)
    requires
        lacks(name, '/'),
        name.len() > 0,
        name != seq!['.'],
        name != seq!['.', '.'],
    ensures
        name_above(dir.push('/') + name, 0) == Some(name),
        name_above(dir.push('/') + name, 1) == name_above(dir, 0),
        name_above(dir.push('/'), 0) == name_above(dir, 0),
        name_above(dir.push('/').push('.'), 0) == name_above(dir, 0),
        name_above(dir.push('/').push('.').push('.'), 0) is None,
        name_above(name, 0) == Some(name),
        name_above(Seq::<char>::empty(), 0) is None,
{
    let none: Seq<char> = seq![];
    let dot: Seq<char> = seq!['.'];
    let dots: Seq<char> = seq!['.', '.'];
    lemma_parts_apart(dir, name);
    lemma_parts_apart(dir, none);
    lemma_parts_apart(dir, dot);
    lemma_parts_apart(dir, dots);
    parts_end_at_separators(name, '/', none);
    parts_end_at_separators(none, '/', none);
    parts_end_at_separators(dot, '/', none);
    parts_end_at_separators(dots, '/', none);
    let ps: Seq<Seq<char>> = parts_of(dir, '/');
    lemma_names_apart(ps, seq![name]);
    lemma_names_apart(ps, seq![none]);
    lemma_names_apart(ps, seq![dot]);
    lemma_names_apart(ps, seq![dots]);
    lemma_one_name(name);
    lemma_one_name(none);
    lemma_one_name(dot);
    lemma_one_name(dots);
    assert(dots[1] == '.' && dots.len() == 2 && dot.len() == 1);
    assert(dir.push('/') + none == dir.push('/'));
    assert(dir.push('/') + dot == dir.push('/').push('.'));
    assert(dir.push('/') + dots == dir.push('/').push('.').push('.'));
    let empty: Seq<Seq<char>> = seq![];
    assert(names_of(ps) + empty == names_of(ps));
    assert((names_of(ps) + seq![name]).len() == names_of(ps).len() + 1);
}

proof fn lemma_one_name(part: Seq<char>)
    ensures
        names_of(seq![part]) == (if part.len() > 0 && part != seq!['.'] {
            seq![part]
        } else {
            Seq::<Seq<char>>::empty()
        }),
{
    let one: Seq<Seq<char>> = seq![part];
    assert(one.drop_last().len() == 0);
    assert(names_of(one.drop_last()) == Seq::<Seq<char>>::empty());
    assert(Seq::<Seq<char>>::empty().push(part) == one);
}

/// A line that gives a device below `/dev/` and then the directory mounts the device there,
/// whatever follows; any other line does not.
pub proof fn lines_mount_their_device(
    source: Seq<char>,
    c: char,
    dir: Seq<char>,
    d: char,
    rest: Seq<char>,
    mount: Seq<char>,
)
    requires
        is_word(source),
        is_word(dir),
        is_space(c),
        is_space(d),
    ensures
        ({
            let line: Seq<char> = source.push(c) + (dir.push(d) + rest);
            &&& words_of(line)[0] == source
            &&& mounts_device(line, mount) <==> dir == mount && begins(source, "/dev/"@)
        }),
{
    words_end_at_white_space(source, c, dir.push(d) + rest);
    words_end_at_white_space(dir, d, rest);
}

/// A device of the mapper, and any device whose name begins with `dm-`, is resolved first;
/// of any other it is looked up at once whether it is a partition.
pub proof fn mapped_devices_are_resolved(source: Seq<char>)
    ensures
        ({
            let s: SearchView = SearchView::begin(source);
            &&& name_above(source, 0) is None ==> s is Unknown
            &&& name_above(source, 0) matches Some(name) ==> {
                if begins(source, "/dev/mapper/"@) || begins(name, "dm-"@) {
                    s == (SearchView::ResolveMapped { source, name })
                } else {
                    s == (SearchView::IsPartition {
                        path: "/sys/class/block/"@ + name + "/partition"@,
                        name,
                    })
                }
            }
        }),
{
}

/// What the disk behind a device is, by cases: a whole disk is itself, a partition's disk is
/// the name above its resolved path, and a mapped device's is that of the first device below.
pub proof fn disks_by_cases(source: Seq<char>, name: Seq<char>, system: System)
    requires
        name_above(source, 0) == Some(name),
    ensures
        ({
            let mapped: bool = begins(source, "/dev/mapper/"@) || begins(name, "dm-"@);
            let part: bool = (system.exists)("/sys/class/block/"@ + name + "/partition"@);
            let found: Option<Option<Seq<char>>> = SearchView::begin(source).step(system).step(
                system,
            ).step(system).step(system).result();
            &&& !mapped && !part ==> found == Some(Some(name))
            &&& !mapped && part ==> found == Some(
                match (system.resolved)("/sys/class/block/"@ + name) {
                    Some(path) => name_above(path, 1),
                    None => None,
                },
            )
            &&& mapped && (system.resolved)(source) is None ==> found == Some(None::<Seq<char>>)
            &&& mapped ==> ((system.resolved)(source) matches Some(path) ==> (name_above(path, 0)
                matches Some(dm) ==> ((system.first)("/sys/class/block/"@ + dm + "/slaves"@)
                matches Some(Some(below)) ==> (!(system.exists)(
                "/sys/class/block/"@ + below + "/partition"@,
            ) ==> found == Some(Some(below))))))
        }),
{
    search_finds_the_disk(source, system);
}

/// Without a line nothing is mounted.
pub proof fn no_lines_no_mounts(mount: Seq<char>)
    ensures
        mounted_device(Seq::<Seq<char>>::empty(), mount) is None,
{
}

/// A line needs a device and a directory to mount anything, and no more.
pub proof fn short_lines_mount_nothing(
    source: Seq<char>,
    c: char,
    dir: Seq<char>,
    mount: Seq<char>,
)
    requires
        is_word(source),
        is_word(dir),
        is_space(c),
    ensures
        !mounts_device(source, mount),
        mounts_device(source.push(c) + dir, mount) <==> dir == mount && begins(source, "/dev/"@),
{
    words_end_at_white_space(source, c, dir);
    words_end_at_white_space(dir, c, seq![]);
    assert((seq![source] + seq![dir])[1] == dir);
}

} // verus!
