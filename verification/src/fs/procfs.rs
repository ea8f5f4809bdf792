//! The process file system: `/{pid}` per process, with `/{pid}/Pid` and
//! `/{pid}/Memory/{Page,Program,Heap,Stack}` as integer properties.
use vstd::prelude::*;
use crate::path::Path;
use crate::fal::{Pid, Dentry, DentryMeta, DentryType, File, PropertyKind, FilesystemAbstractLayerError,
    ATTR_READABLE, ATTR_EXECUTABLE};
use crate::bytes::{native_encoding, i64_bytes};
use crate::mm::usage::MemoryUsage;

verus! {

/// Where in the process file system a path leads.
#[derive(Debug, Clone, Copy, PartialEq, Eq, Structural)]
pub enum FsLayer {
    Root,
    Proc(Pid),
    PropPid(Pid),
    Memory,
    MemoryPage(Pid),
    MemoryProgram(Pid),
    MemoryHeap(Pid),
    MemoryStack(Pid),
}

/// A process as the process file system sees it.
#[derive(Debug, Clone, Copy, PartialEq, Eq, Structural)]
pub struct ProcessEntry {
    pub pid: Pid,
    pub usage: MemoryUsage,
}

/// The value of the decimal digits `d`, most significant first.
pub open spec fn digits_value(d: Seq<char>) -> nat
    decreases d.len(),
{
    if d.len() == 0 {
        0
    } else {
        digits_value(d.drop_last()) * 10 + (d.last() as nat - '0' as nat) as nat
    }
}

/// Every character of `d` is an ASCII digit.
pub open spec fn all_digits(d: Seq<char>) -> bool {
    forall|i: int| 0 <= i < d.len() ==> '0' <= #[trigger] d[i] <= '9'
}

/// The number `u64::from_str` reads from `text`: an optional `+`, then one or more
/// ASCII digits whose value fits a `u64`; anything else is no number.
pub open spec fn parsed_decimal(text: Seq<char>) -> Option<u64> {
    let d = if text.len() > 0 && text[0] == '+' { text.drop_first() } else { text };
    if d.len() > 0 && all_digits(d) && digits_value(d) <= u64::MAX {
        Some(digits_value(d) as u64)
    } else {
        None
    }
}

/// The value of ASCII digits never falls below the value of their first `k`.
proof fn lemma_digits_prefix(d: Seq<char>, k: int)
    requires
        all_digits(d),
        0 <= k <= d.len(),
    ensures
        digits_value(d) >= digits_value(d.subrange(0, k)),
    decreases d.len(),
{
    if k < d.len() {
        assert(all_digits(d.drop_last()));
        lemma_digits_prefix(d.drop_last(), k);
        assert(d.drop_last().subrange(0, k) =~= d.subrange(0, k));
    } else {
        assert(d.subrange(0, k) =~= d);
    }
}

/// The number written in `text`, read as [`parsed_decimal`] says: an optional `+`,
/// then one or more decimal digits whose value fits a `u64`.
fn parse_pid(text: &String) -> (r: Option<Pid>)
    ensures
        r == parsed_decimal(text@),
{
    let s = text.as_str();
    let n = s.unicode_len();
    let mut i: usize = 0;
    if n > 0 && s.get_char(0) == '+' {
        i = 1;
    }
    let first = i;
    let ghost d = text@.subrange(first as int, n as int);
    proof {
        if first == 1 {
            assert(d =~= text@.drop_first());
        } else {
            assert(d =~= text@);
        }
        assert(d == (if text@.len() > 0 && text@[0] == '+' { text@.drop_first() } else { text@ }));
    }
    if i >= n {
        return None;
    }
    let mut value: u64 = 0;
    while i < n
        invariant
            s@ == text@,
            n == text@.len(),
            first <= i <= n,
            d == text@.subrange(first as int, n as int),
            d == (if text@.len() > 0 && text@[0] == '+' { text@.drop_first() } else { text@ }),
            all_digits(d.subrange(0, i - first)),
            value == digits_value(d.subrange(0, i - first)),
        decreases n - i,
    {
        let c = s.get_char(i);
        let ghost k = (i - first) as int;
        assert(d[k] == c);
        if c < '0' || c > '9' {
            return None;
        }
        let digit = (c as u32 - '0' as u32) as u64;
        proof {
            assert(d.subrange(0, k + 1).drop_last() =~= d.subrange(0, k));
            assert(d.subrange(0, k + 1).last() == c);
            assert(all_digits(d.subrange(0, k + 1)));
        }
        if value > (u64::MAX - digit) / 10 {
            proof {
                assert(value * 10 + digit > u64::MAX) by (nonlinear_arith)
                    requires value > (u64::MAX - digit) / 10, digit <= 9;
                if all_digits(d) {
                    lemma_digits_prefix(d, k + 1);
                }
            }
            return None;
        }
        proof {
            assert(value * 10 + digit <= u64::MAX) by (nonlinear_arith)
                requires value <= (u64::MAX - digit) / 10, digit <= 9;
        }
        value = value * 10 + digit;
        i = i + 1;
    }
    proof {
        assert(d.subrange(0, i - first) =~= d);
    }
    Some(value)
}

/// The decimal digits of `n`, most significant first, with no leading zero.
pub open spec fn decimal_text(n: u64) -> Seq<char>
    decreases n,
{
    let digit = (('0' as u8) + (n % 10) as u8) as char;
    if n < 10 {
        seq![digit]
    } else {
        decimal_text(n / 10).push(digit)
    }
}

/// The one-character text of the decimal digit `d`.
fn digit_text(d: u8) -> (r: &'static str)
    requires
        d < 10,
    ensures
        r@ == seq![(('0' as u8) + d) as char],
{
    match d {
        0 => {
            proof { reveal_strlit("0"); }
            "0"
        },
        1 => {
            proof { reveal_strlit("1"); }
            "1"
        },
        2 => {
            proof { reveal_strlit("2"); }
            "2"
        },
        3 => {
            proof { reveal_strlit("3"); }
            "3"
        },
        4 => {
            proof { reveal_strlit("4"); }
            "4"
        },
        5 => {
            proof { reveal_strlit("5"); }
            "5"
        },
        6 => {
            proof { reveal_strlit("6"); }
            "6"
        },
        7 => {
            proof { reveal_strlit("7"); }
            "7"
        },
        8 => {
            proof { reveal_strlit("8"); }
            "8"
        },
        _ => {
            proof { reveal_strlit("9"); }
            "9"
        },
    }
}

/// The decimal digits of `n`, most significant first.
fn pid_text(n: u64) -> (r: String)
    ensures
        r@ == decimal_text(n),
    decreases n,
{
    let mut text = if n < 10 { String::new() } else { pid_text(n / 10) };
    text.append(digit_text((n % 10) as u8));
    text
}

pub open spec fn memory_name() -> Seq<char> { seq!['M', 'e', 'm', 'o', 'r', 'y'] }
pub open spec fn pid_name() -> Seq<char> { seq!['P', 'i', 'd'] }
pub open spec fn page_name() -> Seq<char> { seq!['P', 'a', 'g', 'e'] }
pub open spec fn program_name() -> Seq<char> { seq!['P', 'r', 'o', 'g', 'r', 'a', 'm'] }
pub open spec fn heap_name() -> Seq<char> { seq!['H', 'e', 'a', 'p'] }
pub open spec fn stack_name() -> Seq<char> { seq!['S', 't', 'a', 'c', 'k'] }

/// Where the names `names` lead, `pid` being what the first name reads as. A relative
/// path is invalid; a first name that is not a number, or names that lead nowhere,
/// are not found.
pub open spec fn layer_of(absolute: bool, names: Seq<Seq<char>>, pid: Option<Pid>) -> Result<FsLayer, FilesystemAbstractLayerError> {
    if !absolute {
        Err(FilesystemAbstractLayerError::InvalidPath)
    } else if names.len() == 0 {
        Ok(FsLayer::Root)
    } else {
        match pid {
            None => Err(FilesystemAbstractLayerError::NotFound),
            Some(id) => if names.len() == 1 {
                Ok(FsLayer::Proc(id))
            } else if names[1] == memory_name() {
                if names.len() == 2 {
                    Ok(FsLayer::Memory)
                } else if names.len() == 3 {
                    if names[2] == page_name() {
                        Ok(FsLayer::MemoryPage(id))
                    } else if names[2] == program_name() {
                        Ok(FsLayer::MemoryProgram(id))
                    } else if names[2] == heap_name() {
                        Ok(FsLayer::MemoryHeap(id))
                    } else if names[2] == stack_name() {
                        Ok(FsLayer::MemoryStack(id))
                    } else {
                        Err(FilesystemAbstractLayerError::NotFound)
                    }
                } else {
                    Err(FilesystemAbstractLayerError::NotFound)
                }
            } else if names[1] == pid_name() {
                if names.len() == 2 {
                    Ok(FsLayer::PropPid(id))
                } else {
                    Err(FilesystemAbstractLayerError::NotFound)
                }
            } else {
                Err(FilesystemAbstractLayerError::NotFound)
            },
        }
    }
}

/// Whether two parse results agree, errors by their kind.
pub open spec fn same_layer(a: Result<FsLayer, FilesystemAbstractLayerError>, b: Result<FsLayer, FilesystemAbstractLayerError>) -> bool {
    match (a, b) {
        (Ok(x), Ok(y)) => x == y,
        (Err(FilesystemAbstractLayerError::InvalidPath), Err(FilesystemAbstractLayerError::InvalidPath)) => true,
        (Err(FilesystemAbstractLayerError::NotFound), Err(FilesystemAbstractLayerError::NotFound)) => true,
        _ => false,
    }
}

fn same_text(s: &String, lit: &str) -> (r: bool)
    ensures
        r == (s@ == lit@),
{
    let t = lit.to_owned();
    *s == t
}

/// The process file system.
pub struct Procfs {}

impl Procfs {
    pub fn new() -> (r: Procfs) {
        Procfs {}
    }

    /// Where `path` leads, given what its first name reads as a number (`pid`).
    pub fn layer(path: &Path, pid: Option<Pid>) -> (r: Result<FsLayer, FilesystemAbstractLayerError>)
        ensures
            same_layer(r, layer_of(path.spec_absolute(), path.names(), pid)),
    {
        proof {
            reveal_strlit("Memory");
            reveal_strlit("Pid");
            reveal_strlit("Page");
            reveal_strlit("Program");
            reveal_strlit("Heap");
            reveal_strlit("Stack");
            assert("Memory"@ =~= memory_name());
            assert("Pid"@ =~= pid_name());
            assert("Page"@ =~= page_name());
            assert("Program"@ =~= program_name());
            assert("Heap"@ =~= heap_name());
            assert("Stack"@ =~= stack_name());
        }
        if !path.is_absolute() {
            return Err(FilesystemAbstractLayerError::InvalidPath);
        }
        let n = path.len();
        if n == 0 {
            return Ok(FsLayer::Root);
        }
        let id = match pid {
            Some(id) => id,
            None => {
                return Err(FilesystemAbstractLayerError::NotFound);
            },
        };
        if n == 1 {
            return Ok(FsLayer::Proc(id));
        }
        let prop = path.name_at(1);
        if same_text(prop, "Memory") {
            if n == 2 {
                Ok(FsLayer::Memory)
            } else if n == 3 {
                let field = path.name_at(2);
                if same_text(field, "Page") {
                    Ok(FsLayer::MemoryPage(id))
                } else if same_text(field, "Program") {
                    Ok(FsLayer::MemoryProgram(id))
                } else if same_text(field, "Heap") {
                    Ok(FsLayer::MemoryHeap(id))
                } else if same_text(field, "Stack") {
                    Ok(FsLayer::MemoryStack(id))
                } else {
                    Err(FilesystemAbstractLayerError::NotFound)
                }
            } else {
                Err(FilesystemAbstractLayerError::NotFound)
            }
        } else if same_text(prop, "Pid") {
            if n == 2 {
                Ok(FsLayer::PropPid(id))
            } else {
                Err(FilesystemAbstractLayerError::NotFound)
            }
        } else {
            Err(FilesystemAbstractLayerError::NotFound)
        }
    }

    /// Where `path` leads: its first name is read as a process id.
    pub fn parse(path: &Path) -> (r: Result<FsLayer, FilesystemAbstractLayerError>)
        ensures
            same_layer(r, layer_of(path.spec_absolute(), path.names(),
                if path.names().len() > 0 { parsed_decimal(path.names()[0]) } else { None })),
    {
        let pid = if path.len() > 0 { parse_pid(path.name_at(0)) } else { None };
        Self::layer(path, pid)
    }

    fn file_entry(name: &str) -> (r: Dentry)
        ensures
            integer_file(r, name@),
    {
        Dentry::new(name.to_owned(), 0, 0, 8, ATTR_READABLE, DentryMeta::File(File::Property(PropertyKind::Integer)))
    }

    fn dir_entry(name: String) -> (r: Dentry)
        ensures
            empty_directory(r, name@),
    {
        Dentry::new(name, 0, 0, 0, ATTR_EXECUTABLE | ATTR_READABLE, DentryMeta::Directory(Vec::new()))
    }

    /// The metadata at `path`, `pids` being the processes that exist. A path that does
    /// not parse is invalid.
    pub fn lookup(&self, path: &Path, pids: &Vec<Pid>) -> (r: Result<Dentry, FilesystemAbstractLayerError>)
        ensures
            procfs_lookup(r, path.spec_absolute(), path.names(), pids@),
    {
        proof {
            reveal_strlit("Memory");
            reveal_strlit("Pid");
            reveal_strlit("Page");
            reveal_strlit("Program");
            reveal_strlit("Heap");
            reveal_strlit("Stack");
            reveal_strlit("");
            assert(""@ =~= Seq::<char>::empty());
            assert(ATTR_READABLE | ATTR_EXECUTABLE == 5u8) by (bit_vector);
            assert(ATTR_EXECUTABLE | ATTR_READABLE == 5u8) by (bit_vector);
            assert("Memory"@ =~= memory_name());
            assert("Pid"@ =~= pid_name());
            assert("Page"@ =~= page_name());
            assert("Program"@ =~= program_name());
            assert("Heap"@ =~= heap_name());
            assert("Stack"@ =~= stack_name());
        }
        if let Ok(layer) = Self::parse(path) {
            match layer {
                FsLayer::Root => {
                    let mut proc: Vec<Dentry> = Vec::new();
                    let mut i: usize = 0;
                    while i < pids.len()
                        invariant
                            i <= pids.len(),
                            proc@.len() == i,
                            forall|j: int| 0 <= j < i ==> #[trigger] empty_directory(proc@[j], decimal_text(pids@[j])),
                        decreases pids.len() - i,
                    {
                        proc.push(Self::dir_entry(pid_text(pids[i])));
                        i = i + 1;
                    }
                    Ok(Dentry::new("".to_owned(), 0, 0, 0, ATTR_EXECUTABLE | ATTR_READABLE, DentryMeta::Directory(proc)))
                },
                FsLayer::Proc(pid) => {
                    let mut props: Vec<Dentry> = Vec::new();
                    props.push(Self::dir_entry("Memory".to_owned()));
                    props.push(Self::file_entry("Pid"));
                    Ok(Dentry::new(pid_text(pid), 0, 0, 0, ATTR_READABLE | ATTR_EXECUTABLE, DentryMeta::Directory(props)))
                },
                FsLayer::PropPid(_) => Ok(Self::file_entry("Pid")),
                FsLayer::Memory => {
                    let mut props: Vec<Dentry> = Vec::new();
                    props.push(Self::file_entry("Page"));
                    props.push(Self::file_entry("Program"));
                    props.push(Self::file_entry("Heap"));
                    props.push(Self::file_entry("Stack"));
                    Ok(Dentry::new("Memory".to_owned(), 0, 0, 0, ATTR_EXECUTABLE | ATTR_READABLE, DentryMeta::Directory(props)))
                },
                FsLayer::MemoryPage(_) => Ok(Self::file_entry("Page")),
                FsLayer::MemoryProgram(_) => Ok(Self::file_entry("Program")),
                FsLayer::MemoryHeap(_) => Ok(Self::file_entry("Heap")),
                FsLayer::MemoryStack(_) => Ok(Self::file_entry("Stack")),
            }
        } else {
            Err(FilesystemAbstractLayerError::InvalidPath)
        }
    }

    /// The bytes of one memory figure of process `pid`, the first process of
    /// `procs` with that id; `NotFound` when there is none.
    fn read_prop(pid: Pid, prop: FsLayer, procs: &Vec<ProcessEntry>) -> (r: Result<Vec<u8>, FilesystemAbstractLayerError>)
        requires
            prop is MemoryPage || prop is MemoryProgram || prop is MemoryHeap || prop is MemoryStack,
        ensures
            prop_read(r, pid, prop, procs@),
    {
        let mut i: usize = 0;
        while i < procs.len()
            invariant
                i <= procs.len(),
                forall|j: int| 0 <= j < i ==> #[trigger] procs@[j].pid != pid,
            decreases procs.len() - i,
        {
            if procs[i].pid == pid {
                let usage = procs[i].usage;
                let value = match prop {
                    FsLayer::MemoryPage(_) => usage.page,
                    FsLayer::MemoryProgram(_) => usage.program,
                    FsLayer::MemoryHeap(_) => usage.heap,
                    _ => usage.stack,
                };
                proof {
                    assert(first_process(procs@, pid) == Some(i as int)) by {
                        lemma_first_process_is(procs@, pid, i as int);
                    }
                }
                return Ok(i64_bytes(value as i64));
            }
            i = i + 1;
        }
        proof {
            if exists|j: int| 0 <= j < procs@.len() && #[trigger] procs@[j].pid == pid {
                let j = choose|j: int| 0 <= j < procs@.len() && #[trigger] procs@[j].pid == pid;
                assert(procs@[j].pid != pid);
            }
        }
        Err(FilesystemAbstractLayerError::NotFound)
    }

    /// The bytes at `path`: a process id, or a memory figure of a process of `procs`.
    /// Directories cannot be read; a path that does not parse is invalid.
    pub fn read(&self, path: &Path, _length: usize, procs: &Vec<ProcessEntry>) -> (r: Result<Vec<u8>, FilesystemAbstractLayerError>)
        ensures
            procfs_read(r, path.spec_absolute(), path.names(), procs@),
    {
        if let Ok(layer) = Self::parse(path) {
            match layer {
                FsLayer::Root => Err(FilesystemAbstractLayerError::Unsupported),
                FsLayer::Proc(_) => Err(FilesystemAbstractLayerError::Unsupported),
                FsLayer::PropPid(pid) => {
                    let v = #[verifier::truncate] (pid as i64);
                    assert((v as u64) == pid) by (bit_vector)
                        requires v == pid as i64;
                    Ok(i64_bytes(v))
                },
                FsLayer::Memory => Err(FilesystemAbstractLayerError::Unsupported),
                FsLayer::MemoryPage(pid) => Self::read_prop(pid, layer, procs),
                FsLayer::MemoryProgram(pid) => Self::read_prop(pid, layer, procs),
                FsLayer::MemoryHeap(pid) => Self::read_prop(pid, layer, procs),
                FsLayer::MemoryStack(pid) => Self::read_prop(pid, layer, procs),
            }
        } else {
            Err(FilesystemAbstractLayerError::InvalidPath)
        }
    }

    /// Nothing can be created in the process file system.
    pub fn create(&self, _path: &Path, _kind: DentryType, _attr: u8) -> (r: Result<(), FilesystemAbstractLayerError>)
        ensures
            r matches Err(FilesystemAbstractLayerError::Unsupported),
    {
        Err(FilesystemAbstractLayerError::Unsupported)
    }

    /// Nothing can be written in the process file system.
    pub fn write(&self, _path: &Path, _value: &Vec<u8>) -> (r: Result<(), FilesystemAbstractLayerError>)
        ensures
            r matches Err(FilesystemAbstractLayerError::Unsupported),
    {
        Err(FilesystemAbstractLayerError::Unsupported)
    }

    pub fn is_property_supported(&self) -> (r: bool)
        ensures
            r,
    {
        true
    }

    pub fn is_stream_supported(&self) -> (r: bool)
        ensures
            !r,
    {
        false
    }
}

/// An empty directory entry named `name`, readable and executable.
pub open spec fn empty_directory(d: Dentry, name: Seq<char>) -> bool {
    &&& d.name@ == name
    &&& d.created == 0 && d.modified == 0 && d.size == 0
    &&& d.attributes == ATTR_EXECUTABLE | ATTR_READABLE
    &&& d.meta matches DentryMeta::Directory(v) && v@.len() == 0
}

/// A readable eight-byte integer property named `name`.
pub open spec fn integer_file(d: Dentry, name: Seq<char>) -> bool {
    &&& d.name@ == name
    &&& d.created == 0 && d.modified == 0 && d.size == 8
    &&& d.attributes == ATTR_READABLE
    &&& d.meta == DentryMeta::File(File::Property(PropertyKind::Integer))
}

/// A readable and executable directory named `name`, size 0, made at time 0.
pub open spec fn directory_header(d: Dentry, name: Seq<char>) -> bool {
    &&& d.name@ == name
    &&& d.created == 0 && d.modified == 0 && d.size == 0
    &&& d.attributes == ATTR_EXECUTABLE | ATTR_READABLE
}

/// The entries a directory's metadata lists (none for other kinds).
pub open spec fn listed(d: Dentry) -> Seq<Dentry> {
    match d.meta {
        DentryMeta::Directory(v) => v@,
        _ => Seq::empty(),
    }
}

/// The metadata that a lookup of `layer` reports, `pids` being the processes that
/// exist: the root lists one empty directory per process, named by its id; a
/// process directory holds `Memory` and `Pid`; `Memory` holds the four figures.
pub open spec fn layer_entry(d: Dentry, layer: FsLayer, pids: Seq<Pid>) -> bool {
    match layer {
        FsLayer::Root => directory_header(d, Seq::empty()) && d.meta is Directory
            && listed(d).len() == pids.len()
            && forall|j: int| 0 <= j < pids.len() ==> #[trigger] empty_directory(listed(d)[j], decimal_text(pids[j])),
        FsLayer::Proc(pid) => directory_header(d, decimal_text(pid)) && d.meta is Directory
            && listed(d).len() == 2
            && empty_directory(listed(d)[0], memory_name()) && integer_file(listed(d)[1], pid_name()),
        FsLayer::PropPid(_) => integer_file(d, pid_name()),
        FsLayer::Memory => directory_header(d, memory_name()) && d.meta is Directory
            && listed(d).len() == 4
            && integer_file(listed(d)[0], page_name()) && integer_file(listed(d)[1], program_name())
            && integer_file(listed(d)[2], heap_name()) && integer_file(listed(d)[3], stack_name()),
        FsLayer::MemoryPage(_) => integer_file(d, page_name()),
        FsLayer::MemoryProgram(_) => integer_file(d, program_name()),
        FsLayer::MemoryHeap(_) => integer_file(d, heap_name()),
        FsLayer::MemoryStack(_) => integer_file(d, stack_name()),
    }
}

/// The process id a layer names (0 for the root and `Memory`).
pub open spec fn layer_pid(layer: FsLayer) -> Pid {
    match layer {
        FsLayer::Proc(p) | FsLayer::PropPid(p) | FsLayer::MemoryPage(p) | FsLayer::MemoryProgram(p)
        | FsLayer::MemoryHeap(p) | FsLayer::MemoryStack(p) => p,
        _ => 0,
    }
}

/// The position of the first process of `procs` with id `pid`.
pub open spec fn first_process(procs: Seq<ProcessEntry>, pid: Pid) -> Option<int> {
    if exists|i: int| 0 <= i < procs.len() && #[trigger] procs[i].pid == pid {
        Some(choose|i: int| 0 <= i < procs.len() && procs[i].pid == pid
            && forall|j: int| 0 <= j < i ==> #[trigger] procs[j].pid != pid)
    } else {
        None
    }
}

proof fn lemma_first_process_is(procs: Seq<ProcessEntry>, pid: Pid, i: int)
    requires
        0 <= i < procs.len(),
        procs[i].pid == pid,
        forall|j: int| 0 <= j < i ==> #[trigger] procs[j].pid != pid,
    ensures
        first_process(procs, pid) == Some(i),
{
    let k = choose|k: int| 0 <= k < procs.len() && procs[k].pid == pid
        && forall|j: int| 0 <= j < k ==> #[trigger] procs[j].pid != pid;
    assert(0 <= k < procs.len() && procs[k].pid == pid);
    if k < i {
        assert(procs[k].pid != pid);
    }
    if i < k {
        assert(procs[i].pid != pid);
    }
}

/// The memory figure a layer selects.
pub open spec fn figure(u: MemoryUsage, layer: FsLayer) -> usize {
    match layer {
        FsLayer::MemoryPage(_) => u.page,
        FsLayer::MemoryProgram(_) => u.program,
        FsLayer::MemoryHeap(_) => u.heap,
        _ => u.stack,
    }
}

/// What reading a memory figure gives: the figure of the first process with the id,
/// as a native-endian `i64`, or `NotFound`.
pub open spec fn prop_read(r: Result<Vec<u8>, FilesystemAbstractLayerError>, pid: Pid, layer: FsLayer, procs: Seq<ProcessEntry>) -> bool {
    match first_process(procs, pid) {
        Some(i) => r matches Ok(bytes) && native_encoding(((figure(procs[i].usage, layer) as i64) as u64), bytes@),
        None => r matches Err(FilesystemAbstractLayerError::NotFound),
    }
}

/// Where `names` lead, the first name read as a process id.
pub open spec fn procfs_layer(absolute: bool, names: Seq<Seq<char>>) -> Result<FsLayer, FilesystemAbstractLayerError> {
    layer_of(absolute, names, if names.len() > 0 { parsed_decimal(names[0]) } else { None })
}

/// What a lookup in the process file system gives: the layer's metadata, or
/// `InvalidPath` for a path that does not parse.
pub open spec fn procfs_lookup(r: Result<Dentry, FilesystemAbstractLayerError>, absolute: bool, names: Seq<Seq<char>>, pids: Seq<Pid>) -> bool {
    match procfs_layer(absolute, names) {
        Ok(layer) => r matches Ok(d) && layer_entry(d, layer, pids),
        Err(_) => r matches Err(FilesystemAbstractLayerError::InvalidPath),
    }
}

/// What a read in the process file system gives: a process id or memory figure in
/// native byte order, `Unsupported` for a directory, `InvalidPath` for a path that
/// does not parse.
pub open spec fn procfs_read(r: Result<Vec<u8>, FilesystemAbstractLayerError>, absolute: bool, names: Seq<Seq<char>>, procs: Seq<ProcessEntry>) -> bool {
    match procfs_layer(absolute, names) {
        Ok(FsLayer::PropPid(pid)) => r matches Ok(bytes) && native_encoding(pid, bytes@),
        Ok(FsLayer::Root) | Ok(FsLayer::Proc(_)) | Ok(FsLayer::Memory) => r matches Err(FilesystemAbstractLayerError::Unsupported),
        Ok(layer) => prop_read(r, layer_pid(layer), layer, procs),
        Err(_) => r matches Err(FilesystemAbstractLayerError::InvalidPath),
    }
}

/// Reading `/{pid}/Memory/Page`, `/Program`, `/Heap` or `/Stack` gives, of the first
/// process `k` with that id, its page count, program size, heap size or stack size
/// respectively, as the native-endian bytes of an `i64`.
pub proof fn lemma_read_memory_figure(names: Seq<Seq<char>>, procs: Seq<ProcessEntry>, pid: Pid, k: int,
    r: Result<Vec<u8>, FilesystemAbstractLayerError>)
    requires
        names.len() == 3,
        parsed_decimal(names[0]) == Some(pid),
        names[1] == memory_name(),
        0 <= k < procs.len(),
        procs[k].pid == pid,
        forall|j: int| 0 <= j < k ==> #[trigger] procs[j].pid != pid,
        procfs_read(r, true, names, procs),
    ensures
        names[2] == page_name() ==> (r matches Ok(b) && native_encoding((procs[k].usage.page as i64) as u64, b@)),
        names[2] == program_name() ==> (r matches Ok(b) && native_encoding((procs[k].usage.program as i64) as u64, b@)),
        names[2] == heap_name() ==> (r matches Ok(b) && native_encoding((procs[k].usage.heap as i64) as u64, b@)),
        names[2] == stack_name() ==> (r matches Ok(b) && native_encoding((procs[k].usage.stack as i64) as u64, b@)),
{
    lemma_first_process_is(procs, pid, k);
    assert(page_name() != program_name() && page_name() != heap_name() && page_name() != stack_name());
    assert(program_name() != heap_name() && program_name() != stack_name() && heap_name() != stack_name());
    assert(memory_name() != pid_name());
}

/// Reading a memory figure of a process id that no process has gives `NotFound`.
pub proof fn lemma_read_memory_figure_missing(names: Seq<Seq<char>>, procs: Seq<ProcessEntry>, pid: Pid,
    r: Result<Vec<u8>, FilesystemAbstractLayerError>)
    requires
        names.len() == 3,
        parsed_decimal(names[0]) == Some(pid),
        names[1] == memory_name(),
        names[2] == page_name() || names[2] == program_name() || names[2] == heap_name() || names[2] == stack_name(),
        forall|j: int| 0 <= j < procs.len() ==> #[trigger] procs[j].pid != pid,
        procfs_read(r, true, names, procs),
    ensures
        r matches Err(FilesystemAbstractLayerError::NotFound),
{
    assert(page_name() != program_name() && page_name() != heap_name() && page_name() != stack_name());
    assert(program_name() != heap_name() && program_name() != stack_name() && heap_name() != stack_name());
    assert(memory_name() != pid_name());
}

/// Reading `/{pid}/Pid` gives the process id written in the path, as the
/// native-endian bytes of a 64-bit number.
pub proof fn lemma_read_pid(names: Seq<Seq<char>>, procs: Seq<ProcessEntry>, pid: Pid,
    r: Result<Vec<u8>, FilesystemAbstractLayerError>)
    requires
        names.len() == 2,
        parsed_decimal(names[0]) == Some(pid),
        names[1] == pid_name(),
        procfs_read(r, true, names, procs),
    ensures
        r matches Ok(b) && native_encoding(pid, b@),
{
    assert(memory_name() != pid_name());
}

} // verus!


