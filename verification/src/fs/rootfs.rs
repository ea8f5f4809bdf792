//! The root file system: an in-memory tree of directories, mount points, memory
//! streams and typed properties. Only directories change after creation.
use vstd::prelude::*;
use crate::path::{Path, names_of};
use crate::bytes::{native_encoding, all_native, le_bytes, i64_bytes, u64_bytes, i64s_bytes, u64s_bytes};
use crate::fal::{ATTR_READABLE, ATTR_EXECUTABLE, ATTR_NONE, type_of_meta, Mid, Timestamp, Address, Dentry, DentryMeta, DentryType, File, PropertyKind, FilesystemAbstractLayerError};

verus! {

/// An entry of the root file system.
pub struct LocalDentry {
    pub name: String,
    pub created: Timestamp,
    pub modified: Timestamp,
    pub kind: LocalDentryKind,
    pub attr: u8,
}

/// What an entry is, with what it holds.
pub enum LocalDentryKind {
    Directory(Vec<LocalDentry>),
    Link(Path),
    File(LocalFile),
    MountPoint(Mid),
}

/// A file: a stream of `length` bytes at `address`, or a property.
pub enum LocalFile {
    Stream(Address, usize),
    Property(LocalProperty),
}

/// A typed property. Decimals are held as the bits of their `f64` value.
pub enum LocalProperty {
    Integer(i64),
    Integers(Vec<i64>),
    Decimal(u64),
    Decimals(Vec<u64>),
    String(String),
    Blob(Vec<u8>),
}

/// The outcome of walking down a tree along some names.
pub enum Walk {
    Found(LocalDentry),
    NotFound,
    Mistyped,
    /// The walk met a mount point: the names from it on, and its mount id.
    Foreign(Seq<Seq<char>>, Mid),
}

/// The position of the first entry of `subs` named `name`, if there is one.
pub open spec fn first_named(subs: Seq<LocalDentry>, name: Seq<char>) -> Option<int> {
    if exists|i: int| 0 <= i < subs.len() && #[trigger] subs[i].name@ == name {
        Some(choose|i: int| 0 <= i < subs.len() && subs[i].name@ == name
            && forall|j: int| 0 <= j < i ==> #[trigger] subs[j].name@ != name)
    } else {
        None
    }
}

/// Walks down from `node` along `names`: each name selects the first entry of that
/// name in the current directory; a mount point on the way hands the rest of the
/// walk to the file system mounted there.
pub open spec fn walk(node: LocalDentry, names: Seq<Seq<char>>) -> Walk
    decreases names.len(),
{
    if names.len() == 0 {
        Walk::Found(node)
    } else {
        match node.kind {
            LocalDentryKind::Directory(subs) => match first_named(subs@, names[0]) {
                Some(i) => walk(subs@[i], names.drop_first()),
                None => Walk::NotFound,
            },
            LocalDentryKind::MountPoint(mid) => Walk::Foreign(names, mid),
            _ => Walk::Mistyped,
        }
    }
}


/// Whether `r` is what a walk with outcome `w` reports.
pub open spec fn reports(r: Result<&LocalDentry, FilesystemAbstractLayerError>, w: Walk) -> bool {
    match w {
        Walk::Found(n) => r matches Ok(d) && *d == n,
        Walk::NotFound => r matches Err(FilesystemAbstractLayerError::NotFound),
        Walk::Mistyped => r matches Err(FilesystemAbstractLayerError::Mistyped),
        Walk::Foreign(names, mid) => r matches Err(FilesystemAbstractLayerError::ForeignMountPoint(p, m))
            && p.spec_absolute() && p.names() == names && m == mid,
    }
}

/// The bytes a property of `count` eight-byte numbers takes.
pub open spec fn eight_times(count: nat) -> int {
    8 * count as int
}

/// The size that the metadata of `n` reports: the length of a stream, eight bytes per
/// number of a property, the UTF-8 length of a string, the length of a blob, and 0
/// for directories, links and mount points.
pub open spec fn reported_size(n: LocalDentry) -> int {
    match n.kind {
        LocalDentryKind::File(LocalFile::Stream(_, length)) => length as int,
        LocalDentryKind::File(LocalFile::Property(p)) => match p {
            LocalProperty::Integer(_) => 8,
            LocalProperty::Integers(v) => eight_times(v@.len()),
            LocalProperty::Decimal(_) => 8,
            LocalProperty::Decimals(v) => eight_times(v@.len()),
            LocalProperty::String(s) => vstd::utf8::encode_utf8(s@).len() as int,
            LocalProperty::Blob(v) => v@.len() as int,
        },
        _ => 0,
    }
}

/// The size of `n` fits a `usize`.
pub open spec fn size_fits(n: LocalDentry) -> bool {
    reported_size(n) <= usize::MAX
}

/// The kind of file or entry that the metadata of `n` reports.
pub open spec fn reported_meta_kind(n: LocalDentry) -> DentryType {
    match n.kind {
        LocalDentryKind::Directory(_) => DentryType::Directory,
        LocalDentryKind::MountPoint(_) => DentryType::MountPoint,
        LocalDentryKind::Link(_) => DentryType::Link,
        LocalDentryKind::File(LocalFile::Stream(_, _)) => DentryType::Stream,
        LocalDentryKind::File(LocalFile::Property(p)) => match p {
            LocalProperty::Integer(_) => DentryType::Integer,
            LocalProperty::Integers(_) => DentryType::Integers,
            LocalProperty::Decimal(_) => DentryType::Decimal,
            LocalProperty::Decimals(_) => DentryType::Decimals,
            LocalProperty::String(_) => DentryType::String,
            LocalProperty::Blob(_) => DentryType::Blob,
        },
    }
}

/// Whether `d` is the metadata of `n` without the entries of a directory: same name,
/// times and attributes, the reported size and kind, and the mount id of a mount
/// point.
pub open spec fn shallow_describes(d: Dentry, n: LocalDentry) -> bool {
    &&& d.name@ == n.name@
    &&& d.created == n.created
    &&& d.modified == n.modified
    &&& d.attributes == n.attr
    &&& d.size == reported_size(n)
    &&& type_of_meta(d.meta) == reported_meta_kind(n)
    &&& (n.kind matches LocalDentryKind::MountPoint(mid) ==> d.meta == DentryMeta::MountPoint(mid))
}

/// Whether `d` is the metadata of `n`: when `collect` and `n` is a directory, its
/// entries are listed, each described shallowly; otherwise a directory lists none.
pub open spec fn describes(d: Dentry, n: LocalDentry, collect: bool) -> bool {
    &&& shallow_describes(d, n)
    &&& (n.kind matches LocalDentryKind::Directory(subs) ==> (d.meta matches DentryMeta::Directory(listed)
        && (if collect {
            listed@.len() == subs@.len()
                && forall|i: int| 0 <= i < subs@.len() ==> #[trigger] shallow_describes(listed@[i], subs@[i])
                && (listed@[i].meta matches DentryMeta::Directory(e) && e@.len() == 0 || !(subs@[i].kind is Directory))
        } else {
            listed@.len() == 0
        })))
}

/// The entries of a directory all have sizes that fit.
pub open spec fn children_fit(n: LocalDentry) -> bool {
    n.kind matches LocalDentryKind::Directory(subs) ==> forall|i: int| 0 <= i < subs@.len() ==> #[trigger] size_fits(subs@[i])
}

impl LocalDentry {
    /// An empty directory.
    pub fn new_directory(name: &str, created: Timestamp, modified: Timestamp, attr: u8) -> (r: LocalDentry)
        ensures
            r.name@ == name@,
            r.created == created,
            r.modified == modified,
            r.attr == attr,
            r.kind matches LocalDentryKind::Directory(subs) && subs@.len() == 0,
    {
        LocalDentry { name: name.to_owned(), created, modified, attr, kind: LocalDentryKind::Directory(Vec::new()) }
    }

    /// A mount point of `reference`, with no attributes.
    pub fn new_mountpoint(name: &str, created: Timestamp, modified: Timestamp, reference: Mid) -> (r: LocalDentry)
        ensures
            r.name@ == name@,
            r.created == created,
            r.modified == modified,
            r.attr == ATTR_NONE,
            r.kind == LocalDentryKind::MountPoint(reference),
    {
        LocalDentry { name: name.to_owned(), created, modified, kind: LocalDentryKind::MountPoint(reference), attr: ATTR_NONE }
    }

    /// An integer property holding 0.
    pub fn new_integer(name: &str, created: Timestamp, modified: Timestamp, attr: u8) -> (r: LocalDentry)
        ensures
            r.name@ == name@,
            r.created == created,
            r.modified == modified,
            r.attr == attr,
            r.kind == LocalDentryKind::File(LocalFile::Property(LocalProperty::Integer(0))),
    {
        LocalDentry { name: name.to_owned(), created, modified, kind: LocalDentryKind::File(LocalFile::Property(LocalProperty::Integer(0))), attr }
    }

    /// An empty list of integers.
    pub fn new_integers(name: &str, created: Timestamp, modified: Timestamp, attr: u8) -> (r: LocalDentry)
        ensures
            r.name@ == name@,
            r.created == created,
            r.modified == modified,
            r.attr == attr,
            r.kind matches LocalDentryKind::File(LocalFile::Property(LocalProperty::Integers(v))) && v@.len() == 0,
    {
        LocalDentry { name: name.to_owned(), created, modified, kind: LocalDentryKind::File(LocalFile::Property(LocalProperty::Integers(Vec::with_capacity(0)))), attr }
    }

    /// A decimal property holding 0.0.
    pub fn new_decimal(name: &str, created: Timestamp, modified: Timestamp, attr: u8) -> (r: LocalDentry)
        ensures
            r.name@ == name@,
            r.created == created,
            r.modified == modified,
            r.attr == attr,
            r.kind == LocalDentryKind::File(LocalFile::Property(LocalProperty::Decimal(0))),
    {
        LocalDentry { name: name.to_owned(), created, modified, kind: LocalDentryKind::File(LocalFile::Property(LocalProperty::Decimal(0))), attr }
    }

    /// An empty list of decimals.
    pub fn new_decimals(name: &str, created: Timestamp, modified: Timestamp, attr: u8) -> (r: LocalDentry)
        ensures
            r.name@ == name@,
            r.created == created,
            r.modified == modified,
            r.attr == attr,
            r.kind matches LocalDentryKind::File(LocalFile::Property(LocalProperty::Decimals(v))) && v@.len() == 0,
    {
        LocalDentry { name: name.to_owned(), created, modified, kind: LocalDentryKind::File(LocalFile::Property(LocalProperty::Decimals(Vec::with_capacity(0)))), attr }
    }

    /// An empty string property.
    pub fn new_string(name: &str, created: Timestamp, modified: Timestamp, attr: u8) -> (r: LocalDentry)
        ensures
            r.name@ == name@,
            r.created == created,
            r.modified == modified,
            r.attr == attr,
            r.kind matches LocalDentryKind::File(LocalFile::Property(LocalProperty::String(s))) && s@.len() == 0,
    {
        LocalDentry { name: name.to_owned(), created, modified, kind: LocalDentryKind::File(LocalFile::Property(LocalProperty::String(String::new()))), attr }
    }

    /// An empty blob.
    pub fn new_blob(name: &str, created: Timestamp, modified: Timestamp, attr: u8) -> (r: LocalDentry)
        ensures
            r.name@ == name@,
            r.created == created,
            r.modified == modified,
            r.attr == attr,
            r.kind matches LocalDentryKind::File(LocalFile::Property(LocalProperty::Blob(v))) && v@.len() == 0,
    {
        LocalDentry { name: name.to_owned(), created, modified, kind: LocalDentryKind::File(LocalFile::Property(LocalProperty::Blob(Vec::with_capacity(0)))), attr }
    }

    /// A stream of the `length` bytes at `address`.
    pub fn new_memory_stream(name: &str, created: Timestamp, modified: Timestamp, attr: u8, address: Address, length: usize) -> (r: LocalDentry)
        ensures
            r.name@ == name@,
            r.created == created,
            r.modified == modified,
            r.attr == attr,
            r.kind == LocalDentryKind::File(LocalFile::Stream(address, length)),
    {
        LocalDentry { name: name.to_owned(), created, modified, kind: LocalDentryKind::File(LocalFile::Stream(address, length)), attr }
    }

    pub fn name(&self) -> (r: &String)
        ensures
            *r == self.name,
    {
        &self.name
    }

    pub fn kind(&self) -> (r: &LocalDentryKind)
        ensures
            *r == self.kind,
    {
        &self.kind
    }

    /// The metadata of this entry, with the entries of a directory listed when
    /// `collect`.
    pub fn meta(&self, collect: bool) -> (r: Dentry)
        requires
            size_fits(*self),
            collect ==> children_fit(*self),
        ensures
            describes(r, *self, collect),
        decreases (if collect { 1nat } else { 0nat }),
    {
        match self.kind() {
            LocalDentryKind::Directory(subs) => {
                if collect {
                    let mut listed: Vec<Dentry> = Vec::new();
                    let mut i: usize = 0;
                    while i < subs.len()
                        invariant
                            collect,
                            i <= subs.len(),
                            listed@.len() == i,
                            forall|j: int| 0 <= j < subs@.len() ==> #[trigger] size_fits(subs@[j]),
                            forall|j: int| 0 <= j < i ==> #[trigger] shallow_describes(listed@[j], subs@[j])
                                && (listed@[j].meta matches DentryMeta::Directory(e) && e@.len() == 0 || !(subs@[j].kind is Directory)),
                        decreases subs.len() - i,
                    {
                        let d = subs[i].meta(false);
                        listed.push(d);
                        i = i + 1;
                    }
                    Dentry::new(self.name.clone(), self.created, self.modified, 0, self.attr,
                        DentryMeta::Directory(listed))
                } else {
                    Dentry::new(self.name.clone(), self.created, self.modified, 0, self.attr,
                        DentryMeta::Directory(Vec::new()))
                }
            },
            LocalDentryKind::MountPoint(mid) => Dentry::new(self.name.clone(), self.created, self.modified, 0,
                self.attr, DentryMeta::MountPoint(*mid)),
            LocalDentryKind::File(file) => match file {
                LocalFile::Stream(_, length) => Dentry::new(self.name.clone(), self.created, self.modified,
                    *length, self.attr, DentryMeta::File(File::Stream)),
                LocalFile::Property(LocalProperty::Integer(_)) => Dentry::new(self.name.clone(), self.created,
                    self.modified, 8, self.attr, DentryMeta::File(File::Property(PropertyKind::Integer))),
                LocalFile::Property(LocalProperty::Integers(it)) => Dentry::new(self.name.clone(), self.created,
                    self.modified, 8 * it.len(), self.attr, DentryMeta::File(File::Property(PropertyKind::Integers))),
                LocalFile::Property(LocalProperty::Decimal(_)) => Dentry::new(self.name.clone(), self.created,
                    self.modified, 8, self.attr, DentryMeta::File(File::Property(PropertyKind::Decimal))),
                LocalFile::Property(LocalProperty::Decimals(it)) => Dentry::new(self.name.clone(), self.created,
                    self.modified, 8 * it.len(), self.attr, DentryMeta::File(File::Property(PropertyKind::Decimals))),
                LocalFile::Property(LocalProperty::String(it)) => Dentry::new(self.name.clone(), self.created,
                    self.modified, it.as_str().len(), self.attr, DentryMeta::File(File::Property(PropertyKind::String))),
                LocalFile::Property(LocalProperty::Blob(it)) => Dentry::new(self.name.clone(), self.created,
                    self.modified, it.len(), self.attr, DentryMeta::File(File::Property(PropertyKind::Blob))),
            },
            LocalDentryKind::Link(_) => Dentry::new(self.name.clone(), self.created, self.modified, 0,
                self.attr, DentryMeta::Link),
        }
    }
}


/// `new` is `old` with `d` added to the directory reached along `names`, the walk
/// taking the first entry of each name.
pub open spec fn inserted(old: LocalDentry, new: LocalDentry, names: Seq<Seq<char>>, d: LocalDentry) -> bool
    decreases names.len(),
{
    &&& new.name == old.name
    &&& new.created == old.created
    &&& new.modified == old.modified
    &&& new.attr == old.attr
    &&& old.kind matches LocalDentryKind::Directory(os)
    &&& new.kind matches LocalDentryKind::Directory(ns)
    &&& if names.len() == 0 {
        ns@ == os@.push(d)
    } else {
        match first_named(os@, names[0]) {
            Some(i) => ns@.len() == os@.len()
                && (forall|j: int| 0 <= j < os@.len() && j != i ==> #[trigger] ns@[j] == os@[j])
                && inserted(os@[i], ns@[i], names.drop_first(), d),
            None => false,
        }
    }
}

/// Every entry reachable from `n` reports a size that fits, and so do the entries of
/// every reachable directory.
pub open spec fn subtree_ok(n: LocalDentry) -> bool {
    forall|q: Seq<Seq<char>>| #[trigger] walk_ok(walk(n, q))
}

/// A found entry reports a size that fits, and so do its entries.
pub open spec fn walk_ok(w: Walk) -> bool {
    match w {
        Walk::Found(m) => size_fits(m) && children_fit(m),
        _ => true,
    }
}

/// A new entry: a directory must be empty.
pub open spec fn fresh(d: LocalDentry) -> bool {
    &&& size_fits(d)
    &&& (d.kind matches LocalDentryKind::Directory(subs) ==> subs@.len() == 0)
}

/// Whether a directory holds an entry named `name`.
pub open spec fn has_named(subs: Seq<LocalDentry>, name: Seq<char>) -> bool {
    exists|i: int| 0 <= i < subs.len() && #[trigger] subs[i].name@ == name
}

proof fn lemma_first_named_is(subs: Seq<LocalDentry>, name: Seq<char>, i: int)
    requires
        0 <= i < subs.len(),
        subs[i].name@ == name,
        forall|j: int| 0 <= j < i ==> #[trigger] subs[j].name@ != name,
    ensures
        first_named(subs, name) == Some(i),
{
    let k = choose|k: int| 0 <= k < subs.len() && subs[k].name@ == name
        && forall|j: int| 0 <= j < k ==> #[trigger] subs[j].name@ != name;
    assert(0 <= k < subs.len() && subs[k].name@ == name);
    if k < i {
        assert(subs[k].name@ != name);
    }
    if i < k {
        assert(subs[i].name@ != name);
    }
}

proof fn lemma_first_named_props(subs: Seq<LocalDentry>, name: Seq<char>)
    ensures
        first_named(subs, name) is None <==> !has_named(subs, name),
        first_named(subs, name) matches Some(i) ==> 0 <= i < subs.len() && subs[i].name@ == name
            && forall|j: int| 0 <= j < i ==> #[trigger] subs[j].name@ != name,
{
    if has_named(subs, name) {
        let w = choose|i: int| 0 <= i < subs.len() && #[trigger] subs[i].name@ == name;
        let mut m = w;
        // the least index carrying the name exists
        lemma_least_named(subs, name, w);
    }
}

proof fn lemma_least_named(subs: Seq<LocalDentry>, name: Seq<char>, w: int)
    requires
        0 <= w < subs.len(),
        subs[w].name@ == name,
    ensures
        exists|i: int| 0 <= i < subs.len() && subs[i].name@ == name
            && forall|j: int| 0 <= j < i ==> #[trigger] subs[j].name@ != name,
    decreases w,
{
    if exists|j: int| 0 <= j < w && #[trigger] subs[j].name@ == name {
        let j = choose|j: int| 0 <= j < w && #[trigger] subs[j].name@ == name;
        lemma_least_named(subs, name, j);
    } else {
        assert(forall|j: int| 0 <= j < w ==> #[trigger] subs[j].name@ != name);
    }
}

proof fn lemma_first_named_update(os: Seq<LocalDentry>, ns: Seq<LocalDentry>, i: int, name: Seq<char>)
    requires
        ns.len() == os.len(),
        0 <= i < os.len(),
        ns[i].name == os[i].name,
        forall|j: int| 0 <= j < os.len() && j != i ==> #[trigger] ns[j] == os[j],
    ensures
        first_named(ns, name) == first_named(os, name),
{
    lemma_first_named_props(os, name);
    lemma_first_named_props(ns, name);
    assert forall|j: int| 0 <= j < os.len() implies (#[trigger] ns[j].name@ == name) == (os[j].name@ == name) by {
        if j != i {
            assert(ns[j] == os[j]);
        }
    }
    if let Some(k) = first_named(os, name) {
        assert forall|j: int| 0 <= j < k implies #[trigger] ns[j].name@ != name by {
            assert(os[j].name@ != name);
        }
        lemma_first_named_is(ns, name, k);
    } else {
        assert(!has_named(ns, name)) by {
            if has_named(ns, name) {
                let j = choose|j: int| 0 <= j < ns.len() && #[trigger] ns[j].name@ == name;
                assert(os[j].name@ == name);
            }
        }
    }
}

proof fn lemma_first_named_push(os: Seq<LocalDentry>, d: LocalDentry, name: Seq<char>)
    requires
        !has_named(os, d.name@),
    ensures
        name == d.name@ ==> first_named(os.push(d), name) == Some(os.len() as int),
        name != d.name@ ==> first_named(os.push(d), name) == first_named(os, name),
{
    let ns = os.push(d);
    lemma_first_named_props(os, name);
    lemma_first_named_props(ns, name);
    if name == d.name@ {
        assert forall|j: int| 0 <= j < os.len() implies #[trigger] ns[j].name@ != name by {
            assert(ns[j] == os[j]);
        }
        lemma_first_named_is(ns, name, os.len() as int);
    } else {
        if let Some(k) = first_named(os, name) {
            assert forall|j: int| 0 <= j < k implies #[trigger] ns[j].name@ != name by {
                assert(ns[j] == os[j]);
                assert(os[j].name@ != name);
            }
            assert(ns[k] == os[k]);
            lemma_first_named_is(ns, name, k);
        } else {
            assert(!has_named(ns, name)) by {
                if has_named(ns, name) {
                    let j = choose|j: int| 0 <= j < ns.len() && #[trigger] ns[j].name@ == name;
                    if j < os.len() {
                        assert(ns[j] == os[j]);
                    }
                }
            }
        }
    }
}

proof fn lemma_walk_step(n: LocalDentry, subs: Vec<LocalDentry>, i: int, q: Seq<Seq<char>>)
    requires
        n.kind == LocalDentryKind::Directory(subs),
        q.len() > 0,
        first_named(subs@, q[0]) == Some(i),
    ensures
        walk(n, q) == walk(subs@[i], q.drop_first()),
{
}

proof fn lemma_subtree_ok_child(n: LocalDentry, subs: Vec<LocalDentry>, i: int, name: Seq<char>)
    requires
        subtree_ok(n),
        n.kind == LocalDentryKind::Directory(subs),
        first_named(subs@, name) == Some(i),
    ensures
        subtree_ok(subs@[i]),
{
    assert forall|q: Seq<Seq<char>>| #[trigger] walk_ok(walk(subs@[i], q)) by {
        let full = seq![name] + q;
        assert(full.drop_first() =~= q);
        assert(full[0] == name);
        lemma_walk_step(n, subs, i, full);
        assert(walk(n, full) == walk(subs@[i], q));
    }
}

proof fn lemma_fresh_subtree_ok(d: LocalDentry)
    requires
        fresh(d),
    ensures
        subtree_ok(d),
{
    assert forall|q: Seq<Seq<char>>| #[trigger] walk_ok(walk(d, q)) by {
        if q.len() > 0 {
            if let LocalDentryKind::Directory(subs) = d.kind {
                lemma_first_named_props(subs@, q[0]);
            }
        }
    }
}

/// Adding a new entry keeps every reachable size in range.
proof fn lemma_insert_keeps_ok(old: LocalDentry, new: LocalDentry, p: Seq<Seq<char>>, d: LocalDentry)
    requires
        inserted(old, new, p, d),
        subtree_ok(old),
        fresh(d),
        match walk(old, p) {
            Walk::Found(dir) => dir.kind matches LocalDentryKind::Directory(s) && !has_named(s@, d.name@),
            _ => false,
        },
    ensures
        subtree_ok(new),
    decreases p.len(),
{
    let os = old.kind->Directory_0;
    let ns = new.kind->Directory_0;
    if p.len() > 0 {
        let i = first_named(os@, p[0])->Some_0;
        lemma_first_named_props(os@, p[0]);
        lemma_walk_step(old, os, i, p);
        lemma_subtree_ok_child(old, os, i, p[0]);
        lemma_insert_keeps_ok(os@[i], ns@[i], p.drop_first(), d);
    } else {
        lemma_fresh_subtree_ok(d);
    }
    assert forall|q: Seq<Seq<char>>| #[trigger] walk_ok(walk(new, q)) by {
        if q.len() == 0 {
            assert(walk(old, q) == Walk::Found(old));
            assert(walk_ok(walk(old, Seq::<Seq<char>>::empty())));
            assert forall|j: int| 0 <= j < ns@.len() implies #[trigger] size_fits(ns@[j]) by {
                reveal_with_fuel(inserted, 2);
                if p.len() == 0 {
                    if j < os@.len() {
                        assert(ns@[j] == os@[j]);
                    }
                } else {
                    let i = first_named(os@, p[0])->Some_0;
                    if j != i {
                        assert(ns@[j] == os@[j]);
                    }
                }
            }
        } else {
            if p.len() == 0 {
                lemma_first_named_push(os@, d, q[0]);
                if q[0] == d.name@ {
                    lemma_walk_step(new, ns, os@.len() as int, q);
                } else {
                    lemma_first_named_props(os@, q[0]);
                    if let Some(k) = first_named(os@, q[0]) {
                        assert(ns@[k] == os@[k]);
                        lemma_walk_step(new, ns, k, q);
                        lemma_walk_step(old, os, k, q);
                    }
                }
            } else {
                let i = first_named(os@, p[0])->Some_0;
                reveal_with_fuel(inserted, 2);
                lemma_first_named_update(os@, ns@, i, q[0]);
                lemma_first_named_props(os@, q[0]);
                if let Some(k) = first_named(os@, q[0]) {
                    lemma_walk_step(new, ns, k, q);
                    if k != i {
                        assert(ns@[k] == os@[k]);
                        lemma_walk_step(old, os, k, q);
                    }
                }
            }
        }
    }
}

/// After `d` is added along `p`, walking to `d`'s name under `p` finds `d`.
pub proof fn lemma_insert_then_walk(old: LocalDentry, new: LocalDentry, p: Seq<Seq<char>>, d: LocalDentry)
    requires
        inserted(old, new, p, d),
        match walk(old, p) {
            Walk::Found(dir) => dir.kind matches LocalDentryKind::Directory(s) && !has_named(s@, d.name@),
            _ => false,
        },
    ensures
        walk(new, p.push(d.name@)) == Walk::Found(d),
    decreases p.len(),
{
    let os = old.kind->Directory_0;
    let ns = new.kind->Directory_0;
    let q = p.push(d.name@);
    if p.len() == 0 {
        lemma_first_named_push(os@, d, d.name@);
        lemma_walk_step(new, ns, os@.len() as int, q);
        assert(q.drop_first() =~= Seq::<Seq<char>>::empty());
    } else {
        let i = first_named(os@, p[0])->Some_0;
        reveal_with_fuel(inserted, 2);
        lemma_first_named_props(os@, p[0]);
        lemma_walk_step(old, os, i, p);
        lemma_first_named_update(os@, ns@, i, p[0]);
        lemma_walk_step(new, ns, i, q);
        assert(q.drop_first() =~= p.drop_first().push(d.name@));
        lemma_insert_then_walk(os@[i], ns@[i], p.drop_first(), d);
    }
}


/// The position of the first entry of `subs` named `name`, found by a scan.
fn find_child(subs: &Vec<LocalDentry>, name: &String) -> (r: Option<usize>)
    ensures
        r matches Some(i) ==> first_named(subs@, name@) == Some(i as int),
        r is None ==> first_named(subs@, name@) is None,
{
    let mut i: usize = 0;
    while i < subs.len()
        invariant
            i <= subs.len(),
            forall|j: int| 0 <= j < i ==> #[trigger] subs@[j].name@ != name@,
        decreases subs.len() - i,
    {
        if subs[i].name == *name {
            proof {
                lemma_first_named_is(subs@, name@, i as int);
            }
            return Some(i);
        }
        i = i + 1;
    }
    proof {
        lemma_first_named_props(subs@, name@);
        if has_named(subs@, name@) {
            let j = choose|j: int| 0 <= j < subs@.len() && #[trigger] subs@[j].name@ == name@;
            assert(subs@[j].name@ != name@);
        }
    }
    None
}

/// The names of `path` from the `pos`-th on.
pub open spec fn rest_of(path: Path, pos: int) -> Seq<Seq<char>> {
    path.names().subrange(pos, path.names().len() as int)
}

/// Walks from `container` along the names of `path` from the `pos`-th on.
fn find_node_internal<'a>(container: &'a LocalDentry, path: &Path, pos: usize)
    -> (r: Result<&'a LocalDentry, FilesystemAbstractLayerError>)
    requires
        pos <= path.names().len(),
    ensures
        reports(r, walk(*container, rest_of(*path, pos as int))),
    decreases path.names().len() - pos,
{
    let ghost rest = rest_of(*path, pos as int);
    if pos < path.len() {
        let name = path.name_at(pos);
        proof {
            assert(rest[0] == name@);
            assert(rest.drop_first() =~= rest_of(*path, pos + 1));
        }
        match &container.kind {
            LocalDentryKind::Directory(subs) => {
                let found = find_child(subs, name);
                proof {
                    lemma_first_named_props(subs@, name@);
                }
                match found {
                    Some(i) => find_node_internal(&subs[i], path, pos + 1),
                    None => Err(FilesystemAbstractLayerError::NotFound),
                }
            },
            LocalDentryKind::MountPoint(mountpoint) => {
                let rem = path.suffix(pos);
                Err(FilesystemAbstractLayerError::ForeignMountPoint(rem, *mountpoint))
            },
            _ => Err(FilesystemAbstractLayerError::Mistyped),
        }
    } else {
        assert(rest =~= Seq::<Seq<char>>::empty());
        Ok(container)
    }
}

/// Whether walking from `node` along `names` finds a directory with no entry named
/// `name`.
pub open spec fn finds_free_directory(node: LocalDentry, names: Seq<Seq<char>>, name: Seq<char>) -> bool {
    match walk(node, names) {
        Walk::Found(dir) => dir.kind matches LocalDentryKind::Directory(s) && !has_named(s@, name),
        _ => false,
    }
}

/// Adds `dentry` to the directory reached from `node` along the names of `parent`
/// from the `pos`-th on, which holds no entry of that name.
fn insert_node(node: &mut LocalDentry, parent: &Path, pos: usize, dentry: LocalDentry)
    requires
        pos <= parent.names().len(),
        finds_free_directory(*old(node), rest_of(*parent, pos as int), dentry.name@),
    ensures
        inserted(*old(node), *final(node), rest_of(*parent, pos as int), dentry),
    decreases parent.names().len() - pos,
{
    let ghost rest = rest_of(*parent, pos as int);
    if pos < parent.len() {
        let name = parent.name_at(pos);
        proof {
            assert(rest[0] == name@);
            assert(rest.drop_first() =~= rest_of(*parent, pos + 1));
        }
        match &mut node.kind {
            LocalDentryKind::Directory(subs) => {
                let found = find_child(subs, name);
                proof {
                    lemma_first_named_props(subs@, name@);
                }
                match found {
                    Some(i) => {
                        insert_node(&mut subs[i], parent, pos + 1, dentry);
                    },
                    None => {},
                }
            },
            _ => {},
        }
    } else {
        assert(rest =~= Seq::<Seq<char>>::empty());
        match &mut node.kind {
            LocalDentryKind::Directory(subs) => {
                subs.push(dentry);
            },
            _ => {},
        }
    }
}


/// The bytes that reading a property gives: numbers in native byte order, a string in
/// UTF-8, a blob as it is.
pub open spec fn property_bytes(p: LocalProperty, bytes: Seq<u8>) -> bool {
    match p {
        LocalProperty::Integer(v) => native_encoding(v as u64, bytes),
        LocalProperty::Integers(vs) => all_native(Seq::new(vs@.len(), |k: int| vs@[k] as u64), bytes),
        LocalProperty::Decimal(v) => native_encoding(v, bytes),
        LocalProperty::Decimals(vs) => all_native(vs@, bytes),
        LocalProperty::String(s) => bytes == vstd::utf8::encode_utf8(s@),
        LocalProperty::Blob(b) => bytes == b@,
    }
}

/// What adding `d` to the directory at `parent` does to the tree `old`, giving `new`
/// and `r`: a relative path is refused; otherwise the entry is added when the walk
/// finds a directory without an entry of that name, and nothing changes when it does
/// not (`Conflict` for a taken name, `Mistyped` for a non-directory, the walk's error
/// else).
pub open spec fn node_created(old: LocalDentry, new: LocalDentry, absolute: bool, parent: Seq<Seq<char>>, d: LocalDentry, r: Result<(), FilesystemAbstractLayerError>) -> bool {
    &&& !absolute ==> (r matches Err(FilesystemAbstractLayerError::InvalidPath)) && new == old
    &&& absolute ==> match walk(old, parent) {
        Walk::Found(dir) => match dir.kind {
            LocalDentryKind::Directory(subs) => if has_named(subs@, d.name@) {
                (r matches Err(FilesystemAbstractLayerError::Conflict)) && new == old
            } else {
                r is Ok && inserted(old, new, parent, d)
            },
            _ => (r matches Err(FilesystemAbstractLayerError::Mistyped)) && new == old,
        },
        w => reports_error(r, w) && new == old,
    }
}

/// The root file system.
pub struct Rootfs {
    root: LocalDentry,
}

/// Whether `r` reports a failed walk with the walk's own error.
pub open spec fn reports_error<T>(r: Result<T, FilesystemAbstractLayerError>, w: Walk) -> bool {
    match w {
        Walk::Found(_) => false,
        Walk::NotFound => r matches Err(FilesystemAbstractLayerError::NotFound),
        Walk::Mistyped => r matches Err(FilesystemAbstractLayerError::Mistyped),
        Walk::Foreign(names, mid) => r matches Err(FilesystemAbstractLayerError::ForeignMountPoint(p, m))
            && p.spec_absolute() && p.names() == names && m == mid,
    }
}

impl Rootfs {
    /// The tree of entries, from the root directory down.
    pub closed spec fn tree(&self) -> LocalDentry {
        self.root
    }

    /// The root is a directory, and every reachable entry reports a size that fits.
    pub closed spec fn wf(&self) -> bool {
        &&& self.root.kind is Directory
        &&& subtree_ok(self.root)
    }

    /// An empty root directory, readable and executable.
    pub fn new() -> (r: Rootfs)
        ensures
            r.wf(),
            r.tree().name@ == Seq::<char>::empty(),
            r.tree().attr == ATTR_READABLE | ATTR_EXECUTABLE,
            r.tree().kind matches LocalDentryKind::Directory(subs) && subs@.len() == 0,
    {
        let root = LocalDentry::new_directory("", 0, 0, ATTR_READABLE | ATTR_EXECUTABLE);
        proof {
            reveal_strlit("");
            assert(fresh(root));
            lemma_fresh_subtree_ok(root);
        }
        Rootfs { root }
    }

    /// The entry at `path`, which must be absolute.
    pub fn find_node(&self, path: &Path) -> (r: Result<&LocalDentry, FilesystemAbstractLayerError>)
        ensures
            !path.spec_absolute() ==> r matches Err(FilesystemAbstractLayerError::InvalidPath),
            path.spec_absolute() ==> reports(r, walk(self.tree(), path.names())),
    {
        if path.is_absolute() {
            let r = find_node_internal(&self.root, path, 0);
            assert(rest_of(*path, 0) =~= path.names());
            r
        } else {
            Err(FilesystemAbstractLayerError::InvalidPath)
        }
    }

    /// Adds `dentry` to the directory at `parent`, unless an entry there has its name.
    pub fn create_node(&mut self, parent: &Path, dentry: LocalDentry) -> (r: Result<(), FilesystemAbstractLayerError>)
        requires
            old(self).wf(),
            fresh(dentry),
        ensures
            final(self).wf(),
            node_created(old(self).tree(), final(self).tree(), parent.spec_absolute(), parent.names(), dentry, r),
    {
        let decision: Result<(), FilesystemAbstractLayerError> = match self.find_node(parent) {
            Ok(directory) => match &directory.kind {
                LocalDentryKind::Directory(subs) => {
                    let found = find_child(subs, &dentry.name);
                    proof {
                        lemma_first_named_props(subs@, dentry.name@);
                        if has_named(subs@, dentry.name@) {
                            assert(found is Some);
                        }
                    }
                    if found.is_some() {
                        Err(FilesystemAbstractLayerError::Conflict)
                    } else {
                        Ok(())
                    }
                },
                _ => Err(FilesystemAbstractLayerError::Mistyped),
            },
            Err(e) => Err(e),
        };
        match decision {
            Ok(()) => {
                proof {
                    assert(rest_of(*parent, 0) =~= parent.names());
                }
                let ghost old_root = self.root;
                insert_node(&mut self.root, parent, 0, dentry);
                proof {
                    lemma_insert_keeps_ok(old_root, self.root, parent.names(), dentry);
                }
                Ok(())
            },
            Err(e) => Err(e),
        }
    }

    /// Mounts the file system `mountpoint` at `path`: a mount point named after the
    /// last name of `path` is added to the directory above it.
    pub fn mount(&mut self, path: &Path, mountpoint: Mid) -> (r: Result<(), FilesystemAbstractLayerError>)
        requires
            old(self).wf(),
        ensures
            final(self).wf(),
            path.names().len() == 0 ==> (r matches Err(FilesystemAbstractLayerError::InvalidPath))
                && final(self).tree() == old(self).tree(),
            path.names().len() > 0 ==> exists|d: LocalDentry| {
                &&& d.name@ == path.names().last()
                &&& d.created == 0 && d.modified == 0 && d.attr == ATTR_NONE
                &&& d.kind == LocalDentryKind::MountPoint(mountpoint)
                &&& #[trigger] node_created(old(self).tree(), final(self).tree(), path.spec_absolute(),
                    path.names().drop_last(), d, r)
            },
    {
        if let Some(parent) = path.parent() {
            let name = path.filename();
            let d = LocalDentry::new_mountpoint(name.as_str(), 0, 0, mountpoint);
            let r = self.create_node(&parent, d);
            r
        } else {
            Err(FilesystemAbstractLayerError::InvalidPath)
        }
    }

    /// Adds a stream of the `length` bytes at `address` at `path`.
    pub fn create_stream(&mut self, path: &Path, address: Address, length: usize, attr: u8)
        -> (r: Result<(), FilesystemAbstractLayerError>)
        requires
            old(self).wf(),
        ensures
            final(self).wf(),
            path.names().len() == 0 ==> (r matches Err(FilesystemAbstractLayerError::InvalidPath))
                && final(self).tree() == old(self).tree(),
            path.names().len() > 0 ==> exists|d: LocalDentry| {
                &&& d.name@ == path.names().last()
                &&& d.created == 0 && d.modified == 0 && d.attr == attr
                &&& d.kind == LocalDentryKind::File(LocalFile::Stream(address, length))
                &&& #[trigger] node_created(old(self).tree(), final(self).tree(), path.spec_absolute(),
                    path.names().drop_last(), d, r)
            },
    {
        if let Some(parent) = path.parent() {
            let name = path.filename();
            let d = LocalDentry::new_memory_stream(name.as_str(), 0, 0, attr, address, length);
            self.create_node(&parent, d)
        } else {
            Err(FilesystemAbstractLayerError::InvalidPath)
        }
    }

    /// Creates an empty directory or property at `path`. Streams, links and mount
    /// points cannot be made this way.
    pub fn create(&mut self, path: &Path, kind: DentryType, attr: u8) -> (r: Result<(), FilesystemAbstractLayerError>)
        requires
            old(self).wf(),
        ensures
            final(self).wf(),
            create_spec(old(self).tree(), final(self).tree(), path.spec_absolute(), path.names(), kind, attr, r),
    {
        if let Some(dir) = path.parent() {
            let filename = path.filename();
            let name = filename.as_str();
            match kind {
                DentryType::Directory => self.create_node(&dir, LocalDentry::new_directory(name, 0, 0, attr)),
                DentryType::Integer => self.create_node(&dir, LocalDentry::new_integer(name, 0, 0, attr)),
                DentryType::Integers => self.create_node(&dir, LocalDentry::new_integers(name, 0, 0, attr)),
                DentryType::Decimal => self.create_node(&dir, LocalDentry::new_decimal(name, 0, 0, attr)),
                DentryType::Decimals => self.create_node(&dir, LocalDentry::new_decimals(name, 0, 0, attr)),
                DentryType::String => self.create_node(&dir, LocalDentry::new_string(name, 0, 0, attr)),
                DentryType::Blob => self.create_node(&dir, LocalDentry::new_blob(name, 0, 0, attr)),
                _ => Err(FilesystemAbstractLayerError::Unsupported),
            }
        } else {
            Err(FilesystemAbstractLayerError::InvalidPath)
        }
    }

    /// The metadata of the entry at `path`, with the entries of a directory.
    pub fn lookup(&self, path: &Path) -> (r: Result<Dentry, FilesystemAbstractLayerError>)
        requires
            self.wf(),
        ensures
            lookup_spec(self.tree(), path.spec_absolute(), path.names(), r),
    {
        match self.find_node(path) {
            Ok(n) => {
                proof {
                    assert(walk_ok(walk(self.root, path.names())));
                }
                Ok(n.meta(true))
            },
            Err(e) => Err(e),
        }
    }

    /// The bytes of the property at `path`. Streams and non-files cannot be read this
    /// way.
    pub fn read(&self, path: &Path) -> (r: Result<Vec<u8>, FilesystemAbstractLayerError>)
        ensures
            read_spec(self.tree(), path.spec_absolute(), path.names(), r),
    {
        match self.find_node(path) {
            Ok(dentry) => match &dentry.kind {
                LocalDentryKind::File(LocalFile::Property(prop)) => match prop {
                    LocalProperty::Integer(it) => Ok(i64_bytes(*it)),
                    LocalProperty::Integers(it) => Ok(i64s_bytes(it)),
                    LocalProperty::Decimal(it) => Ok(u64_bytes(*it)),
                    LocalProperty::Decimals(it) => Ok(u64s_bytes(it)),
                    LocalProperty::String(it) => Ok(vstd::slice::slice_to_vec(it.as_str().as_bytes())),
                    LocalProperty::Blob(it) => Ok(it.clone()),
                },
                LocalDentryKind::File(LocalFile::Stream(_addr, _length)) => Err(FilesystemAbstractLayerError::Unsupported),
                _ => Err(FilesystemAbstractLayerError::Unsupported),
            },
            Err(err) => Err(err),
        }
    }

    /// Writing is not supported: every entry but a directory is read-only, and
    /// directories change only by creation.
    pub fn write(&self, _path: &Path, _value: &Vec<u8>) -> (r: Result<(), FilesystemAbstractLayerError>)
        ensures
            r matches Err(FilesystemAbstractLayerError::Unsupported),
    {
        Err(FilesystemAbstractLayerError::Unsupported)
    }

    pub fn is_property_supported(&self) -> (r: bool)
        ensures
            r,
    {
        true
    }

    pub fn is_stream_supported(&self) -> (r: bool)
        ensures
            r,
    {
        true
    }
}

/// What [`Rootfs::create`] does to the tree `old` for a path given by `absolute` and
/// `names`, giving `new` and `r`.
pub open spec fn create_spec(old: LocalDentry, new: LocalDentry, absolute: bool, names: Seq<Seq<char>>,
    kind: DentryType, attr: u8, r: Result<(), FilesystemAbstractLayerError>) -> bool {
    &&& names.len() == 0 ==> (r matches Err(FilesystemAbstractLayerError::InvalidPath)) && new == old
    &&& names.len() > 0 && !creatable(kind) ==> (r matches Err(FilesystemAbstractLayerError::Unsupported)) && new == old
    &&& names.len() > 0 && creatable(kind) ==> exists|d: LocalDentry| {
        &&& made_for(d, kind, names.last(), attr)
        &&& #[trigger] node_created(old, new, absolute, names.drop_last(), d, r)
    }
}

/// What looking up a path in `tree` gives.
pub open spec fn lookup_spec(tree: LocalDentry, absolute: bool, names: Seq<Seq<char>>, r: Result<Dentry, FilesystemAbstractLayerError>) -> bool {
    &&& !absolute ==> (r matches Err(FilesystemAbstractLayerError::InvalidPath))
    &&& absolute ==> match walk(tree, names) {
        Walk::Found(n) => r matches Ok(d) && describes(d, n, true),
        w => reports_error(r, w),
    }
}

/// What reading a path in `tree` gives.
pub open spec fn read_spec(tree: LocalDentry, absolute: bool, names: Seq<Seq<char>>, r: Result<Vec<u8>, FilesystemAbstractLayerError>) -> bool {
    &&& !absolute ==> (r matches Err(FilesystemAbstractLayerError::InvalidPath))
    &&& absolute ==> match walk(tree, names) {
        Walk::Found(n) => match n.kind {
            LocalDentryKind::File(LocalFile::Property(p)) => r matches Ok(bytes) && property_bytes(p, bytes@),
            _ => r matches Err(FilesystemAbstractLayerError::Unsupported),
        },
        w => reports_error(r, w),
    }
}

/// The entry types that [`Rootfs::create`] makes.
pub open spec fn creatable(kind: DentryType) -> bool {
    match kind {
        DentryType::Directory | DentryType::Integer | DentryType::Integers | DentryType::Decimal
        | DentryType::Decimals | DentryType::String | DentryType::Blob => true,
        _ => false,
    }
}

/// Whether `d` is the empty entry of type `kind` named `name` that creation makes.
pub open spec fn made_for(d: LocalDentry, kind: DentryType, name: Seq<char>, attr: u8) -> bool {
    &&& d.name@ == name
    &&& d.created == 0 && d.modified == 0 && d.attr == attr
    &&& match kind {
        DentryType::Directory => d.kind matches LocalDentryKind::Directory(s) && s@.len() == 0,
        DentryType::Integer => d.kind == LocalDentryKind::File(LocalFile::Property(LocalProperty::Integer(0))),
        DentryType::Integers => d.kind matches LocalDentryKind::File(LocalFile::Property(LocalProperty::Integers(v))) && v@.len() == 0,
        DentryType::Decimal => d.kind == LocalDentryKind::File(LocalFile::Property(LocalProperty::Decimal(0))),
        DentryType::Decimals => d.kind matches LocalDentryKind::File(LocalFile::Property(LocalProperty::Decimals(v))) && v@.len() == 0,
        DentryType::String => d.kind matches LocalDentryKind::File(LocalFile::Property(LocalProperty::String(v))) && v@.len() == 0,
        DentryType::Blob => d.kind matches LocalDentryKind::File(LocalFile::Property(LocalProperty::Blob(v))) && v@.len() == 0,
        _ => false,
    }
}


/// A successful creation makes the new entry reachable: walking to its path finds it.
pub proof fn lemma_created_is_found(
    old: LocalDentry,
    new: LocalDentry,
    absolute: bool,
    parent: Seq<Seq<char>>,
    d: LocalDentry,
)
    requires
        node_created(old, new, absolute, parent, d, Ok(())),
    ensures
        walk(new, parent.push(d.name@)) == Walk::Found(d),
{
    lemma_insert_then_walk(old, new, parent, d);
}

/// Creating an entry at a path and then looking that path up finds the created entry:
/// after [`Rootfs::create`] (or `mount`, `create_stream`) returns `Ok` for a path whose
/// last name is `d`'s, walking the tree along the path reaches `d`.
pub proof fn lemma_create_then_lookup(old: Rootfs, new: Rootfs, path: Path, d: LocalDentry)
    requires
        path.names().len() > 0,
        d.name@ == path.names().last(),
        node_created(old.tree(), new.tree(), path.spec_absolute(), path.names().drop_last(), d, Ok(())),
    ensures
        walk(new.tree(), path.names()) == Walk::Found(d),
{
    let parent = path.names().drop_last();
    let names = path.names();
    assert(parent.push(d.name@) =~= names);
    assert(walk(new.tree(), parent.push(d.name@)) == Walk::Found(d)) by {
        lemma_created_is_found(old.tree(), new.tree(), path.spec_absolute(), parent, d);
    }
}

/// The size the metadata of a property reports is the number of bytes reading it
/// gives: eight bytes for each stored 64-bit value (integer or `f64` decimal), the
/// UTF-8 bytes of a string, the bytes of a blob.
pub proof fn lemma_property_size_is_read_length(d: Dentry, n: LocalDentry, collect: bool, bytes: Seq<u8>)
    requires
        describes(d, n, collect),
        n.kind matches LocalDentryKind::File(LocalFile::Property(p)) && property_bytes(p, bytes),
    ensures
        d.size == bytes.len(),
        n.kind matches LocalDentryKind::File(LocalFile::Property(LocalProperty::Decimals(v))) ==> d.size == 8 * v@.len(),
        n.kind matches LocalDentryKind::File(LocalFile::Property(LocalProperty::Integers(v))) ==> d.size == 8 * v@.len(),
{
    if let LocalDentryKind::File(LocalFile::Property(p)) = n.kind {
        match p {
            LocalProperty::Integer(v) => {
                assert(le_bytes(v as u64).len() == 8);
                assert(le_bytes(v as u64).reverse().len() == 8);
            },
            LocalProperty::Decimal(v) => {
                assert(le_bytes(v).len() == 8);
                assert(le_bytes(v).reverse().len() == 8);
            },
            _ => {},
        }
    }
}

/// The metadata of an entry gives the kind of what it holds and its size in bytes:
/// a stream its length, a number eight bytes (an `i64` or the bits of an `f64`), a
/// list of numbers eight bytes each, a string its UTF-8 bytes, a blob its bytes;
/// directories, mount points and links have size 0.
pub proof fn lemma_meta_kind_and_size(d: Dentry, n: LocalDentry, collect: bool)
    requires
        describes(d, n, collect),
    ensures
        d.name@ == n.name@,
        n.kind matches LocalDentryKind::File(LocalFile::Stream(_, len)) ==> d.size == len && d.meta == DentryMeta::File(File::Stream),
        n.kind matches LocalDentryKind::File(LocalFile::Property(LocalProperty::Integer(_))) ==>
            d.size == 8 && d.meta == DentryMeta::File(File::Property(PropertyKind::Integer)),
        n.kind matches LocalDentryKind::File(LocalFile::Property(LocalProperty::Integers(v))) ==>
            d.size == 8 * v@.len() && d.meta == DentryMeta::File(File::Property(PropertyKind::Integers)),
        n.kind matches LocalDentryKind::File(LocalFile::Property(LocalProperty::Decimal(_))) ==>
            d.size == 8 && d.meta == DentryMeta::File(File::Property(PropertyKind::Decimal)),
        n.kind matches LocalDentryKind::File(LocalFile::Property(LocalProperty::Decimals(v))) ==>
            d.size == 8 * v@.len() && d.meta == DentryMeta::File(File::Property(PropertyKind::Decimals)),
        n.kind matches LocalDentryKind::File(LocalFile::Property(LocalProperty::String(t))) ==>
            d.size == vstd::utf8::encode_utf8(t@).len() && d.meta == DentryMeta::File(File::Property(PropertyKind::String)),
        n.kind matches LocalDentryKind::File(LocalFile::Property(LocalProperty::Blob(b))) ==>
            d.size == b@.len() && d.meta == DentryMeta::File(File::Property(PropertyKind::Blob)),
        n.kind is Directory ==> d.size == 0 && d.meta is Directory,
        n.kind matches LocalDentryKind::MountPoint(mid) ==> d.size == 0 && d.meta == DentryMeta::MountPoint(mid),
        n.kind is Link ==> d.size == 0 && d.meta == DentryMeta::Link,
{
}

} // verus!


