//! The file system abstraction layer: the metadata every file system reports for its
//! entries, and the errors of file system operations.
use vstd::prelude::*;
use crate::path::Path;

verus! {

/// Mount id: a local file system slot `s` is `(s + 1) << 32`, a remote one the pid of
/// the service process.
pub type Mid = u64;
/// Process id.
pub type Pid = u64;
pub type Timestamp = u64;
pub type Address = usize;

/// Entry attribute bits.
pub const ATTR_NONE: u8 = 0;
pub const ATTR_READABLE: u8 = 1;
pub const ATTR_WRITEABLE: u8 = 2;
pub const ATTR_EXECUTABLE: u8 = 4;
pub const ATTR_PRIVILEGED_WRITEABLE: u8 = 8;

/// The kinds of entries.
#[derive(Debug, Clone, Copy, PartialEq, Eq, Structural)]
pub enum DentryKind {
    Directory,
    Link,
    File,
    MountPoint,
}

/// What a file holds: a byte stream or a typed property.
#[derive(Debug, Clone, Copy, PartialEq, Eq, Structural)]
pub enum File {
    Stream,
    Property(PropertyKind),
}

/// The types of properties.
#[derive(Debug, Clone, Copy, PartialEq, Eq, Structural)]
pub enum PropertyKind {
    Integer,
    Integers,
    Decimal,
    Decimals,
    String,
    Blob,
}

/// The type of an entry, as a flat list.
#[derive(Debug, Clone, Copy, PartialEq, Eq, Structural)]
pub enum DentryType {
    Directory,
    Link,
    MountPoint,
    Stream,
    Integer,
    Integers,
    Decimal,
    Decimals,
    String,
    Blob,
}

/// What an entry is, with what the kind carries: the entries of a directory, the mount
/// id of a mount point, the kind of a file.
pub enum DentryMeta {
    Directory(Vec<Dentry>),
    MountPoint(Mid),
    File(File),
    Link,
}

/// The type of entry that a meta describes.
pub open spec fn type_of_meta(meta: DentryMeta) -> DentryType {
    match meta {
        DentryMeta::Directory(_) => DentryType::Directory,
        DentryMeta::MountPoint(_) => DentryType::MountPoint,
        DentryMeta::Link => DentryType::Link,
        DentryMeta::File(File::Stream) => DentryType::Stream,
        DentryMeta::File(File::Property(k)) => match k {
            PropertyKind::Integer => DentryType::Integer,
            PropertyKind::Integers => DentryType::Integers,
            PropertyKind::Decimal => DentryType::Decimal,
            PropertyKind::Decimals => DentryType::Decimals,
            PropertyKind::String => DentryType::String,
            PropertyKind::Blob => DentryType::Blob,
        },
    }
}

impl DentryType {
    /// The type of entry that `meta` describes.
    pub fn from(meta: &DentryMeta) -> (r: DentryType)
        ensures
            r == type_of_meta(*meta),
    {
        match meta {
            DentryMeta::Directory(_) => DentryType::Directory,
            DentryMeta::MountPoint(_) => DentryType::MountPoint,
            DentryMeta::Link => DentryType::Link,
            DentryMeta::File(File::Stream) => DentryType::Stream,
            DentryMeta::File(File::Property(k)) => match k {
                PropertyKind::Integer => DentryType::Integer,
                PropertyKind::Integers => DentryType::Integers,
                PropertyKind::Decimal => DentryType::Decimal,
                PropertyKind::Decimals => DentryType::Decimals,
                PropertyKind::String => DentryType::String,
                PropertyKind::Blob => DentryType::Blob,
            },
        }
    }
}

/// The metadata of an entry, as a file system reports it.
pub struct Dentry {
    pub name: String,
    pub created: Timestamp,
    pub modified: Timestamp,
    pub size: usize,
    pub attributes: u8,
    pub meta: DentryMeta,
}

impl Dentry {
    pub fn new(
        name: String,
        created: Timestamp,
        modified: Timestamp,
        size: usize,
        attributes: u8,
        meta: DentryMeta,
    ) -> (r: Dentry)
        ensures
            r == (Dentry { name, created, modified, size, attributes, meta }),
    {
        Dentry { name, created, modified, size, attributes, meta }
    }

    pub fn name(&self) -> (r: &String)
        ensures
            *r == self.name,
    {
        &self.name
    }

    pub fn created_at(&self) -> (r: Timestamp)
        ensures
            r == self.created,
    {
        self.created
    }

    pub fn modified_at(&self) -> (r: Timestamp)
        ensures
            r == self.modified,
    {
        self.modified
    }

    pub fn size(&self) -> (r: usize)
        ensures
            r == self.size,
    {
        self.size
    }

    pub fn attributes(&self) -> (r: u8)
        ensures
            r == self.attributes,
    {
        self.attributes
    }

    pub fn meta(&self) -> (r: &DentryMeta)
        ensures
            *r == self.meta,
    {
        &self.meta
    }
}

/// The fixed part of an entry as handed to user space; the name follows it.
#[derive(Debug, Clone, Copy, PartialEq, Eq, Structural)]
pub struct DentryObject {
    pub kind: DentryType,
    pub attributes: u8,
    pub created: Timestamp,
    pub modified: Timestamp,
    pub size: usize,
    pub name_length: usize,
}

impl DentryObject {
    pub fn new(
        kind: DentryType,
        attributes: u8,
        created: Timestamp,
        modified: Timestamp,
        size: usize,
        name_length: usize,
    ) -> (r: DentryObject)
        ensures
            r == (DentryObject { kind, attributes, created, modified, size, name_length }),
    {
        DentryObject { kind, attributes, created, modified, size, name_length }
    }
}

/// Why a file system operation failed. `ForeignMountPoint` carries the rest of the
/// path, rooted at the mount point, and the mount id of the file system it belongs to.
pub enum FilesystemAbstractLayerError {
    NotFound,
    InvalidPath,
    Unsupported,
    Conflict,
    Mistyped,
    ForeignMountPoint(Path, Mid),
}

} // verus!
