//! The entries of an index: files and directories with their metadata, and the
//! content checksum of a file.
use crate::path::{
    is_child_of, name_of, name_str, normalize, normalized_path, parent_of, parent_str,
};
use sha2::Digest;
use vstd::prelude::*;

verus! {

/// A point in time as seconds and nanoseconds since the Unix epoch.
#[derive(Clone, Copy, PartialEq, Eq, Structural, Debug, Hash, PartialOrd, Ord)]
pub struct Timestamp {
    pub secs: u64,
    pub nanos: u32,
}

impl Timestamp {
    /// The Unix epoch, used when the filesystem reports no time.
    pub fn epoch() -> (r: Timestamp)
        ensures
            r.secs == 0 && r.nanos == 0,
    {
        Timestamp { secs: 0, nanos: 0 }
    }

    pub fn from_secs(secs: u64) -> (r: Timestamp)
        ensures
            r.secs == secs && r.nanos == 0,
    {
        Timestamp { secs, nanos: 0 }
    }
}

/// Why an operation on the index failed.
#[derive(Clone, Debug, PartialEq, Eq)]
pub enum IndexError {
    /// Reading or writing the filesystem failed; the message says how.
    Io(String),
    /// The path is neither a regular file nor a directory.
    Unsupported,
    /// Stored entries break the ordering rules of an index.
    Integrity,
}

/// Reads the whole content of a file. Tests supply their own contents; the
/// program reads from disk.
pub trait FileReader {
    /// Appends the content of the file at `path` to `buf`.
    fn read(&self, path: &str, buf: &mut Vec<u8>) -> Result<(), IndexError>;
}

/// The SHA-512 digest of `data`, as lower-case hex.
pub uninterp spec fn sha512_hex(data: Seq<u8>) -> Seq<char>;

/// A digit of lower-case hexadecimal.
pub open spec fn is_lower_hex_digit(c: char) -> bool {
    ('0' <= c && c <= '9') || ('a' <= c && c <= 'f')
}

/// Relies on `sha2::Sha512::digest` for the digest, and on the lower-case hex
/// formatting of its 64-byte output, two digits per byte.
#[verifier::external_body]
fn sha512_hex_of(data: &[u8]) -> (r: String)
    ensures
        r@ == sha512_hex(data@),
        r@.len() == 128,
        forall|i: int| 0 <= i < 128 ==> is_lower_hex_digit(#[trigger] r@[i]),
{
    format!("{:x}", sha2::Sha512::digest(data))
}

/// The content checksum of a file; empty until it is computed.
#[derive(Clone, Debug, PartialEq, Eq, Hash, PartialOrd, Ord)]
pub struct Checksum {
    pub sha512: String,
}

impl Checksum {
    pub fn new() -> (r: Checksum)
        ensures
            r.sha512@.len() == 0,
    {
        Checksum { sha512: String::new() }
    }

    pub fn is_empty(&self) -> (r: bool)
        ensures
            r == (self.sha512@.len() == 0),
    {
        self.sha512.as_str().is_empty()
    }

    pub fn reset(&mut self)
        ensures
            final(self).sha512@.len() == 0,
    {
        self.sha512 = String::new();
    }

    pub fn copy(&self) -> (r: Checksum)
        ensures
            r == *self,
    {
        Checksum { sha512: self.sha512.clone() }
    }

    /// Whether two checksums are equal strings.
    pub fn same_as(&self, other: &Checksum) -> (r: bool)
        ensures
            r == (self.sha512@ == other.sha512@),
    {
        self.sha512 == other.sha512
    }

    /// Reads the file at `path` through `reader` into `buf` and stores the
    /// SHA-512 of what was read. `buf` is cleared first, so it can be reused
    /// from one file to the next.
    pub fn calculate<R: FileReader>(&mut self, reader: &R, path: &str, buf: &mut Vec<u8>) -> (r:
        Result<(), IndexError>)
        ensures
            r is Ok ==> final(self).sha512@ == sha512_hex(final(buf)@),
            r is Ok ==> final(self).sha512@.len() == 128,
            r is Ok ==> forall|i: int|
                0 <= i < 128 ==> is_lower_hex_digit(#[trigger] final(self).sha512@[i]),
            r is Err ==> final(self).sha512@ == old(self).sha512@,
    {
        buf.clear();
        match reader.read(path, buf) {
            Ok(()) => {},
            Err(e) => {
                return Err(e);
            },
        }
        self.sha512 = sha512_hex_of(buf.as_slice());
        Ok(())
    }
}

/// What the index records of every entry.
#[derive(Clone, Debug, PartialEq, Eq, Hash)]
pub struct Metadata {
    pub path: String,
    pub created_time: Timestamp,
    pub modified_time: Timestamp,
    pub hidden: bool,
}

/// The value of a `Metadata`.
pub struct MetaView {
    pub path: Seq<char>,
    pub created_time: Timestamp,
    pub modified_time: Timestamp,
    pub hidden: bool,
}

impl View for Metadata {
    type V = MetaView;

    open spec fn view(&self) -> MetaView {
        MetaView {
            path: self.path@,
            created_time: self.created_time,
            modified_time: self.modified_time,
            hidden: self.hidden,
        }
    }
}

impl Metadata {
    /// Metadata for `path` in canonical form, with epoch times, not hidden.
    pub fn with_path(path: &str) -> (r: Metadata)
        ensures
            r.path@ == normalize(path@),
            r.created_time.secs == 0 && r.created_time.nanos == 0,
            r.modified_time == r.created_time,
            !r.hidden,
    {
        Metadata {
            path: normalized_path(path),
            created_time: Timestamp::epoch(),
            modified_time: Timestamp::epoch(),
            hidden: false,
        }
    }

    pub fn path(&self) -> (r: &str)
        ensures
            r@ == self.path@,
    {
        self.path.as_str()
    }

    /// The last component of the path.
    pub fn name(&self) -> (r: &str)
        ensures
            r@ == name_of(self.path@),
    {
        name_str(self.path.as_str())
    }

    /// The path without its last component, if it has more than one.
    pub fn parent(&self) -> (r: Option<&str>)
        ensures
            r matches Some(q) ==> parent_of(self.path@) == Some(q@),
            r is None ==> parent_of(self.path@) is None,
    {
        parent_str(self.path.as_str())
    }

    /// Whether this entry lies strictly below the directory `dir`.
    pub fn is_child_of(&self, dir: &str) -> (r: bool)
        ensures
            r == crate::path::is_descendant(self.path@, dir@),
    {
        is_child_of(self.path.as_str(), dir)
    }

    pub fn created_time(&self) -> (r: Timestamp)
        ensures
            r == self.created_time,
    {
        self.created_time
    }

    pub fn modified_time(&self) -> (r: Timestamp)
        ensures
            r == self.modified_time,
    {
        self.modified_time
    }

    pub fn copy(&self) -> (r: Metadata)
        ensures
            r == *self,
    {
        Metadata {
            path: self.path.clone(),
            created_time: self.created_time,
            modified_time: self.modified_time,
            hidden: self.hidden,
        }
    }

    /// Whether every field is equal.
    pub fn same_as(&self, other: &Metadata) -> (r: bool)
        ensures
            r == (self@ == other@),
    {
        self.path == other.path && self.created_time == other.created_time
            && self.modified_time == other.modified_time && self.hidden == other.hidden
    }
}

/// A regular file of the index.
#[derive(Clone, Debug, PartialEq, Eq, Hash)]
pub struct File {
    pub meta: Metadata,
    pub size: u64,
    pub checksum: Checksum,
}

pub struct FileView {
    pub meta: MetaView,
    pub size: u64,
    pub checksum: Seq<char>,
}

impl View for File {
    type V = FileView;

    open spec fn view(&self) -> FileView {
        FileView { meta: self.meta@, size: self.size, checksum: self.checksum.sha512@ }
    }
}

impl File {
    /// A file of the given size whose checksum is not computed yet.
    pub fn new(meta: Metadata, size: u64) -> (r: File)
        ensures
            r.meta == meta,
            r.size == size,
            r.checksum.sha512@.len() == 0,
    {
        File { meta, size, checksum: Checksum::new() }
    }

    pub fn copy(&self) -> (r: File)
        ensures
            r == *self,
    {
        File { meta: self.meta.copy(), size: self.size, checksum: self.checksum.copy() }
    }
}

/// A directory of the index.
#[derive(Clone, Debug, PartialEq, Eq, Hash)]
pub struct Dir {
    pub meta: Metadata,
}

impl View for Dir {
    type V = MetaView;

    open spec fn view(&self) -> MetaView {
        self.meta@
    }
}

impl Dir {
    pub fn new(meta: Metadata) -> (r: Dir)
        ensures
            r.meta == meta,
    {
        Dir { meta }
    }

    pub fn copy(&self) -> (r: Dir)
        ensures
            r == *self,
    {
        Dir { meta: self.meta.copy() }
    }
}

} // verus!
