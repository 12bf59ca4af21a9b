//! Builds an index from paths alone, with no filesystem behind it: every entry
//! gets epoch times and a file gets size zero.
use crate::index::RootIndex;
use crate::model::{Dir, File, IndexError, Metadata, Timestamp};
use crate::path::{lemma_last_slash, normalize, normalized_path, parent_of, parent_str};
use crate::sorted::Entry;
use vstd::prelude::*;

verus! {

pub proof fn lemma_normalize_len(p: Seq<char>)
    ensures
        normalize(p).len() <= p.len(),
{
}

/// A file at `p` as the builder makes it: epoch times, not hidden, size zero,
/// no checksum.
pub open spec fn new_file_at(f: File, p: Seq<char>) -> bool {
    &&& f.key() == p
    &&& f.meta.created_time.secs == 0 && f.meta.created_time.nanos == 0
    &&& f.meta.modified_time == f.meta.created_time
    &&& !f.meta.hidden
    &&& f.size == 0
    &&& f.checksum.sha512@.len() == 0
}

/// Metadata for `path` as given, with epoch times, not hidden.
fn epoch_meta(path: String) -> (r: Metadata)
    ensures
        r.path == path,
        r.created_time.secs == 0 && r.created_time.nanos == 0,
        r.modified_time == r.created_time,
        !r.hidden,
{
    Metadata { path, created_time: Timestamp::epoch(), modified_time: Timestamp::epoch(), hidden: false }
}

pub struct PathIndexBuilder {
    files: Vec<File>,
    dirs: Vec<Dir>,
}

pub struct BuilderView {
    pub files: Seq<File>,
    pub dirs: Seq<Dir>,
}

impl View for PathIndexBuilder {
    type V = BuilderView;

    closed spec fn view(&self) -> BuilderView {
        BuilderView { files: self.files@, dirs: self.dirs@ }
    }
}

/// Whether some entry of `s` has path `p`.
pub open spec fn has_path<E: Entry>(s: Seq<E>, p: Seq<char>) -> bool {
    exists|i: int| 0 <= i < s.len() && #[trigger] s[i].key() == p
}

fn contains_path<E: Entry>(s: &Vec<E>, p: &String) -> (r: bool)
    ensures
        r == has_path(s@, p@),
{
    let mut i: usize = 0;
    while i < s.len()
        invariant
            i <= s@.len(),
            forall|k: int| 0 <= k < i ==> #[trigger] s@[k].key() != p@,
        decreases s@.len() - i,
    {
        let q = crate::path::chars_of(s[i].path());
        let t = crate::path::chars_of(p.as_str());
        match crate::path::compare_chars(&q, &t) {
            std::cmp::Ordering::Equal => {
                return true;
            },
            _ => {},
        }
        i = i + 1;
    }
    false
}

impl PathIndexBuilder {
    pub fn new() -> (r: PathIndexBuilder)
        ensures
            r@.files.len() == 0,
            r@.dirs.len() == 0,
    {
        PathIndexBuilder { files: Vec::new(), dirs: Vec::new() }
    }

    /// Adds a file at `path` in canonical form, and the directories above it;
    /// a file without a parent lies in the root directory, the empty path.
    /// Nothing changes when the file is there already.
    pub fn add_file(&mut self, path: &str)
        ensures
            has_path(final(self)@.files, normalize(path@)),
            forall|i: int| 0 <= i < old(self)@.files.len() ==> #[trigger] final(self)@.files[i] == old(self)@.files[i],
            forall|i: int| 0 <= i < old(self)@.dirs.len() ==> #[trigger] final(self)@.dirs[i] == old(self)@.dirs[i],
            !has_path(old(self)@.files, normalize(path@)) ==> final(self)@.files.len() == old(self)@.files.len() + 1,
            !has_path(old(self)@.files, normalize(path@)) ==> new_file_at(final(self)@.files.last(), normalize(path@)),
            !has_path(old(self)@.files, normalize(path@)) ==> (parent_of(normalize(path@)) matches Some(q)
                ==> has_path(final(self)@.dirs, normalize(q))),
            !has_path(old(self)@.files, normalize(path@)) ==> (parent_of(normalize(path@)) is None
                ==> has_path(final(self)@.dirs, Seq::<char>::empty())),
            has_path(old(self)@.files, normalize(path@)) ==> final(self)@ == old(self)@,
    {
        let p = normalized_path(path);
        if contains_path(&self.files, &p) {
            return;
        }
        match parent_str(p.as_str()) {
            Some(parent) => self.add_dir(parent),
            None => {
                proof {
                    reveal_strlit("");
                    assert(crate::path::forward_slashes(""@) =~= Seq::<char>::empty());
                }
                self.add_dir("");
            },
        }
        let ghost dirs_before = self.dirs@;
        let file = File::new(epoch_meta(p), 0);
        self.files.push(file);
        proof {
            assert(self.files@[self.files@.len() - 1].key() == normalize(path@));
        }
    }

    /// Adds a directory at `path` in canonical form, and the directories above
    /// it. Nothing changes when the directory is there already.
    pub fn add_dir(&mut self, path: &str)
        ensures
            has_path(final(self)@.dirs, normalize(path@)),
            final(self)@.files == old(self)@.files,
            forall|i: int| 0 <= i < old(self)@.dirs.len() ==> #[trigger] final(self)@.dirs[i] == old(self)@.dirs[i],
            final(self)@.dirs.len() >= old(self)@.dirs.len(),
            has_path(old(self)@.dirs, normalize(path@)) ==> final(self)@ == old(self)@,
            !has_path(old(self)@.dirs, normalize(path@)) ==> (parent_of(normalize(path@)) matches Some(q)
                ==> has_path(final(self)@.dirs, normalize(q))),
        decreases path@.len(),
    {
        let p = normalized_path(path);
        if contains_path(&self.dirs, &p) {
            return;
        }
        let parent = match parent_str(p.as_str()) {
            Some(q) => Some(q.to_owned()),
            None => None,
        };
        self.dirs.push(Dir::new(epoch_meta(p)));
        proof {
            assert(self.dirs@[self.dirs@.len() - 1].key() == normalize(path@));
        }
        let ghost pushed = self.dirs@;
        match parent {
            Some(parent) => {
                proof {
                    lemma_last_slash(normalize(path@));
                    lemma_normalize_len(path@);
                    assert(parent@.len() < path@.len());
                }
                self.add_dir(parent.as_str());
                proof {
                    assert(self.dirs@[pushed.len() - 1] == pushed[pushed.len() - 1]);
                }
            },
            None => {},
        }
    }

    /// The index of the entries added. Fails when a path is both a file and a
    /// directory, or a file has the empty path.
    pub fn build(self) -> (r: Result<RootIndex, IndexError>)
        ensures
            r matches Ok(x) ==> x.wf() && x@.files.to_multiset() == self@.files.to_multiset()
                && x@.dirs.to_multiset() == self@.dirs.to_multiset(),
            r is Ok <==> crate::index::entries_valid(self@.files, self@.dirs),
            r matches Ok(x) ==> !x@.dirty,
    {
        RootIndex::from_entries(self.files, self.dirs)
    }
}

} // verus!
