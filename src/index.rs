//! The root index, which owns two sorted lists (files and directories), and the
//! sub-index, a borrowed view of the part of those lists below one directory.
use crate::allowlist::Allowlist;
use crate::diff::{diff_spec, fill_checksum, only_checksums_filled, views, Diff, MatchFlags};
use crate::duplicates::{duplicate_groups, group_views};
use crate::model::{Dir, File, FileReader, IndexError};
use crate::path::{chars_of, is_canonical, is_descendant, normalize, normalized_path};
use crate::sorted::{
    find, inside_range, is_inside, lemma_cut_strictly_sorted, lemma_filter_block,
    lemma_filter_twice, lemma_strict_is_sorted, sort_by_path, sorted, strictly_sorted, Entry,
};
use vstd::prelude::*;
use vstd::slice::slice_subrange;

verus! {

/// The sum of the sizes of `files`.
pub open spec fn total_size(files: Seq<File>) -> int
    decreases files.len(),
{
    if files.len() == 0 {
        0
    } else {
        total_size(files.drop_last()) + files.last().size
    }
}

/// The rules that an index keeps: both lists strictly sorted by path, every path
/// canonical, no file at the root path, and no path both a file and a directory.
pub open spec fn index_wf(files: Seq<File>, dirs: Seq<Dir>) -> bool {
    &&& strictly_sorted(files)
    &&& strictly_sorted(dirs)
    &&& forall|i: int| 0 <= i < files.len() ==> is_canonical(#[trigger] files[i].key())
    &&& forall|i: int| 0 <= i < files.len() ==> #[trigger] files[i].key().len() > 0
    &&& forall|i: int| 0 <= i < dirs.len() ==> is_canonical(#[trigger] dirs[i].key())
    &&& forall|i: int, j: int|
        0 <= i < files.len() && 0 <= j < dirs.len() ==> #[trigger] files[i].key()
            != #[trigger] dirs[j].key()
}

/// Entries that can form an index, in any order: no path repeats among the
/// files or among the directories, every path is canonical, no file has the
/// root path, and no path is both a file and a directory.
pub open spec fn entries_valid(files: Seq<File>, dirs: Seq<Dir>) -> bool {
    &&& forall|i: int, j: int|
        0 <= i < files.len() && 0 <= j < files.len() && i != j ==> #[trigger] files[i].key()
            != #[trigger] files[j].key()
    &&& forall|i: int, j: int|
        0 <= i < dirs.len() && 0 <= j < dirs.len() && i != j ==> #[trigger] dirs[i].key()
            != #[trigger] dirs[j].key()
    &&& forall|i: int| 0 <= i < files.len() ==> is_canonical(#[trigger] files[i].key())
    &&& forall|i: int| 0 <= i < files.len() ==> #[trigger] files[i].key().len() > 0
    &&& forall|i: int| 0 <= i < dirs.len() ==> is_canonical(#[trigger] dirs[i].key())
    &&& forall|i: int, j: int|
        0 <= i < files.len() && 0 <= j < dirs.len() ==> #[trigger] files[i].key()
            != #[trigger] dirs[j].key()
}

/// An element at two positions occurs at least twice.
proof fn lemma_two_positions<A>(s: Seq<A>, i: int, j: int)
    requires
        0 <= i < s.len(),
        0 <= j < s.len(),
        i != j,
        s[i] == s[j],
    ensures
        s.to_multiset().count(s[i]) >= 2,
{
    broadcast use vstd::seq_lib::group_to_multiset_ensures, vstd::multiset::group_multiset_axioms;

    let t = s.remove(i);
    let jj = if j < i { j } else { j - 1 };
    assert(t[jj] == s[j]);
    assert(t.contains(s[i]));
    assert(t.to_multiset().count(s[i]) > 0);
    assert(t.to_multiset() == s.to_multiset().remove(s[i]));
}

/// An element that occurs at least twice sits at two positions.
proof fn lemma_two_occurrences<A>(s: Seq<A>, x: A) -> (r: (int, int))
    requires
        s.to_multiset().count(x) >= 2,
    ensures
        0 <= r.0 < s.len() && 0 <= r.1 < s.len() && r.0 != r.1 && s[r.0] == x && s[r.1] == x,
{
    broadcast use vstd::seq_lib::group_to_multiset_ensures, vstd::multiset::group_multiset_axioms;

    assert(s.to_multiset().count(x) > 0);
    assert(s.contains(x));
    let i = choose|i: int| 0 <= i < s.len() && s[i] == x;
    let t = s.remove(i);
    assert(t.to_multiset() == s.to_multiset().remove(x));
    assert(t.to_multiset().count(x) > 0);
    assert(t.contains(x));
    let k = choose|k: int| 0 <= k < t.len() && t[k] == x;
    let j = if k < i { k } else { k + 1 };
    assert(s[j] == t[k]);
    (i, j)
}

/// Two entries of `t` at different positions share a path, then so do two of
/// `s`, when both hold the same entries.
proof fn lemma_repeat_carries<E: Entry>(s: Seq<E>, t: Seq<E>, i: int, j: int) -> (r: (int, int))
    requires
        s.to_multiset() == t.to_multiset(),
        0 <= i < t.len(),
        0 <= j < t.len(),
        i != j,
        t[i].key() == t[j].key(),
    ensures
        0 <= r.0 < s.len() && 0 <= r.1 < s.len() && r.0 != r.1 && s[r.0].key() == s[r.1].key(),
{
    broadcast use vstd::seq_lib::group_to_multiset_ensures;

    if t[i] == t[j] {
        lemma_two_positions(t, i, j);
        lemma_two_occurrences(s, t[i])
    } else {
        assert(t.contains(t[i]) && t.contains(t[j]));
        assert(t.to_multiset().count(t[i]) > 0 && t.to_multiset().count(t[j]) > 0);
        assert(s.to_multiset().count(t[i]) > 0 && s.to_multiset().count(t[j]) > 0);
        assert(s.contains(t[i]) && s.contains(t[j]));
        let a = choose|a: int| 0 <= a < s.len() && s[a] == t[i];
        let b = choose|b: int| 0 <= b < s.len() && s[b] == t[j];
        (a, b)
    }
}

/// Validity does not depend on the order of the entries.
proof fn lemma_valid_permutation(files: Seq<File>, dirs: Seq<Dir>, fs: Seq<File>, ds: Seq<Dir>)
    requires
        files.to_multiset() == fs.to_multiset(),
        dirs.to_multiset() == ds.to_multiset(),
        entries_valid(files, dirs),
    ensures
        entries_valid(fs, ds),
{
    broadcast use vstd::seq_lib::group_to_multiset_ensures;

    assert forall|i: int, j: int|
        0 <= i < fs.len() && 0 <= j < fs.len() && i != j implies #[trigger] fs[i].key()
        != #[trigger] fs[j].key() by {
        if fs[i].key() == fs[j].key() {
            let (a, b) = lemma_repeat_carries(files, fs, i, j);
        }
    }
    assert forall|i: int, j: int|
        0 <= i < ds.len() && 0 <= j < ds.len() && i != j implies #[trigger] ds[i].key()
        != #[trigger] ds[j].key() by {
        if ds[i].key() == ds[j].key() {
            let (a, b) = lemma_repeat_carries(dirs, ds, i, j);
        }
    }
    assert forall|i: int| 0 <= i < fs.len() implies is_canonical(#[trigger] fs[i].key()) && fs[i].key().len() > 0 by {
        assert(fs.contains(fs[i]));
        assert(fs.to_multiset().count(fs[i]) > 0);
        assert(files.to_multiset().count(fs[i]) > 0);
        assert(files.contains(fs[i]));
        let a = choose|a: int| 0 <= a < files.len() && files[a] == fs[i];
    }
    assert forall|i: int| 0 <= i < ds.len() implies is_canonical(#[trigger] ds[i].key()) by {
        assert(ds.contains(ds[i]));
        assert(ds.to_multiset().count(ds[i]) > 0);
        assert(dirs.to_multiset().count(ds[i]) > 0);
        assert(dirs.contains(ds[i]));
        let a = choose|a: int| 0 <= a < dirs.len() && dirs[a] == ds[i];
    }
    assert forall|i: int, j: int| 0 <= i < fs.len() && 0 <= j < ds.len() implies #[trigger] fs[i].key()
        != #[trigger] ds[j].key() by {
        assert(fs.contains(fs[i]) && ds.contains(ds[j]));
        assert(fs.to_multiset().count(fs[i]) > 0 && ds.to_multiset().count(ds[j]) > 0);
        assert(files.to_multiset().count(fs[i]) > 0 && dirs.to_multiset().count(ds[j]) > 0);
        assert(files.contains(fs[i]) && dirs.contains(ds[j]));
        let a = choose|a: int| 0 <= a < files.len() && files[a] == fs[i];
        let b = choose|b: int| 0 <= b < dirs.len() && dirs[b] == ds[j];
    }
}

/// For sorted lists, the rules of an index are validity.
proof fn lemma_sorted_wf_iff_valid(fs: Seq<File>, ds: Seq<Dir>)
    requires
        sorted(fs),
        sorted(ds),
    ensures
        index_wf(fs, ds) <==> entries_valid(fs, ds),
{
    if index_wf(fs, ds) {
        assert forall|i: int, j: int| 0 <= i < fs.len() && 0 <= j < fs.len() && i != j implies #[trigger] fs[i].key()
            != #[trigger] fs[j].key() by {
            if i < j {
                crate::path::lemma_lt_irreflexive(fs[i].key());
            } else {
                crate::path::lemma_lt_irreflexive(fs[j].key());
            }
        }
        assert forall|i: int, j: int| 0 <= i < ds.len() && 0 <= j < ds.len() && i != j implies #[trigger] ds[i].key()
            != #[trigger] ds[j].key() by {
            if i < j {
                crate::path::lemma_lt_irreflexive(ds[i].key());
            } else {
                crate::path::lemma_lt_irreflexive(ds[j].key());
            }
        }
    }
    if entries_valid(fs, ds) {
        assert forall|i: int, j: int| 0 <= i < j < fs.len() implies crate::path::path_lt(
            #[trigger] fs[i].key(),
            #[trigger] fs[j].key(),
        ) by {
            crate::sorted::lemma_key_le(fs[i].key(), fs[j].key());
        }
        assert forall|i: int, j: int| 0 <= i < j < ds.len() implies crate::path::path_lt(
            #[trigger] ds[i].key(),
            #[trigger] ds[j].key(),
        ) by {
            crate::sorted::lemma_key_le(ds[i].key(), ds[j].key());
        }
    }
}

/// A directory and what lies below it, borrowed from an index.
pub struct SubIndex<'a> {
    files: &'a [File],
    dirs: &'a [Dir],
}

pub struct SubView {
    pub files: Seq<File>,
    pub dirs: Seq<Dir>,
}

impl<'a> View for SubIndex<'a> {
    type V = SubView;

    closed spec fn view(&self) -> SubView {
        SubView { files: self.files@, dirs: self.dirs@ }
    }
}

pub(crate) fn sum_sizes(files: &[File]) -> (r: u128)
    ensures
        r == total_size(files@),
{
    let mut sum: u128 = 0;
    let mut i: usize = 0;
    while i < files.len()
        invariant
            i <= files@.len(),
            sum == total_size(files@.subrange(0, i as int)),
            sum <= i * 0xffff_ffff_ffff_ffffu128,
        decreases files@.len() - i,
    {
        proof {
            assert(files@.subrange(0, i + 1).drop_last() =~= files@.subrange(0, i as int));
            assert(i < 0x1_0000_0000_0000_0000u128);
            assert((i + 1) * 0xffff_ffff_ffff_ffffu128 == i * 0xffff_ffff_ffff_ffffu128
                + 0xffff_ffff_ffff_ffffu128) by (nonlinear_arith);
            assert((i + 1) * 0xffff_ffff_ffff_ffffu128 <= 0xffff_ffff_ffff_ffffu128
                * 0x1_0000_0000_0000_0000u128) by (nonlinear_arith)
                requires
                    i < 0x1_0000_0000_0000_0000u128,
            ;
        }
        sum = sum + files[i].size as u128;
        i = i + 1;
    }
    proof {
        assert(files@.subrange(0, i as int) =~= files@);
    }
    sum
}

impl<'a> SubIndex<'a> {
    pub open spec fn wf(&self) -> bool {
        strictly_sorted(self@.files) && strictly_sorted(self@.dirs)
    }

    /// A sub-index over lists that are already sorted.
    pub fn new(files: &'a [File], dirs: &'a [Dir]) -> (r: SubIndex<'a>)
        requires
            strictly_sorted(files@),
            strictly_sorted(dirs@),
        ensures
            r@.files == files@,
            r@.dirs == dirs@,
            r.wf(),
    {
        SubIndex { files, dirs }
    }

    pub fn files(&self) -> (r: &'a [File])
        ensures
            r@ == self@.files,
    {
        self.files
    }

    pub fn dirs(&self) -> (r: &'a [Dir])
        ensures
            r@ == self@.dirs,
    {
        self.dirs
    }

    /// The number of files and directories.
    pub fn entry_count(&self) -> (r: usize)
        requires
            self@.files.len() + self@.dirs.len() <= usize::MAX,
        ensures
            r == self@.files.len() + self@.dirs.len(),
    {
        self.files.len() + self.dirs.len()
    }

    pub fn file_count(&self) -> (r: usize)
        ensures
            r == self@.files.len(),
    {
        self.files.len()
    }

    pub fn dir_count(&self) -> (r: usize)
        ensures
            r == self@.dirs.len(),
    {
        self.dirs.len()
    }

    /// The total size of all files.
    pub fn file_size(&self) -> (r: u128)
        ensures
            r == total_size(self@.files),
    {
        sum_sizes(self.files)
    }

    /// The position of the directory at `path`; `None` for the root (the empty
    /// path) and for a path that is not a directory here.
    pub fn dir_index(&self, path: &str) -> (r: Option<usize>)
        requires
            self.wf(),
        ensures
            r matches Some(i) ==> i < self@.dirs.len() && self@.dirs[i as int].key() == path@
                && path@.len() > 0,
            r is None ==> path@.len() == 0 || forall|i: int|
                0 <= i < self@.dirs.len() ==> #[trigger] self@.dirs[i].key() != path@,
    {
        let p = chars_of(path);
        if p.len() == 0 {
            return None;
        }
        proof {
            lemma_strict_is_sorted(self.dirs@);
        }
        find(self.dirs, &p)
    }

    /// The position of the file at `path`, if there is one.
    pub fn file_index(&self, path: &str) -> (r: Option<usize>)
        requires
            self.wf(),
        ensures
            r matches Some(i) ==> i < self@.files.len() && self@.files[i as int].key() == path@,
            r is None ==> forall|i: int|
                0 <= i < self@.files.len() ==> #[trigger] self@.files[i].key() != path@,
    {
        let p = chars_of(path);
        proof {
            lemma_strict_is_sorted(self.files@);
        }
        find(self.files, &p)
    }

    /// The positions `[start, end)` of the directories below the directory at
    /// `dir_index`.
    pub fn dir_children_indices(&self, dir_index: usize) -> (r: (usize, usize))
        requires
            self.wf(),
            dir_index < self@.dirs.len(),
        ensures
            r.0 <= r.1 <= self@.dirs.len(),
            forall|k: int|
                0 <= k < self@.dirs.len() ==> (is_inside(
                    #[trigger] self@.dirs[k].key(),
                    self@.dirs[dir_index as int].key(),
                ) <==> r.0 <= k < r.1),
            r.0 > dir_index,
            forall|k: int|
                dir_index < k < r.0 ==> crate::path::path_lt(
                    #[trigger] self@.dirs[k].key(),
                    crate::path::dir_prefix(self@.dirs[dir_index as int].key()),
                ),
    {
        let r = inside_range(self.dirs, self.dirs[dir_index].path());
        proof {
            let d = self.dirs@[dir_index as int].key();
            if d.len() > 0 {
                crate::sorted::lemma_lt_extend(d, '/');
            } else {
                if dir_index > 0 {
                    assert(crate::path::path_lt(self.dirs@[0].key(), self.dirs@[dir_index as int].key()));
                }
            }
        }
        r
    }

    /// The positions `[start, end)` of the files below the directory `path`
    /// (all files for the root, the empty path).
    pub fn dir_file_indices(&self, path: &str) -> (r: (usize, usize))
        requires
            self.wf(),
        ensures
            r.0 <= r.1 <= self@.files.len(),
            forall|k: int|
                0 <= k < self@.files.len() ==> (is_inside(#[trigger] self@.files[k].key(), path@)
                    <==> r.0 <= k < r.1),
    {
        inside_range(self.files, path)
    }

    /// The sub-index of the directory at `dir_index`: the files and directories
    /// below it, in order.
    pub fn sub_index(&self, dir_index: usize) -> (r: SubIndex<'a>)
        requires
            self.wf(),
            dir_index < self@.dirs.len(),
        ensures
            r.wf(),
            r@.files == self@.files.filter(
                |f: File| is_inside(f.key(), self@.dirs[dir_index as int].key()),
            ),
            r@.dirs == self@.dirs.filter(
                |x: Dir| is_inside(x.key(), self@.dirs[dir_index as int].key()),
            ),
    {
        let path = self.dirs[dir_index].path();
        let (ds, de) = inside_range(self.dirs, path);
        let (fs, fe) = inside_range(self.files, path);
        let ghost d = self.dirs@[dir_index as int].key();
        proof {
            let pf = |f: File| is_inside(f.key(), d);
            let qf = |f: File| !is_inside(f.key(), d);
            lemma_filter_block(self.files@, pf, qf, fs as int, fe as int);
            let pd = |x: Dir| is_inside(x.key(), d);
            let qd = |x: Dir| !is_inside(x.key(), d);
            lemma_filter_block(self.dirs@, pd, qd, ds as int, de as int);
        }
        let r = SubIndex {
            files: slice_subrange(self.files, fs, fe),
            dirs: slice_subrange(self.dirs, ds, de),
        };
        proof {
            assert(strictly_sorted(r.files@)) by {
                assert forall|i: int, j: int| 0 <= i < j < r.files@.len() implies crate::path::path_lt(
                    #[trigger] r.files@[i].key(),
                    #[trigger] r.files@[j].key(),
                ) by {
                    assert(r.files@[i] == self.files@[fs + i]);
                    assert(r.files@[j] == self.files@[fs + j]);
                }
            }
            assert(strictly_sorted(r.dirs@)) by {
                assert forall|i: int, j: int| 0 <= i < j < r.dirs@.len() implies crate::path::path_lt(
                    #[trigger] r.dirs@[i].key(),
                    #[trigger] r.dirs@[j].key(),
                ) by {
                    assert(r.dirs@[i] == self.dirs@[ds + i]);
                    assert(r.dirs@[j] == self.dirs@[ds + j]);
                }
            }
        }
        r
    }
}

/// Filling in checksums keeps the rules of an index.
pub proof fn lemma_wf_after_fill(old_files: Seq<File>, new_files: Seq<File>, dirs: Seq<Dir>)
    requires
        index_wf(old_files, dirs),
        only_checksums_filled(old_files, new_files),
    ensures
        index_wf(new_files, dirs),
{
    assert forall|a: int| 0 <= a < new_files.len() implies #[trigger] new_files[a].key()
        == old_files[a].key() by {}
    assert forall|x: int, y: int| 0 <= x < y < new_files.len() implies crate::path::path_lt(
        #[trigger] new_files[x].key(),
        #[trigger] new_files[y].key(),
    ) by {
        assert(new_files[x].key() == old_files[x].key());
        assert(new_files[y].key() == old_files[y].key());
    }
    assert forall|x: int, y: int| 0 <= x < new_files.len() && 0 <= y < dirs.len() implies #[trigger] new_files[x].key()
        != #[trigger] dirs[y].key() by {
        assert(new_files[x].key() == old_files[x].key());
    }
}

/// What a walk of the filesystem found at one path.
pub enum Walked {
    /// A regular file.
    File(File),
    /// A directory: its path, and the files and directories found at and below it.
    Dir { path: String, files: Vec<File>, dirs: Vec<Dir> },
    /// Neither a regular file nor a directory.
    Other,
}

/// `f` with the checksum of the removed file that had the same metadata, if
/// there was one.
pub open spec fn carry(f: File, removed: Seq<File>) -> File {
    if exists|k: int| 0 <= k < removed.len() && #[trigger] removed[k].meta@ == f.meta@ {
        let k = choose|k: int| 0 <= k < removed.len() && #[trigger] removed[k].meta@ == f.meta@;
        File { checksum: removed[k].checksum, ..f }
    } else {
        f
    }
}

pub open spec fn carry_all(files: Seq<File>, removed: Seq<File>) -> Seq<File> {
    files.map_values(|f: File| carry(f, removed))
}

/// Whether `d` names a directory of `dirs`.
pub open spec fn has_dir(dirs: Seq<Dir>, d: Seq<char>) -> bool {
    exists|i: int| 0 <= i < dirs.len() && #[trigger] dirs[i].key() == d
}

/// The files that stay when the directory `d` is taken out (see `remove_dir`).
pub open spec fn files_kept(v: IndexView, d: Seq<char>) -> Seq<File> {
    if d.len() == 0 {
        Seq::empty()
    } else if has_dir(v.dirs, d) {
        v.files.filter(|f: File| !is_descendant(f.key(), d))
    } else {
        v.files
    }
}

/// The files taken out with the directory `d`.
pub open spec fn files_taken(v: IndexView, d: Seq<char>) -> Seq<File> {
    if d.len() == 0 {
        v.files
    } else if has_dir(v.dirs, d) {
        v.files.filter(|f: File| is_descendant(f.key(), d))
    } else {
        Seq::empty()
    }
}

/// A directory other than `d` and not below it.
pub open spec fn outside_dir(d: Seq<char>) -> spec_fn(Dir) -> bool {
    |x: Dir| x.key() != d && !is_descendant(x.key(), d)
}

/// The directories that stay when the directory `d` is taken out.
pub open spec fn dirs_kept(v: IndexView, d: Seq<char>) -> Seq<Dir> {
    if d.len() == 0 {
        Seq::empty()
    } else if has_dir(v.dirs, d) {
        v.dirs.filter(outside_dir(d))
    } else {
        v.dirs
    }
}

fn copy_files(v: &Vec<File>) -> (r: Vec<File>)
    ensures
        r@ == v@,
{
    let mut out: Vec<File> = Vec::new();
    let mut i: usize = 0;
    while i < v.len()
        invariant
            i <= v@.len(),
            out@ == v@.take(i as int),
        decreases v@.len() - i,
    {
        out.push(v[i].copy());
        proof {
            assert(v@.take(i + 1) =~= v@.take(i as int).push(v@[i as int]));
        }
        i = i + 1;
    }
    proof {
        assert(v@.take(i as int) =~= v@);
    }
    out
}

fn copy_dirs(v: &Vec<Dir>) -> (r: Vec<Dir>)
    ensures
        r@ == v@,
{
    let mut out: Vec<Dir> = Vec::new();
    let mut i: usize = 0;
    while i < v.len()
        invariant
            i <= v@.len(),
            out@ == v@.take(i as int),
        decreases v@.len() - i,
    {
        out.push(v[i].copy());
        proof {
            assert(v@.take(i + 1) =~= v@.take(i as int).push(v@[i as int]));
        }
        i = i + 1;
    }
    proof {
        assert(v@.take(i as int) =~= v@);
    }
    out
}

/// Gives each file the checksum of the removed file with the same metadata.
fn carry_checksums(files: Vec<File>, removed: &Vec<File>) -> (r: Vec<File>)
    requires
        strictly_sorted(removed@),
    ensures
        r@ == carry_all(files@, removed@),
{
    let mut out: Vec<File> = Vec::new();
    let mut i: usize = 0;
    proof {
        lemma_strict_is_sorted(removed@);
    }
    while i < files.len()
        invariant
            strictly_sorted(removed@),
            crate::sorted::sorted(removed@),
            i <= files@.len(),
            out@ == carry_all(files@.take(i as int), removed@),
        decreases files@.len() - i,
    {
        let mut f = files[i].copy();
        let key = chars_of(f.meta.path.as_str());
        match find(removed.as_slice(), &key) {
            Some(k) => {
                if removed[k].meta.same_as(&f.meta) {
                    proof {
                        let c = choose|c: int| 0 <= c < removed@.len() && #[trigger] removed@[c].meta@ == f.meta@;
                        if c != k {
                            crate::path::lemma_lt_irreflexive(removed@[c].key());
                        }
                    }
                    f.checksum = removed[k].checksum.copy();
                } else {
                    proof {
                        assert forall|c: int| 0 <= c < removed@.len() implies #[trigger] removed@[c].meta@ != f.meta@ by {
                            if c != k && removed@[c].meta@ == f.meta@ {
                                crate::path::lemma_lt_irreflexive(removed@[c].key());
                            }
                        }
                    }
                }
            },
            None => {
                proof {
                    assert forall|c: int| 0 <= c < removed@.len() implies #[trigger] removed@[c].meta@ != f.meta@ by {
                        assert(removed@[c].key() != key@);
                    }
                }
            },
        }
        out.push(f);
        proof {
            assert(files@.take(i + 1) =~= files@.take(i as int).push(files@[i as int]));
            assert(out@ =~= carry_all(files@.take(i + 1), removed@));
        }
        i = i + 1;
    }
    proof {
        assert(files@.take(i as int) =~= files@);
    }
    out
}

/// The files before position `k` got a computed checksum; from `k` on, the
/// list is as it was.
pub open spec fn hashed_up_to(old_files: Seq<File>, new_files: Seq<File>, k: int) -> bool {
    &&& 0 <= k < old_files.len()
    &&& forall|j: int| 0 <= j < k ==> (#[trigger] new_files[j]).checksum.sha512@.len() == 128
    &&& forall|j: int| k <= j < old_files.len() ==> #[trigger] new_files[j] == old_files[j]
}

/// A directory tree as two lists sorted by path, and whether it changed since it
/// was last saved or opened.
pub struct RootIndex {
    files: Vec<File>,
    dirs: Vec<Dir>,
    dirty: bool,
}

pub struct IndexView {
    pub files: Seq<File>,
    pub dirs: Seq<Dir>,
    pub dirty: bool,
}

impl View for RootIndex {
    type V = IndexView;

    closed spec fn view(&self) -> IndexView {
        IndexView { files: self.files@, dirs: self.dirs@, dirty: self.dirty }
    }
}

/// Checks the rules of an index on two lists.
fn check_index(files: &Vec<File>, dirs: &Vec<Dir>) -> (r: bool)
    ensures
        r == index_wf(files@, dirs@),
{
    let mut i: usize = 0;
    while i < files.len()
        invariant
            i <= files@.len(),
            forall|k: int| 0 <= k < i ==> is_canonical(#[trigger] files@[k].key()),
            forall|k: int| 0 <= k < i ==> #[trigger] files@[k].key().len() > 0,
            forall|k: int| 0 <= k < i - 1 ==> crate::path::path_lt(#[trigger] files@[k].key(), files@[k + 1].key()),
        decreases files@.len() - i,
    {
        let p = files[i].path();
        let n = normalized_path(p);
        if !(n == files[i].meta.path) {
            return false;
        }
        if p.is_empty() {
            return false;
        }
        if i > 0 {
            match crate::path::compare_paths(files[i - 1].path(), p) {
                std::cmp::Ordering::Less => {},
                _ => {
                    return false;
                },
            }
        }
        i = i + 1;
    }
    let mut j: usize = 0;
    while j < dirs.len()
        invariant
            j <= dirs@.len(),
            forall|k: int| 0 <= k < j ==> is_canonical(#[trigger] dirs@[k].key()),
            forall|k: int| 0 <= k < j - 1 ==> crate::path::path_lt(#[trigger] dirs@[k].key(), dirs@[k + 1].key()),
        decreases dirs@.len() - j,
    {
        let p = dirs[j].path();
        let n = normalized_path(p);
        if !(n == dirs[j].meta.path) {
            return false;
        }
        if j > 0 {
            match crate::path::compare_paths(dirs[j - 1].path(), p) {
                std::cmp::Ordering::Less => {},
                _ => {
                    return false;
                },
            }
        }
        j = j + 1;
    }
    proof {
        crate::sorted::lemma_adjacent_strict(files@);
        crate::sorted::lemma_adjacent_strict(dirs@);
        lemma_strict_is_sorted(dirs@);
    }
    let mut k: usize = 0;
    while k < files.len()
        invariant
            index_wf(files@, dirs@) <== (forall|a: int, b: int|
                0 <= a < files@.len() && 0 <= b < dirs@.len() ==> #[trigger] files@[a].key()
                    != #[trigger] dirs@[b].key()),
            strictly_sorted(files@),
            strictly_sorted(dirs@),
            sorted(dirs@),
            forall|a: int| 0 <= a < files@.len() ==> is_canonical(#[trigger] files@[a].key()),
            forall|a: int| 0 <= a < files@.len() ==> #[trigger] files@[a].key().len() > 0,
            forall|a: int| 0 <= a < dirs@.len() ==> is_canonical(#[trigger] dirs@[a].key()),
            k <= files@.len(),
            forall|a: int, b: int|
                0 <= a < k && 0 <= b < dirs@.len() ==> #[trigger] files@[a].key()
                    != #[trigger] dirs@[b].key(),
        decreases files@.len() - k,
    {
        let p = chars_of(files[k].path());
        match find(dirs.as_slice(), &p) {
            Some(b) => {
                proof {
                    assert(!index_wf(files@, dirs@)) by {
                        assert(files@[k as int].key() == dirs@[b as int].key());
                    }
                }
                return false;
            },
            None => {},
        }
        k = k + 1;
    }
    true
}

impl RootIndex {
    pub open spec fn wf(&self) -> bool {
        index_wf(self@.files, self@.dirs)
    }

    /// An empty index.
    pub fn new() -> (r: RootIndex)
        ensures
            r.wf(),
            r@.files.len() == 0,
            r@.dirs.len() == 0,
            !r@.dirty,
    {
        RootIndex { files: Vec::new(), dirs: Vec::new(), dirty: false }
    }

    /// An index of the given entries, sorted by path. Fails when the entries
    /// break the rules of an index (a repeated path, a path that is not
    /// canonical, a file at the root path, or a file and a directory at one path).
    pub fn from_entries(files: Vec<File>, dirs: Vec<Dir>) -> (r: Result<RootIndex, IndexError>)
        ensures
            r matches Ok(x) ==> x.wf() && !x@.dirty && x@.files.to_multiset()
                == files@.to_multiset() && x@.dirs.to_multiset() == dirs@.to_multiset(),
            r is Ok <==> entries_valid(files@, dirs@),
            r matches Err(e) ==> e == IndexError::Integrity,
    {
        let ghost files0 = files@;
        let ghost dirs0 = dirs@;
        let files = sort_by_path(files);
        let dirs = sort_by_path(dirs);
        proof {
            lemma_sorted_wf_iff_valid(files@, dirs@);
            if entries_valid(files0, dirs0) {
                lemma_valid_permutation(files0, dirs0, files@, dirs@);
            }
            if entries_valid(files@, dirs@) {
                lemma_valid_permutation(files@, dirs@, files0, dirs0);
            }
        }
        if check_index(&files, &dirs) {
            Ok(RootIndex { files, dirs, dirty: false })
        } else {
            Err(IndexError::Integrity)
        }
    }

    /// An index of stored lists, which must already be in order: what opening a
    /// saved index yields. The result is not dirty.
    pub fn from_persisted(files: Vec<File>, dirs: Vec<Dir>) -> (r: Result<RootIndex, IndexError>)
        ensures
            r matches Ok(x) ==> x.wf() && !x@.dirty && x@.files == files@ && x@.dirs == dirs@,
            r is Ok <==> index_wf(files@, dirs@),
            r matches Err(e) ==> e == IndexError::Integrity,
    {
        if check_index(&files, &dirs) {
            Ok(RootIndex { files, dirs, dirty: false })
        } else {
            Err(IndexError::Integrity)
        }
    }

    /// The files, sorted by path.
    pub fn files(&self) -> (r: &Vec<File>)
        ensures
            r@ == self@.files,
    {
        &self.files
    }

    /// The directories, sorted by path.
    pub fn dirs(&self) -> (r: &Vec<Dir>)
        ensures
            r@ == self@.dirs,
    {
        &self.dirs
    }

    /// Whether the index changed since it was created, opened or saved.
    pub fn dirty(&self) -> (r: bool)
        ensures
            r == self@.dirty,
    {
        self.dirty
    }

    /// Records that the index was saved.
    pub fn mark_saved(&mut self)
        ensures
            final(self)@.files == old(self)@.files,
            final(self)@.dirs == old(self)@.dirs,
            !final(self)@.dirty,
    {
        self.dirty = false;
    }

    pub fn entry_count(&self) -> (r: usize)
        requires
            self@.files.len() + self@.dirs.len() <= usize::MAX,
        ensures
            r == self@.files.len() + self@.dirs.len(),
    {
        self.files.len() + self.dirs.len()
    }

    pub fn file_count(&self) -> (r: usize)
        ensures
            r == self@.files.len(),
    {
        self.files.len()
    }

    /// The whole index as a sub-index.
    pub fn all(&self) -> (r: SubIndex<'_>)
        requires
            self.wf(),
        ensures
            r.wf(),
            r@.files == self@.files,
            r@.dirs == self@.dirs,
    {
        SubIndex { files: self.files.as_slice(), dirs: self.dirs.as_slice() }
    }

    /// The sub-index of the directory at `dir`: what lies below it. `None` when
    /// `dir` is the root (the empty path) or not a directory of the index.
    pub fn sub_index(&self, dir: &str) -> (r: Option<SubIndex<'_>>)
        requires
            self.wf(),
        ensures
            r is Some <==> normalize(dir@).len() > 0 && exists|i: int|
                0 <= i < self@.dirs.len() && #[trigger] self@.dirs[i].key() == normalize(dir@),
            r matches Some(s) ==> s.wf() && s@.files == self@.files.filter(
                |f: File| is_descendant(f.key(), normalize(dir@)),
            ) && s@.dirs == self@.dirs.filter(|x: Dir| is_descendant(x.key(), normalize(dir@))),
    {
        let p = normalized_path(dir);
        let all = self.all();
        match all.dir_index(p.as_str()) {
            Some(i) => {
                let s = all.sub_index(i);
                proof {
                    let d = normalize(dir@);
                    assert((|f: File| is_inside(f.key(), d)) =~= (|f: File| is_descendant(f.key(), d)));
                    assert((|x: Dir| is_inside(x.key(), d)) =~= (|x: Dir| is_descendant(x.key(), d)));
                }
                Some(s)
            },
            None => None,
        }
    }

    /// Removes the file at `path`, returning it. The index is marked dirty when
    /// a file was removed.
    pub fn remove_file(&mut self, path: &str) -> (r: Option<File>)
        requires
            old(self).wf(),
        ensures
            final(self).wf(),
            r is Some <==> exists|i: int|
                0 <= i < old(self)@.files.len() && #[trigger] old(self)@.files[i].key()
                    == normalize(path@),
            r matches Some(f) ==> f.key() == normalize(path@) && old(self)@.files.contains(f)
                && final(self)@.files == old(self)@.files.filter(
                |g: File| g.key() != normalize(path@),
            ) && final(self)@.dirs == old(self)@.dirs && final(self)@.dirty,
            r is Some ==> final(self)@.files.len() == old(self)@.files.len() - 1,
            forall|i: int|
                0 <= i < final(self)@.files.len() ==> #[trigger] final(self)@.files[i].key()
                    != normalize(path@),
            r is None ==> final(self)@ == old(self)@,
    {
        let p = normalized_path(path);
        let pc = chars_of(p.as_str());
        proof {
            lemma_strict_is_sorted(self.files@);
        }
        match find(self.files.as_slice(), &pc) {
            Some(i) => {
                let ghost s = self.files@;
                proof {
                    let pr = |g: File| g.key() == normalize(path@);
                    let q = |g: File| g.key() != normalize(path@);
                    assert forall|k: int| 0 <= k < s.len() implies (pr(#[trigger] s[k]) <==> i <= k
                        < i + 1) by {
                        if k != i {
                            crate::path::lemma_lt_irreflexive(s[k].key());
                        }
                    }
                    lemma_filter_block(s, pr, q, i as int, i + 1);
                    assert(s.remove(i as int) =~= s.subrange(0, i as int) + s.subrange(
                        i + 1,
                        s.len() as int,
                    ));
                    lemma_cut_strictly_sorted(s, i as int, i + 1);
                }
                let f = self.files.remove(i);
                self.dirty = true;
                proof {
                    assert forall|a: int| 0 <= a < self.files@.len() implies is_canonical(
                        #[trigger] self.files@[a].key(),
                    ) && self.files@[a].key().len() > 0 && forall|b: int|
                        0 <= b < self.dirs@.len() ==> self.files@[a].key()
                            != #[trigger] self.dirs@[b].key() by {
                        if a < i {
                            assert(self.files@[a] == s[a]);
                        } else {
                            assert(self.files@[a] == s[a + 1]);
                        }
                    }
                    assert forall|a: int| 0 <= a < self.files@.len() implies #[trigger] self.files@[a].key()
                        != normalize(path@) by {
                        if a < i {
                            assert(self.files@[a] == s[a]);
                            crate::path::lemma_lt_irreflexive(s[i as int].key());
                        } else {
                            assert(self.files@[a] == s[a + 1]);
                            crate::path::lemma_lt_irreflexive(s[i as int].key());
                        }
                    }
                    assert(s[i as int] == f);
                }
                Some(f)
            },
            None => None,
        }
    }

    /// Removes the directory at `path` with every directory and file below it,
    /// returning the files removed. The root (the empty path) empties the whole
    /// index. `None` when there is no such directory. The index is marked dirty
    /// when something was removed.
    pub fn remove_dir(&mut self, path: &str) -> (r: Option<Vec<File>>)
        requires
            old(self).wf(),
        ensures
            final(self).wf(),
            normalize(path@).len() == 0 ==> (r matches Some(v) && v@ == old(self)@.files
                && final(self)@.files.len() == 0 && final(self)@.dirs.len() == 0 && final(self)@.dirty),
            normalize(path@).len() > 0 ==> (r is Some <==> exists|i: int|
                0 <= i < old(self)@.dirs.len() && #[trigger] old(self)@.dirs[i].key()
                    == normalize(path@)),
            r matches Some(v) ==> (normalize(path@).len() > 0 ==> (v@ == old(self)@.files.filter(
                |f: File| is_descendant(f.key(), normalize(path@)),
            ) && final(self)@.files == old(self)@.files.filter(
                |f: File| !is_descendant(f.key(), normalize(path@)),
            ) && final(self)@.dirs == old(self)@.dirs.filter(
                |x: Dir| x.key() != normalize(path@) && !is_descendant(x.key(), normalize(path@)),
            ) && final(self)@.dirty)),
            r is None ==> final(self)@ == old(self)@,
            r matches Some(v) ==> strictly_sorted(v@),
    {
        let p = normalized_path(path);
        if p.as_str().is_empty() {
            let removed = self.files.split_off(0);
            self.dirs = Vec::new();
            self.dirty = true;
            return Some(removed);
        }
        let pc = chars_of(p.as_str());
        proof {
            lemma_strict_is_sorted(self.dirs@);
        }
        let i = match find(self.dirs.as_slice(), &pc) {
            Some(i) => i,
            None => {
                return None;
            },
        };
        let ghost d = normalize(path@);
        let ghost dirs0 = self.dirs@;
        let ghost files0 = self.files@;
        // The directory itself.
        proof {
            let pr = |x: Dir| x.key() == d;
            let q = |x: Dir| x.key() != d;
            assert forall|k: int| 0 <= k < dirs0.len() implies (pr(#[trigger] dirs0[k]) <==> i <= k
                < i + 1) by {
                if k != i {
                    crate::path::lemma_lt_irreflexive(dirs0[k].key());
                }
            }
            lemma_filter_block(dirs0, pr, q, i as int, i + 1);
            assert(dirs0.remove(i as int) =~= dirs0.subrange(0, i as int) + dirs0.subrange(
                i + 1,
                dirs0.len() as int,
            ));
            lemma_cut_strictly_sorted(dirs0, i as int, i + 1);
        }
        self.dirs.remove(i);
        proof {
            assert forall|a: int| 0 <= a < self.dirs@.len() implies #[trigger] self.dirs@[a]
                == dirs0[if a < i { a } else { a + 1 }] by {}
        }
        // What lies below it.
        let ghost dirs1 = self.dirs@;
        let (ds, de) = inside_range(self.dirs.as_slice(), p.as_str());
        proof {
            let pr = |x: Dir| is_inside(x.key(), d);
            let q = |x: Dir| !is_descendant(x.key(), d);
            lemma_filter_block(dirs1, pr, q, ds as int, de as int);
            lemma_cut_strictly_sorted(dirs1, ds as int, de as int);
            lemma_filter_twice(
                dirs0,
                |x: Dir| x.key() != d,
                q,
                |x: Dir| x.key() != d && !is_descendant(x.key(), d),
            );
        }
        let mut tail = self.dirs.split_off(de);
        let _below = self.dirs.split_off(ds);
        self.dirs.append(&mut tail);
        let (fs, fe) = inside_range(self.files.as_slice(), p.as_str());
        proof {
            let pr = |f: File| is_descendant(f.key(), d);
            let q = |f: File| !is_descendant(f.key(), d);
            assert forall|k: int| 0 <= k < files0.len() implies (pr(#[trigger] files0[k]) <==> fs
                <= k < fe) by {
                assert(is_inside(files0[k].key(), d) == is_descendant(files0[k].key(), d));
            }
            lemma_filter_block(files0, pr, q, fs as int, fe as int);
            lemma_cut_strictly_sorted(files0, fs as int, fe as int);
        }
        let mut ftail = self.files.split_off(fe);
        let removed = self.files.split_off(fs);
        self.files.append(&mut ftail);
        self.dirty = true;
        proof {
            assert(removed@ == files0.subrange(fs as int, fe as int));
            assert forall|x: int, y: int| 0 <= x < y < removed@.len() implies crate::path::path_lt(
                #[trigger] removed@[x].key(),
                #[trigger] removed@[y].key(),
            ) by {
                assert(removed@[x] == files0[fs + x] && removed@[y] == files0[fs + y]);
            }
            assert(self.dirs@ =~= dirs1.subrange(0, ds as int) + dirs1.subrange(
                de as int,
                dirs1.len() as int,
            ));
            assert(self.files@ =~= files0.subrange(0, fs as int) + files0.subrange(
                fe as int,
                files0.len() as int,
            ));
            assert forall|a: int| 0 <= a < self.files@.len() implies is_canonical(
                #[trigger] self.files@[a].key(),
            ) && self.files@[a].key().len() > 0 && forall|b: int|
                0 <= b < self.dirs@.len() ==> self.files@[a].key() != #[trigger] self.dirs@[b].key() by {
                let aa = if a < fs { a } else { a + (fe - fs) };
                assert(self.files@[a] == files0[aa]);
                assert forall|b: int| 0 <= b < self.dirs@.len() implies self.files@[a].key()
                    != #[trigger] self.dirs@[b].key() by {
                    let b1 = if b < ds { b } else { b + (de - ds) };
                    assert(self.dirs@[b] == dirs1[b1]);
                    let b0 = if b1 < i { b1 } else { b1 + 1 };
                    assert(dirs1[b1] == dirs0[b0]);
                }
            }
            assert forall|b: int| 0 <= b < self.dirs@.len() implies is_canonical(
                #[trigger] self.dirs@[b].key(),
            ) by {
                let b1 = if b < ds { b } else { b + (de - ds) };
                assert(self.dirs@[b] == dirs1[b1]);
                let b0 = if b1 < i { b1 } else { b1 + 1 };
                assert(dirs1[b1] == dirs0[b0]);
            }
        }
        Some(removed)
    }

    /// Computes and stores the checksum of every file, reading through `reader`.
    /// Stops at the first read that fails; checksums computed before it stay.
    pub fn calculate_all<R: FileReader>(&mut self, reader: &R) -> (r: Result<(), IndexError>)
        requires
            old(self).wf(),
        ensures
            final(self).wf(),
            final(self)@.dirs == old(self)@.dirs,
            final(self)@.files.len() == old(self)@.files.len(),
            forall|i: int|
                0 <= i < old(self)@.files.len() ==> (#[trigger] final(self)@.files[i]).meta@
                    == old(self)@.files[i].meta@ && final(self)@.files[i].size
                    == old(self)@.files[i].size,
            r is Ok ==> forall|i: int|
                0 <= i < old(self)@.files.len() ==> (#[trigger] final(self)@.files[i]).checksum.sha512@.len()
                    == 128,
            r is Ok ==> final(self)@.dirty,
            old(self)@.files.len() == 0 ==> r is Ok,
            r is Err ==> exists|k: int|
                #[trigger] hashed_up_to(old(self)@.files, final(self)@.files, k) && (k == 0
                    ==> final(self)@.dirty == old(self)@.dirty) && (k > 0 ==> final(self)@.dirty),
            final(self)@.files != old(self)@.files ==> final(self)@.dirty,
    {
        let mut buf: Vec<u8> = Vec::with_capacity(8192);
        let mut i: usize = 0;
        let ghost files0 = self.files@;
        while i < self.files.len()
            invariant
                index_wf(self.files@, self.dirs@),
                self.dirs@ == old(self)@.dirs,
                files0 == old(self)@.files,
                self.files@.len() == files0.len(),
                i <= files0.len(),
                forall|k: int|
                    0 <= k < files0.len() ==> (#[trigger] self.files@[k]).meta@ == files0[k].meta@
                        && self.files@[k].size == files0[k].size,
                forall|k: int| 0 <= k < i ==> (#[trigger] self.files@[k]).checksum.sha512@.len() == 128,
                forall|k: int| i <= k < files0.len() ==> #[trigger] self.files@[k] == files0[k],
                i > 0 ==> self.dirty,
                i == 0 ==> self.dirty == old(self)@.dirty && self.files@ == files0,
            decreases files0.len() - i,
        {
            let mut checksum = self.files[i].checksum.copy();
            match checksum.calculate(reader, self.files[i].path(), &mut buf) {
                Ok(()) => {},
                Err(e) => {
                    proof {
                        assert(i == 0 ==> self.files@ =~= files0);
                        assert(hashed_up_to(files0, self.files@, i as int));
                    }
                    return Err(e);
                },
            }
            let mut file = self.files[i].copy();
            file.checksum = checksum;
            let ghost before = self.files@;
            self.files.set(i, file);
            self.dirty = true;
            proof {
                assert forall|a: int| 0 <= a < self.files@.len() implies #[trigger] self.files@[a].key()
                    == before[a].key() by {}
                assert(strictly_sorted(self.files@)) by {
                    assert forall|a: int, b: int| 0 <= a < b < self.files@.len() implies crate::path::path_lt(
                        #[trigger] self.files@[a].key(),
                        #[trigger] self.files@[b].key(),
                    ) by {
                        assert(self.files@[a].key() == before[a].key());
                        assert(self.files@[b].key() == before[b].key());
                    }
                }
            }
            i = i + 1;
        }
        self.dirty = true;
        Ok(())
    }

    /// Computes the checksum of the file at position `i` if it has none, and
    /// marks the index dirty when it does. Returns whether it computed one.
    pub fn calculate_checksum<R: FileReader>(
        &mut self,
        i: usize,
        reader: &R,
        buf: &mut Vec<u8>,
    ) -> (r: Result<bool, IndexError>)
        requires
            old(self).wf(),
            i < old(self)@.files.len(),
        ensures
            final(self).wf(),
            final(self)@.dirs == old(self)@.dirs,
            only_checksums_filled(old(self)@.files, final(self)@.files),
            r is Ok ==> final(self)@.files[i as int].checksum.sha512@.len() > 0,
            forall|k: int|
                0 <= k < old(self)@.files.len() && k != i ==> #[trigger] final(self)@.files[k]
                    == old(self)@.files[k],
            r matches Ok(changed) ==> (changed ==> final(self)@.dirty),
            r matches Ok(changed) ==> (!changed ==> final(self)@ == old(self)@),
            r is Err ==> final(self)@ == old(self)@,
            old(self)@.files[i as int].checksum.sha512@.len() > 0 ==> (r matches Ok(changed)
                && !changed),
    {
        let ghost f0 = self.files@;
        let r = fill_checksum(&mut self.files, i, reader, buf);
        proof {
            lemma_wf_after_fill(f0, self.files@, self.dirs@);
        }
        match r {
            Ok(changed) => {
                if changed {
                    self.dirty = true;
                }
                Ok(changed)
            },
            Err(e) => Err(e),
        }
    }

    /// The differences between this index (the new side) and `other` (the old
    /// side): see `diff::diff`. Checksums computed on the way are kept, and each
    /// index that got one is marked dirty.
    pub fn diff<R: FileReader>(
        &mut self,
        other: &mut RootIndex,
        reader: &R,
        match_name: bool,
        match_created: bool,
        match_modified: bool,
    ) -> (r: Result<Vec<Diff>, IndexError>)
        requires
            old(self).wf(),
            old(other).wf(),
        ensures
            final(self).wf(),
            final(other).wf(),
            final(self)@.dirs == old(self)@.dirs,
            final(other)@.dirs == old(other)@.dirs,
            only_checksums_filled(old(self)@.files, final(self)@.files),
            only_checksums_filled(old(other)@.files, final(other)@.files),
            final(self)@.files != old(self)@.files ==> final(self)@.dirty,
            final(other)@.files != old(other)@.files ==> final(other)@.dirty,
            final(self)@.files == old(self)@.files ==> final(self)@.dirty == old(self)@.dirty,
            final(other)@.files == old(other)@.files ==> final(other)@.dirty == old(other)@.dirty,
            crate::diff::filled_only_where_needed(
                old(self)@.files,
                final(self)@.files,
                old(other)@.files,
                MatchFlags { name: match_name, created: match_created, modified: match_modified },
            ),
            crate::diff::filled_only_where_needed_old(
                old(other)@.files,
                final(other)@.files,
                old(self)@.files,
                MatchFlags { name: match_name, created: match_created, modified: match_modified },
            ),
            crate::diff::checksums_ready(
                old(self)@.files,
                old(other)@.files,
                MatchFlags { name: match_name, created: match_created, modified: match_modified },
            ) ==> r is Ok && final(self)@ == old(self)@ && final(other)@ == old(other)@,
            r matches Ok(d) ==> views(d@) == diff_spec(
                final(self)@.files,
                final(other)@.files,
                MatchFlags { name: match_name, created: match_created, modified: match_modified },
            ),
    {
        let ghost s0 = self.files@;
        let ghost o0 = other.files@;
        let r = crate::diff::diff(
            &mut self.files,
            &mut self.dirty,
            &mut other.files,
            &mut other.dirty,
            reader,
            MatchFlags { name: match_name, created: match_created, modified: match_modified },
        );
        proof {
            lemma_wf_after_fill(s0, self.files@, self.dirs@);
            lemma_wf_after_fill(o0, other.files@, other.dirs@);
        }
        r
    }

    /// The duplicate files under `allowlist`: see `duplicates::duplicate_groups`.
    pub fn duplicates(&self, allowlist: &Allowlist) -> (r: Vec<Vec<String>>)
        requires
            self.wf(),
        ensures
            crate::duplicates::groups_ordered(group_views(r@)),
            group_views(r@) == duplicate_groups(
                self@.files,
                self@.files.map_values(|f: File| allowlist.admits(f.key())),
            ),
    {
        let allowed = crate::duplicates::allowed_files(self.files.as_slice(), allowlist);
        let r = crate::duplicates::duplicate_groups_of(self.files.as_slice(), &allowed);
        let n = self.files.len();
        proof {
            assert(n == self.files@.len());
            crate::sorted::lemma_strict_is_sorted(self.files@);
            crate::duplicates::lemma_duplicate_groups_ordered(self.files@, allowed@);
        }
        r
    }

    /// A new index of what a walk found: a single file, or a directory with
    /// everything below it, sorted by path. The result is not dirty.
    pub fn from_path(walked: Walked) -> (r: Result<RootIndex, IndexError>)
        ensures
            walked is Other ==> r == Err::<RootIndex, IndexError>(IndexError::Unsupported),
            r matches Ok(x) ==> x.wf() && !x@.dirty,
            walked matches Walked::File(f) ==> (r matches Ok(x) ==> x@.files == seq![f] && x@.dirs.len() == 0),
            walked matches Walked::File(f) ==> (r is Ok <==> entries_valid(seq![f], Seq::empty())),
            walked matches Walked::Dir { path, files, dirs } ==> (r is Ok <==> entries_valid(files@, dirs@)),
            walked matches Walked::Dir { path, files, dirs } ==> (r matches Ok(x) ==> x@.files.to_multiset() == files@.to_multiset()
                && x@.dirs.to_multiset() == dirs@.to_multiset()),
    {
        match walked {
            Walked::File(f) => {
                let mut files: Vec<File> = Vec::new();
                files.push(f);
                let dirs: Vec<Dir> = Vec::new();
                proof {
                    broadcast use vstd::seq_lib::group_to_multiset_ensures;

                    assert(dirs@.to_multiset().len() == 0);
                }
                proof {
                    assert(files@ =~= seq![f]);
                    assert(dirs@ =~= Seq::<Dir>::empty());
                }
                let r = RootIndex::from_entries(files, dirs);
                match r {
                    Ok(x) => {
                        proof {
                            broadcast use vstd::seq_lib::group_to_multiset_ensures;

                            assert(files@ =~= Seq::<File>::empty().push(f));
                            assert(files@.to_multiset().len() == 1);
                            assert(x@.files.to_multiset().len() == 1);
                            assert(x@.files.len() == 1);
                            assert(files@.contains(f));
                            assert(files@.to_multiset().count(f) > 0);
                            assert(x@.files.to_multiset().count(f) > 0);
                            assert(x@.files.contains(f));
                            assert(x@.files =~= seq![f]);
                            assert(x@.dirs.len() == 0);
                        }
                        Ok(x)
                    },
                    Err(e) => Err(e),
                }
            },
            Walked::Dir { path: _, files, dirs } => RootIndex::from_entries(files, dirs),
            Walked::Other => Err(IndexError::Unsupported),
        }
    }

    /// Puts what a walk found into the index, in place of what the index held
    /// at that path: a file replaces the file at its path; a directory replaces
    /// itself and everything below it. A new file whose metadata equals that of
    /// a file it replaces keeps that file's checksum. Marks the index dirty. On
    /// an error the index is unchanged.
    pub fn add(&mut self, walked: Walked) -> (r: Result<(), IndexError>)
        requires
            old(self).wf(),
        ensures
            final(self).wf(),
            r is Err ==> final(self)@ == old(self)@,
            walked is Other ==> r == Err::<(), IndexError>(IndexError::Unsupported),
            r is Ok ==> final(self)@.dirty,
            walked matches Walked::File(f) ==> (r is Ok ==> final(self)@.dirs.to_multiset() == old(self)@.dirs.to_multiset()
                && final(self)@.files.to_multiset() == (old(self)@.files.filter(
                |g: File| g.key() != f.key(),
            ) + carry_all(seq![f], old(self)@.files.filter(|g: File| g.key() == f.key()))).to_multiset()),
            walked matches Walked::Dir { path, files, dirs } ==> (r is Ok ==> final(self)@.files.to_multiset()
                == (files_kept(old(self)@, normalize(path@)) + carry_all(
                files@,
                files_taken(old(self)@, normalize(path@)),
            )).to_multiset() && final(self)@.dirs.to_multiset() == (dirs_kept(old(self)@, normalize(path@)) + dirs@).to_multiset()),
            walked matches Walked::Dir { path, files, dirs } ==> (r is Ok <==> entries_valid(
                files_kept(old(self)@, normalize(path@)) + carry_all(files@, files_taken(old(self)@, normalize(path@))),
                dirs_kept(old(self)@, normalize(path@)) + dirs@,
            )),
            walked matches Walked::File(f) ==> (r is Ok <==> entries_valid(
                old(self)@.files.filter(|g: File| g.key() != f.key()) + carry_all(
                    seq![f],
                    old(self)@.files.filter(|g: File| g.key() == f.key()),
                ),
                old(self)@.dirs,
            )),
    {
        match walked {
            Walked::Other => Err(IndexError::Unsupported),
            Walked::File(f) => {
                let mut next = RootIndex {
                    files: copy_files(&self.files),
                    dirs: copy_dirs(&self.dirs),
                    dirty: self.dirty,
                };
                if !(normalized_path(f.meta.path.as_str()) == f.meta.path) {
                    proof {
                        let kept = self.files@.filter(|g: File| g.key() != f.key());
                        let carried = carry_all(seq![f], self.files@.filter(|g: File| g.key() == f.key()));
                        let all = kept + carried;
                        assert(all[kept.len() as int] == carried[0]);
                        assert(carried[0].key() == f.key());
                        assert(!is_canonical(all[kept.len() as int].key()));
                    }
                    return Err(IndexError::Integrity);
                }
                let ghost before = next.files@;
                let ghost fk = f.key();
                let ghost pr = |g: File| g.key() == fk;
                let mut removed: Vec<File> = Vec::new();
                match next.remove_file(f.meta.path.as_str()) {
                    Some(g) => {
                        proof {
                            let i = choose|i: int| 0 <= i < before.len() && before[i] == g;
                            assert forall|k: int| 0 <= k < before.len() implies (pr(#[trigger] before[k]) <==> i <= k < i + 1) by {
                                if k != i && before[k].key() == fk {
                                    crate::path::lemma_lt_irreflexive(fk);
                                }
                            }
                            lemma_filter_block(before, pr, |g: File| g.key() != fk, i, i + 1);
                            assert(before.subrange(i, i + 1) =~= seq![g]);
                        }
                        removed.push(g);
                        proof {
                            assert(removed@ =~= seq![g]);
                        }
                    },
                    None => {
                        proof {
                            assert forall|k: int| 0 <= k < before.len() implies !pr(#[trigger] before[k]) by {}
                            crate::sorted::lemma_filter_none(before, pr);
                            crate::sorted::lemma_filter_all(before, |g: File| g.key() != fk);
                            assert(removed@ =~= Seq::<File>::empty());
                        }
                    },
                }
                proof {
                    assert(removed@ == before.filter(pr));
                    assert(strictly_sorted(removed@));
                    assert(pr =~= (|g: File| g.key() == f.key()));
                    assert((|g: File| g.key() != fk) =~= (|g: File| g.key() != f.key()));
                    assert((|g: File| g.key() != normalize(f.key())) =~= (|g: File| g.key() != f.key()));
                    assert(next@.files == before.filter(|g: File| g.key() != f.key()));
                }
                let mut one: Vec<File> = Vec::new();
                one.push(f);
                proof {
                    assert(one@ =~= seq![f]);
                }
                let carried = carry_checksums(one, &removed);
                let mut files = next.files;
                let mut more = carried;
                files.append(&mut more);
                match RootIndex::from_entries(files, next.dirs) {
                    Ok(mut x) => {
                        x.dirty = true;
                        *self = x;
                        Ok(())
                    },
                    Err(e) => Err(e),
                }
            },
            Walked::Dir { path, files, dirs } => {
                let mut next = RootIndex {
                    files: copy_files(&self.files),
                    dirs: copy_dirs(&self.dirs),
                    dirty: self.dirty,
                };
                let ghost v0 = next@;
                let ghost d = normalize(path@);
                let removed = match next.remove_dir(path.as_str()) {
                    Some(v) => {
                        proof {
                            if d.len() > 0 {
                                assert(has_dir(v0.dirs, d));
                                assert(next@.dirs == v0.dirs.filter(|x: Dir| x.key() != d && !is_descendant(x.key(), d)));
                                assert(outside_dir(d) =~= (|x: Dir| x.key() != d && !is_descendant(x.key(), d)));
                            } else {
                                assert(next@.dirs =~= Seq::<Dir>::empty());
                            }
                            assert(next@.dirs == dirs_kept(v0, d));
                        }
                        v
                    },
                    None => {
                        proof {
                            if d.len() > 0 {
                                assert(!has_dir(v0.dirs, d));
                            }
                            assert(next@.dirs == dirs_kept(v0, d));
                        }
                        Vec::new()
                    },
                };
                proof {
                    let d = normalize(path@);
                    assert((|x: Dir| x.key() != d && !is_descendant(x.key(), d)) =~= (|x: Dir| x.key() != normalize(path@) && !is_descendant(x.key(), normalize(path@))));
                    if d.len() == 0 {
                        assert(next@.dirs =~= Seq::<Dir>::empty());
                        assert(next@.files =~= Seq::<File>::empty());
                    }
                    assert(removed@ == files_taken(v0, d));
                    assert(next@.files == files_kept(v0, d));
                    assert(next@.dirs == dirs_kept(v0, d));
                }
                let carried = carry_checksums(files, &removed);
                let mut all_files = next.files;
                let mut more = carried;
                all_files.append(&mut more);
                let mut all_dirs = next.dirs;
                let mut more_dirs = dirs;
                all_dirs.append(&mut more_dirs);
                match RootIndex::from_entries(all_files, all_dirs) {
                    Ok(mut x) => {
                        x.dirty = true;
                        *self = x;
                        Ok(())
                    },
                    Err(e) => Err(e),
                }
            },
        }
    }

    /// The duplicate directories under `allowlist`: see
    /// `duplicate_dirs::duplicate_dir_groups`.
    pub fn duplicate_dirs(&self, allowlist: &Allowlist) -> (r: Vec<Vec<String>>)
        requires
            self.wf(),
        ensures
            group_views(r@) == crate::duplicate_dirs::duplicate_dir_groups(
                self@.files,
                self@.dirs,
                self@.dirs.map_values(|d: Dir| allowlist.admits(d.key())),
            ),
    {
        crate::duplicate_dirs::duplicate_dirs(&self.all(), allowlist)
    }
}

/// Whether a walk descends into a directory found below its root: a hidden
/// directory is skipped, and so, on the first level below the root, are the
/// system directories `$RECYCLE.BIN` and `System Volume Information`.
pub fn admit_dir(name: &str, first_level: bool, hidden: bool) -> (r: bool)
    ensures
        r == (!hidden && !(first_level && (name@ == "$RECYCLE.BIN"@ || name@
            == "System Volume Information"@))),
{
    if hidden {
        return false;
    }
    if first_level {
        let recycle = crate::path::compare_paths(name, "$RECYCLE.BIN");
        let volume = crate::path::compare_paths(name, "System Volume Information");
        match (recycle, volume) {
            (std::cmp::Ordering::Equal, _) => false,
            (_, std::cmp::Ordering::Equal) => false,
            _ => true,
        }
    } else {
        true
    }
}

/// Whether a walk takes a regular file it found: hidden files are skipped.
pub fn admit_file(hidden: bool) -> (r: bool)
    ensures
        r == !hidden,
{
    !hidden
}

} // verus!
