//! Duplicate directories: directories with the same counts and total size are
//! candidates, narrowed by the attributes of their files; the files of the
//! candidates are hashed; directories whose files have the same checksums are
//! duplicates.
use crate::allowlist::Allowlist;
use crate::diff::MatchFlags;
use crate::duplicates::{indices, lemma_indices_filter, lemma_indices_filter_increasing};
use crate::index::{total_size, SubIndex};
use crate::model::{Dir, File, Timestamp};
use crate::sorted::{is_inside, Entry};
use std::collections::HashMap;
use vstd::prelude::*;

verus! {

broadcast use {vstd::std_specs::hash::group_hash_axioms, vstd::seq_lib::group_to_multiset_ensures};

/// The counts and total size of what lies below a directory.
#[derive(Clone, Copy, PartialEq, Eq, Structural, Debug, Hash)]
pub struct DirStats {
    pub file_count: usize,
    pub file_size: u128,
    pub dir_count: usize,
}

/// The files below the directory `d`, in order.
pub open spec fn files_in(files: Seq<File>, d: Seq<char>) -> Seq<File> {
    files.filter(|f: File| is_inside(f.key(), d))
}

pub open spec fn dirs_in(dirs: Seq<Dir>, d: Seq<char>) -> Seq<Dir> {
    dirs.filter(|x: Dir| is_inside(x.key(), d))
}

pub open spec fn stats_of(files: Seq<File>, dirs: Seq<Dir>, d: Seq<char>) -> DirStats {
    DirStats {
        file_count: files_in(files, d).len() as usize,
        file_size: total_size(files_in(files, d)) as u128,
        dir_count: dirs_in(dirs, d).len() as usize,
    }
}

/// A directory takes part when it is allowed and holds some bytes.
pub open spec fn dir_candidate(files: Seq<File>, dirs: Seq<Dir>, allowed: Seq<bool>, k: int) -> bool {
    allowed[k] && total_size(files_in(files, dirs[k].key())) > 0
}

pub open spec fn created_of(files: Seq<File>) -> Seq<Timestamp> {
    files.map_values(|f: File| f.meta.created_time)
}

pub open spec fn modified_of(files: Seq<File>) -> Seq<Timestamp> {
    files.map_values(|f: File| f.meta.modified_time)
}

pub open spec fn paths_of(files: Seq<File>) -> Seq<Seq<char>> {
    files.map_values(|f: File| f.key())
}

/// Directory `j` is another candidate with the same stats as `k`.
pub open spec fn dir_partner(files: Seq<File>, dirs: Seq<Dir>, allowed: Seq<bool>, k: int, j: int) -> bool {
    0 <= j < dirs.len() && j != k && dir_candidate(files, dirs, allowed, j) && stats_of(
        files,
        dirs,
        dirs[j].key(),
    ) == stats_of(files, dirs, dirs[k].key())
}

/// A directory is kept when it is a candidate and, for every attribute the flags
/// name, another candidate with the same stats has the same list of it: the
/// paths of its files, or their created or modified times as multisets.
pub open spec fn dir_admitted(
    files: Seq<File>,
    dirs: Seq<Dir>,
    allowed: Seq<bool>,
    flags: MatchFlags,
    k: int,
) -> bool {
    let mine = files_in(files, dirs[k].key());
    &&& dir_candidate(files, dirs, allowed, k)
    &&& exists|j: int| dir_partner(files, dirs, allowed, k, j)
    &&& flags.name ==> exists|j: int|
        dir_partner(files, dirs, allowed, k, j) && paths_of(files_in(files, dirs[j].key()))
            == paths_of(mine)
    &&& flags.created ==> exists|j: int|
        dir_partner(files, dirs, allowed, k, j) && created_of(
            files_in(files, dirs[j].key()),
        ).to_multiset() == created_of(mine).to_multiset()
    &&& flags.modified ==> exists|j: int|
        dir_partner(files, dirs, allowed, k, j) && modified_of(
            files_in(files, dirs[j].key()),
        ).to_multiset() == modified_of(mine).to_multiset()
}

/// Whether two lists hold the same timestamps, each as often.
fn same_times(a: &Vec<Timestamp>, b: &Vec<Timestamp>) -> (r: bool)
    ensures
        r == (a@.to_multiset() == b@.to_multiset()),
{
    if a.len() != b.len() {
        proof {
            if a@.to_multiset() == b@.to_multiset() {
                assert(a@.to_multiset().len() == b@.to_multiset().len());
            }
        }
        return false;
    }
    let mut i: usize = 0;
    while i < a.len()
        invariant
            i <= a@.len(),
            forall|k: int| 0 <= k < i ==> a@.to_multiset().count(#[trigger] a@[k]) == b@.to_multiset().count(a@[k]),
        decreases a@.len() - i,
    {
        let x = a[i];
        if count_of(a, x) != count_of(b, x) {
            return false;
        }
        i = i + 1;
    }
    let mut j: usize = 0;
    while j < b.len()
        invariant
            j <= b@.len(),
            forall|k: int| 0 <= k < a@.len() ==> a@.to_multiset().count(#[trigger] a@[k]) == b@.to_multiset().count(a@[k]),
            forall|k: int| 0 <= k < j ==> a@.to_multiset().count(#[trigger] b@[k]) == b@.to_multiset().count(b@[k]),
        decreases b@.len() - j,
    {
        let x = b[j];
        if count_of(a, x) != count_of(b, x) {
            return false;
        }
        j = j + 1;
    }
    proof {
        assert forall|x: Timestamp| a@.to_multiset().count(x) == b@.to_multiset().count(x) by {
            if a@.contains(x) {
                let k = choose|k: int| 0 <= k < a@.len() && a@[k] == x;
                assert(a@.to_multiset().count(a@[k]) == b@.to_multiset().count(a@[k]));
            } else if b@.contains(x) {
                let k = choose|k: int| 0 <= k < b@.len() && b@[k] == x;
                assert(a@.to_multiset().count(b@[k]) == b@.to_multiset().count(b@[k]));
            }
        }
        assert(a@.to_multiset() =~= b@.to_multiset());
    }
    true
}

fn count_of(s: &Vec<Timestamp>, x: Timestamp) -> (r: usize)
    ensures
        r == s@.to_multiset().count(x),
{
    let mut n: usize = 0;
    let mut i: usize = 0;
    proof {
        assert(s@.take(0) =~= Seq::<Timestamp>::empty());
        assert(s@.take(0).to_multiset() =~= vstd::multiset::Multiset::<Timestamp>::empty());
    }
    while i < s.len()
        invariant
            i <= s@.len(),
            n == s@.take(i as int).to_multiset().count(x),
            n <= i,
        decreases s@.len() - i,
    {
        proof {
            assert(s@.take(i + 1) =~= s@.take(i as int).push(s@[i as int]));
        }
        if s[i] == x {
            n = n + 1;
        }
        i = i + 1;
    }
    proof {
        assert(s@.take(i as int) =~= s@);
    }
    n
}

/// What is known of directory `q` after the first pass.
pub open spec fn dir_info_at(
    stats: Seq<DirStats>,
    ranges: Seq<(usize, usize)>,
    files: Seq<File>,
    dirs: Seq<Dir>,
    q: int,
) -> bool {
    &&& stats[q] == stats_of(files, dirs, dirs[q].key())
    &&& ranges[q].0 <= ranges[q].1 <= files.len()
    &&& files_in(files, dirs[q].key()) == files.subrange(ranges[q].0 as int, ranges[q].1 as int)
    &&& total_size(files_in(files, dirs[q].key())) == stats[q].file_size
}

/// What the first stage computes once per directory: its stats and the block
/// of files below it.
struct DirInfo {
    stats: Vec<DirStats>,
    ranges: Vec<(usize, usize)>,
}

fn dir_info(index: &SubIndex) -> (r: DirInfo)
    requires
        index.wf(),
    ensures
        r.stats@.len() == index@.dirs.len(),
        r.ranges@.len() == index@.dirs.len(),
        forall|k: int|
            0 <= k < index@.dirs.len() ==> #[trigger] dir_info_at(
                r.stats@,
                r.ranges@,
                index@.files,
                index@.dirs,
                k,
            ),
{
    let files = index.files();
    let dirs = index.dirs();
    let mut stats: Vec<DirStats> = Vec::new();
    let mut ranges: Vec<(usize, usize)> = Vec::new();
    let mut k: usize = 0;
    while k < dirs.len()
        invariant
            index.wf(),
            files@ == index@.files,
            dirs@ == index@.dirs,
            k <= dirs@.len(),
            stats@.len() == k,
            ranges@.len() == k,
            forall|q: int| 0 <= q < k ==> #[trigger] dir_info_at(stats@, ranges@, files@, dirs@, q),
        decreases dirs@.len() - k,
    {
        let path = dirs[k].path();
        let (fs, fe) = index.dir_file_indices(path);
        let (ds, de) = index.dir_children_indices(k);
        let ghost d = dirs@[k as int].key();
        proof {
            let pf = |f: File| is_inside(f.key(), d);
            crate::sorted::lemma_filter_block(files@, pf, |f: File| !is_inside(f.key(), d), fs as int, fe as int);
            let pd = |x: Dir| is_inside(x.key(), d);
            crate::sorted::lemma_filter_block(dirs@, pd, |x: Dir| !is_inside(x.key(), d), ds as int, de as int);
        }
        let size = crate::index::sum_sizes(vstd::slice::slice_subrange(files, fs, fe));
        let ghost old_stats = stats@;
        let ghost old_ranges = ranges@;
        stats.push(DirStats { file_count: fe - fs, file_size: size, dir_count: de - ds });
        ranges.push((fs, fe));
        proof {
            assert forall|q: int| 0 <= q < k + 1 implies #[trigger] dir_info_at(stats@, ranges@, files@, dirs@, q) by {
                if q < k {
                    assert(dir_info_at(old_stats, old_ranges, files@, dirs@, q));
                }
            }
        }
        k = k + 1;
    }
    DirInfo { stats, ranges }
}

/// The positions of the selected entries with key `key`, in order.
pub open spec fn key_bucket(keys: Seq<u128>, keep: Seq<bool>, key: u128, n: nat) -> Seq<usize> {
    indices(n).filter(key_pred(keys, keep, key))
}

pub open spec fn key_pred(keys: Seq<u128>, keep: Seq<bool>, key: u128) -> spec_fn(usize) -> bool {
    |j: usize| keep[j as int] && keys[j as int] == key
}

fn bucket_by_key(keys: &Vec<u128>, keep: &Vec<bool>) -> (m: HashMap<u128, Vec<usize>>)
    requires
        keep@.len() == keys@.len(),
    ensures
        forall|key: u128|
            #![trigger m@.contains_key(key)]
            (m@.contains_key(key) ==> m@[key]@ == key_bucket(keys@, keep@, key, keys@.len()))
                && (!m@.contains_key(key) ==> key_bucket(keys@, keep@, key, keys@.len()).len() == 0),
{
    let mut m: HashMap<u128, Vec<usize>> = HashMap::new();
    let mut i: usize = 0;
    while i < keys.len()
        invariant
            keep@.len() == keys@.len(),
            i <= keys@.len(),
            forall|key: u128|
                #![trigger m@.contains_key(key)]
                (m@.contains_key(key) ==> m@[key]@ == key_bucket(keys@, keep@, key, i as nat)) && (
                !m@.contains_key(key) ==> key_bucket(keys@, keep@, key, i as nat).len() == 0),
        decreases keys@.len() - i,
    {
        let ghost m0 = m@;
        proof {
            reveal(Seq::filter);
            assert forall|key: u128| true implies key_bucket(keys@, keep@, key, (i + 1) as nat) == if keep@[i as int]
                && keys@[i as int] == key {
                key_bucket(keys@, keep@, key, i as nat).push(i)
            } else {
                key_bucket(keys@, keep@, key, i as nat)
            } by {
                assert(indices((i + 1) as nat).drop_last() =~= indices(i as nat));
            }
        }
        if keep[i] {
            let key = keys[i];
            let mut bucket = match m.remove(&key) {
                Some(b) => b,
                None => Vec::new(),
            };
            bucket.push(i);
            m.insert(key, bucket);
            proof {
                assert forall|kk: u128| #![trigger m@.contains_key(kk)] (m@.contains_key(kk) ==> m@[kk]@ == key_bucket(keys@, keep@, kk, (i + 1) as nat))
                    && (!m@.contains_key(kk) ==> key_bucket(keys@, keep@, kk, (i + 1) as nat).len() == 0) by {
                    if kk != key {
                        assert(m@.contains_key(kk) == m0.contains_key(kk));
                        if m0.contains_key(kk) {
                            assert(m@[kk] == m0[kk]);
                        }
                    } else {
                        if !m0.contains_key(kk) {
                            assert(key_bucket(keys@, keep@, kk, i as nat) =~= Seq::<usize>::empty());
                        }
                    }
                }
            }
        }
        i = i + 1;
    }
    m
}

fn same_paths(a: &[File], b: &[File]) -> (r: bool)
    ensures
        r == (paths_of(a@) == paths_of(b@)),
{
    if a.len() != b.len() {
        proof {
            if paths_of(a@) == paths_of(b@) {
                assert(paths_of(a@).len() == paths_of(b@).len());
            }
        }
        return false;
    }
    let mut i: usize = 0;
    while i < a.len()
        invariant
            a@.len() == b@.len(),
            i <= a@.len(),
            forall|k: int| 0 <= k < i ==> #[trigger] a@[k].key() == b@[k].key(),
        decreases a@.len() - i,
    {
        let x = crate::path::chars_of(a[i].path());
        let y = crate::path::chars_of(b[i].path());
        match crate::path::compare_chars(&x, &y) {
            std::cmp::Ordering::Equal => {},
            _ => {
                proof {
                    assert(paths_of(a@)[i as int] != paths_of(b@)[i as int]);
                }
                return false;
            },
        }
        i = i + 1;
    }
    proof {
        assert(paths_of(a@) =~= paths_of(b@));
    }
    true
}

fn created_list(s: &[File]) -> (r: Vec<Timestamp>)
    ensures
        r@ == created_of(s@),
{
    let mut out: Vec<Timestamp> = Vec::new();
    let mut i: usize = 0;
    while i < s.len()
        invariant
            i <= s@.len(),
            out@ == created_of(s@.take(i as int)),
        decreases s@.len() - i,
    {
        out.push(s[i].meta.created_time);
        proof {
            assert(s@.take(i + 1) =~= s@.take(i as int).push(s@[i as int]));
            assert(out@ =~= created_of(s@.take(i + 1)));
        }
        i = i + 1;
    }
    proof {
        assert(s@.take(i as int) =~= s@);
    }
    out
}

fn modified_list(s: &[File]) -> (r: Vec<Timestamp>)
    ensures
        r@ == modified_of(s@),
{
    let mut out: Vec<Timestamp> = Vec::new();
    let mut i: usize = 0;
    while i < s.len()
        invariant
            i <= s@.len(),
            out@ == modified_of(s@.take(i as int)),
        decreases s@.len() - i,
    {
        out.push(s[i].meta.modified_time);
        proof {
            assert(s@.take(i + 1) =~= s@.take(i as int).push(s@[i as int]));
            assert(out@ =~= modified_of(s@.take(i + 1)));
        }
        i = i + 1;
    }
    proof {
        assert(s@.take(i as int) =~= s@);
    }
    out
}

/// The positions, in order, of the directories kept by the first stage, given
/// for each directory whether the allowlist admits it.
pub fn admitted_dirs(index: &SubIndex, allowed: &Vec<bool>, flags: MatchFlags) -> (r: Vec<usize>)
    requires
        index.wf(),
        allowed@.len() == index@.dirs.len(),
    ensures
        r@ == indices(index@.dirs.len()).filter(
            |k: usize| dir_admitted(index@.files, index@.dirs, allowed@, flags, k as int),
        ),
{
    let files = index.files();
    let dirs = index.dirs();
    let info = dir_info(index);
    let n = dirs.len();
    let ghost fv = files@;
    let ghost dv = dirs@;
    let mut keys: Vec<u128> = Vec::new();
    let mut keep: Vec<bool> = Vec::new();
    let mut k: usize = 0;
    while k < n
        invariant
            n == dv.len(),
            allowed@.len() == n,
            info.stats@.len() == n,
            info.ranges@.len() == n,
            forall|q: int| 0 <= q < n ==> #[trigger] dir_info_at(info.stats@, info.ranges@, fv, dv, q),
            k <= n,
            keys@.len() == k,
            keep@.len() == k,
            forall|q: int| 0 <= q < k ==> #[trigger] keys@[q] == info.stats@[q].file_size,
            forall|q: int| 0 <= q < k ==> #[trigger] keep@[q] == dir_candidate(fv, dv, allowed@, q),
        decreases n - k,
    {
        proof {
            assert(dir_info_at(info.stats@, info.ranges@, fv, dv, k as int));
        }
        keys.push(info.stats[k].file_size);
        keep.push(allowed[k] && info.stats[k].file_size > 0);
        k = k + 1;
    }
    let buckets = bucket_by_key(&keys, &keep);
    let ghost adm = |u: usize| dir_admitted(fv, dv, allowed@, flags, u as int);
    let mut out: Vec<usize> = Vec::new();
    let mut k: usize = 0;
    while k < n
        invariant
            files@ == fv,
            dirs@ == dv,
            n == dv.len(),
            allowed@.len() == n,
            info.stats@.len() == n,
            info.ranges@.len() == n,
            forall|q: int| 0 <= q < n ==> #[trigger] dir_info_at(info.stats@, info.ranges@, fv, dv, q),
            keys@.len() == n,
            keep@.len() == n,
            forall|q: int| 0 <= q < n ==> #[trigger] keys@[q] == info.stats@[q].file_size,
            forall|q: int| 0 <= q < n ==> #[trigger] keep@[q] == dir_candidate(fv, dv, allowed@, q),
            forall|u: usize| #[trigger] adm(u) == dir_admitted(fv, dv, allowed@, flags, u as int),
            k <= n,
            out@ == indices(k as nat).filter(adm),
            forall|key: u128|
                #![trigger buckets@.contains_key(key)]
                (buckets@.contains_key(key) ==> buckets@[key]@ == key_bucket(keys@, keep@, key, n as nat))
                    && (!buckets@.contains_key(key) ==> key_bucket(keys@, keep@, key, n as nat).len() == 0),
        decreases n - k,
    {
        proof {
            reveal(Seq::filter);
            assert(indices((k + 1) as nat).drop_last() =~= indices(k as nat));
            assert(indices((k + 1) as nat).last() == k);
        }
        let mut admitted = false;
        if keep[k] {
            let ghost key = keys@[k as int];
            let ghost kp = key_pred(keys@, keep@, key);
            proof {
                lemma_indices_filter(n as nat, kp);
                assert(kp(k));
            }
            proof {
                assert(dir_info_at(info.stats@, info.ranges@, fv, dv, k as int));
            }
            let (fs, fe) = info.ranges[k];
            let mine = vstd::slice::slice_subrange(files, fs, fe);
            let my_created = created_list(mine);
            let my_modified = modified_list(mine);
            let ghost ii = k as int;
            let ghost mv = files_in(fv, dv[ii].key());
            match buckets.get(&keys[k]) {
                Some(bucket) => {
                    let mut any = false;
                    let mut name = false;
                    let mut created = false;
                    let mut modified = false;
                    let mut t: usize = 0;
                    while t < bucket.len()
                        invariant
                            files@ == fv,
                            n == dv.len(),
                            info.stats@.len() == n,
                            info.ranges@.len() == n,
                            forall|q: int| 0 <= q < n ==> #[trigger] dir_info_at(info.stats@, info.ranges@, fv, dv, q),
                            k < n,
                            mine@ == mv,
                            mv == files_in(fv, dv[ii].key()),
                            ii == k,
                            my_created@ == created_of(mv),
                            my_modified@ == modified_of(mv),
                            bucket@ == indices(n as nat).filter(kp),
                            forall|q: int| 0 <= q < bucket@.len() ==> #[trigger] bucket@[q] < n && kp(bucket@[q]),
                            t <= bucket@.len(),
                            any == exists|q: int| 0 <= q < t && #[trigger] bucket@[q] != k
                                && info.stats@[bucket@[q] as int] == info.stats@[ii],
                            flags.name ==> name == exists|q: int| 0 <= q < t && #[trigger] bucket@[q] != k
                                && info.stats@[bucket@[q] as int] == info.stats@[ii]
                                && paths_of(files_in(fv, dv[bucket@[q] as int].key())) == paths_of(mv),
                            flags.created ==> created == exists|q: int| 0 <= q < t && #[trigger] bucket@[q] != k
                                && info.stats@[bucket@[q] as int] == info.stats@[ii]
                                && created_of(files_in(fv, dv[bucket@[q] as int].key())).to_multiset() == created_of(mv).to_multiset(),
                            flags.modified ==> modified == exists|q: int| 0 <= q < t && #[trigger] bucket@[q] != k
                                && info.stats@[bucket@[q] as int] == info.stats@[ii]
                                && modified_of(files_in(fv, dv[bucket@[q] as int].key())).to_multiset() == modified_of(mv).to_multiset(),
                        decreases bucket@.len() - t,
                    {
                        let j = bucket[t];
                        proof {
                            assert(dir_info_at(info.stats@, info.ranges@, fv, dv, j as int));
                            assert(dir_info_at(info.stats@, info.ranges@, fv, dv, k as int));
                        }
                        if j != k && info.stats[j] == info.stats[k] {
                            any = true;
                            let (gs, ge) = info.ranges[j];
                            let theirs = vstd::slice::slice_subrange(files, gs, ge);
                            if flags.name && same_paths(theirs, mine) {
                                name = true;
                            }
                            if flags.created && same_times(&created_list(theirs), &my_created) {
                                created = true;
                            }
                            if flags.modified && same_times(&modified_list(theirs), &my_modified) {
                                modified = true;
                            }
                        }
                        t = t + 1;
                    }
                    admitted = any && (!flags.name || name) && (!flags.created || created) && (
                    !flags.modified || modified);
                    proof {
                        assert forall|j: int| dir_partner(fv, dv, allowed@, ii, j) implies exists|q: int|
                            0 <= q < bucket@.len() && #[trigger] bucket@[q] == j as usize && bucket@[q] != k by {
                            assert(dir_info_at(info.stats@, info.ranges@, fv, dv, j));
                            assert(dir_info_at(info.stats@, info.ranges@, fv, dv, ii));
                            assert(keep@[j] && keys@[j] == key);
                            assert(kp(j as usize));
                            assert(indices(n as nat).filter(kp).contains(j as usize));
                        }
                        assert forall|q: int| 0 <= q < bucket@.len() && #[trigger] bucket@[q] != k
                            && info.stats@[bucket@[q] as int] == info.stats@[ii] implies dir_partner(
                            fv,
                            dv,
                            allowed@,
                            ii,
                            bucket@[q] as int,
                        ) by {
                            assert(kp(bucket@[q]));
                            assert(dir_info_at(info.stats@, info.ranges@, fv, dv, bucket@[q] as int));
                            assert(dir_info_at(info.stats@, info.ranges@, fv, dv, ii));
                        }
                        assert(any == exists|j: int| dir_partner(fv, dv, allowed@, ii, j)) by {
                            if any {
                                let q = choose|q: int| 0 <= q < t && #[trigger] bucket@[q] != k
                                    && info.stats@[bucket@[q] as int] == info.stats@[ii];
                                assert(dir_partner(fv, dv, allowed@, ii, bucket@[q] as int));
                            }
                            if exists|j: int| dir_partner(fv, dv, allowed@, ii, j) {
                                let j = choose|j: int| dir_partner(fv, dv, allowed@, ii, j);
                                assert(dir_info_at(info.stats@, info.ranges@, fv, dv, j));
                                assert(dir_info_at(info.stats@, info.ranges@, fv, dv, ii));
                                let q = choose|q: int| 0 <= q < bucket@.len() && #[trigger] bucket@[q] == j as usize && bucket@[q] != k;
                                assert(bucket@[q] != k && info.stats@[bucket@[q] as int] == info.stats@[ii]);
                            }
                        }
                        assert(flags.name ==> (name == exists|j: int| dir_partner(fv, dv, allowed@, ii, j)
                            && paths_of(files_in(fv, dv[j].key())) == paths_of(mv))) by {
                            if flags.name {
                                if name {
                                    let q = choose|q: int| 0 <= q < t && #[trigger] bucket@[q] != k
                                        && info.stats@[bucket@[q] as int] == info.stats@[ii]
                                        && paths_of(files_in(fv, dv[bucket@[q] as int].key())) == paths_of(mv);
                                    assert(dir_partner(fv, dv, allowed@, ii, bucket@[q] as int));
                                }
                                if exists|j: int| dir_partner(fv, dv, allowed@, ii, j) && paths_of(files_in(fv, dv[j].key())) == paths_of(mv) {
                                    let j = choose|j: int| dir_partner(fv, dv, allowed@, ii, j) && paths_of(files_in(fv, dv[j].key())) == paths_of(mv);
                                    assert(dir_info_at(info.stats@, info.ranges@, fv, dv, j));
                                    assert(dir_info_at(info.stats@, info.ranges@, fv, dv, ii));
                                    let q = choose|q: int| 0 <= q < bucket@.len() && #[trigger] bucket@[q] == j as usize && bucket@[q] != k;
                                    assert(bucket@[q] != k && info.stats@[bucket@[q] as int] == info.stats@[ii]);
                                }
                            }
                        }
                        assert(flags.created ==> (created == exists|j: int| dir_partner(fv, dv, allowed@, ii, j)
                            && created_of(files_in(fv, dv[j].key())).to_multiset() == created_of(mv).to_multiset())) by {
                            if flags.created {
                                if created {
                                    let q = choose|q: int| 0 <= q < t && #[trigger] bucket@[q] != k
                                        && info.stats@[bucket@[q] as int] == info.stats@[ii]
                                        && created_of(files_in(fv, dv[bucket@[q] as int].key())).to_multiset() == created_of(mv).to_multiset();
                                    assert(dir_partner(fv, dv, allowed@, ii, bucket@[q] as int));
                                }
                                if exists|j: int| dir_partner(fv, dv, allowed@, ii, j) && created_of(files_in(fv, dv[j].key())).to_multiset() == created_of(mv).to_multiset() {
                                    let j = choose|j: int| dir_partner(fv, dv, allowed@, ii, j) && created_of(files_in(fv, dv[j].key())).to_multiset() == created_of(mv).to_multiset();
                                    assert(dir_info_at(info.stats@, info.ranges@, fv, dv, j));
                                    assert(dir_info_at(info.stats@, info.ranges@, fv, dv, ii));
                                    let q = choose|q: int| 0 <= q < bucket@.len() && #[trigger] bucket@[q] == j as usize && bucket@[q] != k;
                                    assert(bucket@[q] != k && info.stats@[bucket@[q] as int] == info.stats@[ii]);
                                }
                            }
                        }
                        assert(flags.modified ==> (modified == exists|j: int| dir_partner(fv, dv, allowed@, ii, j)
                            && modified_of(files_in(fv, dv[j].key())).to_multiset() == modified_of(mv).to_multiset())) by {
                            if flags.modified {
                                if modified {
                                    let q = choose|q: int| 0 <= q < t && #[trigger] bucket@[q] != k
                                        && info.stats@[bucket@[q] as int] == info.stats@[ii]
                                        && modified_of(files_in(fv, dv[bucket@[q] as int].key())).to_multiset() == modified_of(mv).to_multiset();
                                    assert(dir_partner(fv, dv, allowed@, ii, bucket@[q] as int));
                                }
                                if exists|j: int| dir_partner(fv, dv, allowed@, ii, j) && modified_of(files_in(fv, dv[j].key())).to_multiset() == modified_of(mv).to_multiset() {
                                    let j = choose|j: int| dir_partner(fv, dv, allowed@, ii, j) && modified_of(files_in(fv, dv[j].key())).to_multiset() == modified_of(mv).to_multiset();
                                    assert(dir_info_at(info.stats@, info.ranges@, fv, dv, j));
                                    assert(dir_info_at(info.stats@, info.ranges@, fv, dv, ii));
                                    let q = choose|q: int| 0 <= q < bucket@.len() && #[trigger] bucket@[q] == j as usize && bucket@[q] != k;
                                    assert(bucket@[q] != k && info.stats@[bucket@[q] as int] == info.stats@[ii]);
                                }
                            }
                        }
                        assert(adm(k) == dir_admitted(fv, dv, allowed@, flags, ii));
                        assert(admitted == adm(k));
                    }
                },
                None => {
                    proof {
                        assert(indices(n as nat).filter(kp).contains(k));
                    }
                },
            }
        }
        proof {
            assert(adm(k) == dir_admitted(fv, dv, allowed@, flags, k as int));
        }
        if admitted {
            out.push(k);
        }
        k = k + 1;
    }
    proof {
        assert(indices(k as nat) =~= indices(n as nat));
    }
    out
}

/// For each directory, whether the allowlist admits its path.
pub fn allowed_dirs(dirs: &[Dir], allowlist: &Allowlist) -> (r: Vec<bool>)
    ensures
        r@ == dirs@.map_values(|d: Dir| allowlist.admits(d.key())),
{
    let mut out: Vec<bool> = Vec::new();
    let mut i: usize = 0;
    while i < dirs.len()
        invariant
            i <= dirs@.len(),
            out@ == dirs@.take(i as int).map_values(|d: Dir| allowlist.admits(d.key())),
        decreases dirs@.len() - i,
    {
        let a = allowlist.is_allowed(dirs[i].path());
        out.push(a);
        proof {
            assert(dirs@.take(i + 1) =~= dirs@.take(i as int).push(dirs@[i as int]));
            assert(out@ =~= dirs@.take(i + 1).map_values(|d: Dir| allowlist.admits(d.key())));
        }
        i = i + 1;
    }
    proof {
        assert(dirs@.take(i as int) =~= dirs@);
    }
    out
}

/// File `i` lies below some directory that the first stage keeps.
pub open spec fn in_admitted_dir(
    files: Seq<File>,
    dirs: Seq<Dir>,
    allowed: Seq<bool>,
    flags: MatchFlags,
    i: int,
) -> bool {
    exists|k: int|
        0 <= k < dirs.len() && dir_admitted(files, dirs, allowed, flags, k) && is_inside(
            files[i].key(),
            #[trigger] dirs[k].key(),
        )
}

/// The first stage for directories: the positions, in order, of the files that
/// lie below a directory that could have a duplicate.
pub fn potential_dir_matches(
    index: &SubIndex,
    allowlist: &Allowlist,
    match_name: bool,
    match_created: bool,
    match_modified: bool,
) -> (r: Vec<usize>)
    requires
        index.wf(),
    ensures
        r@ == indices(index@.files.len()).filter(
            |i: usize|
                in_admitted_dir(
                    index@.files,
                    index@.dirs,
                    index@.dirs.map_values(|d: Dir| allowlist.admits(d.key())),
                    MatchFlags { name: match_name, created: match_created, modified: match_modified },
                    i as int,
                ),
        ),
{
    let files = index.files();
    let dirs = index.dirs();
    let flags = MatchFlags { name: match_name, created: match_created, modified: match_modified };
    let allowed = allowed_dirs(dirs, allowlist);
    let admitted = admitted_dirs(index, &allowed, flags);
    let ghost fv = files@;
    let ghost dv = dirs@;
    let ghost adm = |k: usize| dir_admitted(fv, dv, allowed@, flags, k as int);
    proof {
        lemma_indices_filter(dv.len(), adm);
    }
    let nd = dirs.len();
    let nf = files.len();
    let mut marked: Vec<bool> = Vec::new();
    let mut i: usize = 0;
    while i < nf
        invariant
            nf == fv.len(),
            i <= nf,
            marked@.len() == i,
            forall|x: int| 0 <= x < i ==> !#[trigger] marked@[x],
        decreases nf - i,
    {
        marked.push(false);
        i = i + 1;
    }
    let mut t: usize = 0;
    while t < admitted.len()
        invariant
            index.wf(),
            files@ == fv,
            dirs@ == dv,
            fv == index@.files,
            dv == index@.dirs,
            nf == fv.len(),
            marked@.len() == nf,
            admitted@ == indices(dv.len()).filter(adm),
            nd == dv.len(),
            forall|u: usize| #[trigger] adm(u) == dir_admitted(fv, dv, allowed@, flags, u as int),
            forall|u: usize| u < dv.len() ==> (#[trigger] indices(dv.len()).filter(adm).contains(u) <==> adm(u)),
            forall|q: int| 0 <= q < admitted@.len() ==> #[trigger] admitted@[q] < dv.len() && adm(admitted@[q]),
            t <= admitted@.len(),
            forall|x: int| 0 <= x < nf ==> (#[trigger] marked@[x] == exists|q: int| 0 <= q < t && is_inside(
                fv[x].key(),
                dv[#[trigger] admitted@[q] as int].key(),
            )),
        decreases admitted@.len() - t,
    {
        let k = admitted[t];
        let (fs, fe) = index.dir_file_indices(dirs[k].path());
        let ghost before = marked@;
        let mut x: usize = fs;
        while x < fe
            invariant
                fs <= x <= fe <= nf,
                marked@.len() == nf,
                forall|y: int| 0 <= y < nf ==> #[trigger] marked@[y] == (before[y] || fs <= y < x),
            decreases fe - x,
        {
            marked.set(x, true);
            x = x + 1;
        }
        proof {
            assert forall|y: int| 0 <= y < nf implies (#[trigger] marked@[y] == exists|q: int| 0 <= q < t + 1 && is_inside(
                fv[y].key(),
                dv[#[trigger] admitted@[q] as int].key(),
            )) by {
                if marked@[y] && !before[y] {
                    assert(is_inside(fv[y].key(), dv[admitted@[t as int] as int].key()));
                }
                if exists|q: int| 0 <= q < t + 1 && is_inside(fv[y].key(), dv[#[trigger] admitted@[q] as int].key()) {
                    let q = choose|q: int| 0 <= q < t + 1 && is_inside(fv[y].key(), dv[#[trigger] admitted@[q] as int].key());
                    if q < t {
                        assert(before[y]);
                    }
                }
            }
        }
        t = t + 1;
    }
    let ghost pred = |u: usize| in_admitted_dir(fv, dv, allowed@, flags, u as int);
    proof {
        assert forall|y: int| 0 <= y < nf implies #[trigger] marked@[y] == pred(y as usize) by {
            if marked@[y] {
                let q = choose|q: int| 0 <= q < t && is_inside(fv[y].key(), dv[#[trigger] admitted@[q] as int].key());
                assert(adm(admitted@[q]));
                assert(dir_admitted(fv, dv, allowed@, flags, admitted@[q] as int));
            }
            if pred(y as usize) {
                let k = choose|k: int| 0 <= k < dv.len() && dir_admitted(fv, dv, allowed@, flags, k) && is_inside(
                    fv[y].key(),
                    #[trigger] dv[k].key(),
                );
                assert(k < nd);
                assert((k as usize) as int == k);
                assert(adm(k as usize));
                assert(admitted@.contains(k as usize));
                let q = choose|q: int| 0 <= q < admitted@.len() && admitted@[q] == k as usize;
                assert(is_inside(fv[y].key(), dv[admitted@[q] as int].key()));
            }
        }
    }
    let mut out: Vec<usize> = Vec::new();
    let mut i: usize = 0;
    while i < nf
        invariant
            nf == fv.len(),
            marked@.len() == nf,
            forall|y: int| 0 <= y < nf ==> #[trigger] marked@[y] == pred(y as usize),
            i <= nf,
            out@ == indices(i as nat).filter(pred),
        decreases nf - i,
    {
        proof {
            reveal(Seq::filter);
            assert(indices((i + 1) as nat).drop_last() =~= indices(i as nat));
            assert(indices((i + 1) as nat).last() == i);
        }
        if marked[i] {
            out.push(i);
        }
        i = i + 1;
    }
    proof {
        assert(indices(i as nat) =~= indices(nf as nat));
        assert(pred =~= (|u: usize| in_admitted_dir(
            index@.files,
            index@.dirs,
            index@.dirs.map_values(|d: Dir| allowlist.admits(d.key())),
            MatchFlags { name: match_name, created: match_created, modified: match_modified },
            u as int,
        )));
    }
    out
}

pub open spec fn checksums_of(files: Seq<File>) -> Seq<Seq<char>> {
    files.map_values(|f: File| f.checksum.sha512@)
}

fn count_checksum(s: &[File], c: &crate::model::Checksum) -> (r: usize)
    ensures
        r == checksums_of(s@).to_multiset().count(c.sha512@),
{
    let mut n: usize = 0;
    let mut i: usize = 0;
    proof {
        assert(checksums_of(s@.take(0)) =~= Seq::<Seq<char>>::empty());
        assert(checksums_of(s@.take(0)).to_multiset() =~= vstd::multiset::Multiset::<Seq<char>>::empty());
    }
    while i < s.len()
        invariant
            i <= s@.len(),
            n == checksums_of(s@.take(i as int)).to_multiset().count(c.sha512@),
            n <= i,
        decreases s@.len() - i,
    {
        proof {
            assert(s@.take(i + 1) =~= s@.take(i as int).push(s@[i as int]));
            assert(checksums_of(s@.take(i + 1)) =~= checksums_of(s@.take(i as int)).push(s@[i as int].checksum.sha512@));
        }
        if s[i].checksum.same_as(c) {
            n = n + 1;
        }
        i = i + 1;
    }
    proof {
        assert(s@.take(i as int) =~= s@);
    }
    n
}

/// Whether two lists of files hold the same checksums, each as often.
fn same_checksums(a: &[File], b: &[File]) -> (r: bool)
    ensures
        r == (checksums_of(a@).to_multiset() == checksums_of(b@).to_multiset()),
{
    let ghost ca = checksums_of(a@);
    let ghost cb = checksums_of(b@);
    if a.len() != b.len() {
        proof {
            if ca.to_multiset() == cb.to_multiset() {
                assert(ca.to_multiset().len() == cb.to_multiset().len());
            }
        }
        return false;
    }
    let mut i: usize = 0;
    while i < a.len()
        invariant
            ca == checksums_of(a@),
            cb == checksums_of(b@),
            i <= a@.len(),
            forall|k: int| 0 <= k < i ==> ca.to_multiset().count(#[trigger] ca[k]) == cb.to_multiset().count(ca[k]),
        decreases a@.len() - i,
    {
        if count_checksum(a, &a[i].checksum) != count_checksum(b, &a[i].checksum) {
            return false;
        }
        i = i + 1;
    }
    let mut j: usize = 0;
    while j < b.len()
        invariant
            ca == checksums_of(a@),
            cb == checksums_of(b@),
            j <= b@.len(),
            forall|k: int| 0 <= k < a@.len() ==> ca.to_multiset().count(#[trigger] ca[k]) == cb.to_multiset().count(ca[k]),
            forall|k: int| 0 <= k < j ==> ca.to_multiset().count(#[trigger] cb[k]) == cb.to_multiset().count(cb[k]),
        decreases b@.len() - j,
    {
        if count_checksum(a, &b[j].checksum) != count_checksum(b, &b[j].checksum) {
            return false;
        }
        j = j + 1;
    }
    proof {
        assert forall|x: Seq<char>| ca.to_multiset().count(x) == cb.to_multiset().count(x) by {
            if ca.contains(x) {
                let k = choose|k: int| 0 <= k < ca.len() && ca[k] == x;
                assert(ca.to_multiset().count(ca[k]) == cb.to_multiset().count(ca[k]));
            } else if cb.contains(x) {
                let k = choose|k: int| 0 <= k < cb.len() && cb[k] == x;
                assert(ca.to_multiset().count(cb[k]) == cb.to_multiset().count(cb[k]));
            }
        }
        assert(ca.to_multiset() =~= cb.to_multiset());
    }
    true
}

/// Directories `j` and `k` hold the same: equal stats, and their files the same
/// checksums, each as often.
pub open spec fn same_content(files: Seq<File>, dirs: Seq<Dir>, j: int, k: int) -> bool {
    stats_of(files, dirs, dirs[j].key()) == stats_of(files, dirs, dirs[k].key()) && checksums_of(
        files_in(files, dirs[j].key()),
    ).to_multiset() == checksums_of(files_in(files, dirs[k].key())).to_multiset()
}

/// The positions, in order, of the candidate directories with the content of `k`.
pub open spec fn dir_class(files: Seq<File>, dirs: Seq<Dir>, allowed: Seq<bool>, k: int) -> Seq<usize> {
    indices(dirs.len()).filter(
        |j: usize| dir_candidate(files, dirs, allowed, j as int) && same_content(files, dirs, j as int, k),
    )
}

pub open spec fn leads_dirs(files: Seq<File>, dirs: Seq<Dir>, allowed: Seq<bool>, k: int) -> bool {
    dir_candidate(files, dirs, allowed, k) && dir_class(files, dirs, allowed, k).len() >= 2 && dir_class(
        files,
        dirs,
        allowed,
        k,
    )[0] == k
}

/// The duplicate directories: for each group of two or more candidates with the
/// same content, their paths in list order; groups ordered by their first
/// directory.
pub open spec fn duplicate_dir_groups(files: Seq<File>, dirs: Seq<Dir>, allowed: Seq<bool>) -> Seq<
    Seq<Seq<char>>,
> {
    indices(dirs.len()).filter(|k: usize| leads_dirs(files, dirs, allowed, k as int)).map_values(
        |k: usize| dir_class(files, dirs, allowed, k as int).map_values(|j: usize| dirs[j as int].key()),
    )
}

/// The duplicate directories of `index`, given for each directory whether the
/// allowlist admits it. Checksums are used as they stand.
pub fn duplicate_dir_groups_of(index: &SubIndex, allowed: &Vec<bool>) -> (r: Vec<Vec<String>>)
    requires
        index.wf(),
        allowed@.len() == index@.dirs.len(),
    ensures
        crate::duplicates::group_views(r@) == duplicate_dir_groups(index@.files, index@.dirs, allowed@),
{
    let files = index.files();
    let dirs = index.dirs();
    let info = dir_info(index);
    let n = dirs.len();
    let ghost fv = files@;
    let ghost dv = dirs@;
    let mut keys: Vec<u128> = Vec::new();
    let mut keep: Vec<bool> = Vec::new();
    let mut k: usize = 0;
    while k < n
        invariant
            n == dv.len(),
            allowed@.len() == n,
            info.stats@.len() == n,
            info.ranges@.len() == n,
            forall|q: int| 0 <= q < n ==> #[trigger] dir_info_at(info.stats@, info.ranges@, fv, dv, q),
            k <= n,
            keys@.len() == k,
            keep@.len() == k,
            forall|q: int| 0 <= q < k ==> #[trigger] keys@[q] == info.stats@[q].file_size,
            forall|q: int| 0 <= q < k ==> #[trigger] keep@[q] == dir_candidate(fv, dv, allowed@, q),
        decreases n - k,
    {
        proof {
            assert(dir_info_at(info.stats@, info.ranges@, fv, dv, k as int));
        }
        keys.push(info.stats[k].file_size);
        keep.push(allowed[k] && info.stats[k].file_size > 0);
        k = k + 1;
    }
    let buckets = bucket_by_key(&keys, &keep);
    let ghost lead = |u: usize| leads_dirs(fv, dv, allowed@, u as int);
    let ghost gp = |u: usize| dir_class(fv, dv, allowed@, u as int).map_values(|j: usize| dv[j as int].key());
    let mut out: Vec<Vec<String>> = Vec::new();
    let mut k: usize = 0;
    while k < n
        invariant
            files@ == fv,
            dirs@ == dv,
            n == dv.len(),
            allowed@.len() == n,
            info.stats@.len() == n,
            info.ranges@.len() == n,
            forall|q: int| 0 <= q < n ==> #[trigger] dir_info_at(info.stats@, info.ranges@, fv, dv, q),
            keys@.len() == n,
            keep@.len() == n,
            forall|q: int| 0 <= q < n ==> #[trigger] keys@[q] == info.stats@[q].file_size,
            forall|q: int| 0 <= q < n ==> #[trigger] keep@[q] == dir_candidate(fv, dv, allowed@, q),
            forall|u: usize| #[trigger] lead(u) == leads_dirs(fv, dv, allowed@, u as int),
            forall|u: usize| #[trigger] gp(u) == dir_class(fv, dv, allowed@, u as int).map_values(|j: usize| dv[j as int].key()),
            k <= n,
            crate::duplicates::group_views(out@) == indices(k as nat).filter(lead).map_values(gp),
            forall|key: u128|
                #![trigger buckets@.contains_key(key)]
                (buckets@.contains_key(key) ==> buckets@[key]@ == key_bucket(keys@, keep@, key, n as nat))
                    && (!buckets@.contains_key(key) ==> key_bucket(keys@, keep@, key, n as nat).len() == 0),
        decreases n - k,
    {
        let ghost before = crate::duplicates::group_views(out@);
        proof {
            reveal(Seq::filter);
            assert(indices((k + 1) as nat).drop_last() =~= indices(k as nat));
            assert(indices((k + 1) as nat).last() == k);
        }
        if keep[k] {
            let ghost key = keys@[k as int];
            let ghost ii = k as int;
            let ghost kp = key_pred(keys@, keep@, key);
            let ghost ck = |j: usize| info.stats@[j as int] == info.stats@[ii] && checksums_of(files_in(fv, dv[j as int].key())).to_multiset()
                == checksums_of(files_in(fv, dv[ii].key())).to_multiset();
            let ghost cls = |j: usize| dir_candidate(fv, dv, allowed@, j as int) && same_content(fv, dv, j as int, ii);
            proof {
                assert(dir_info_at(info.stats@, info.ranges@, fv, dv, ii));
                lemma_indices_filter(n as nat, kp);
                assert forall|q: int| 0 <= q < indices(n as nat).len() implies #[trigger] cls(indices(n as nat)[q])
                    == (kp(indices(n as nat)[q]) && ck(indices(n as nat)[q])) by {
                    assert(dir_info_at(info.stats@, info.ranges@, fv, dv, q));
                }
                crate::sorted::lemma_filter_twice(indices(n as nat), kp, ck, cls);
                assert(kp(k));
            }
            let (fs, fe) = info.ranges[k];
            let mine = vstd::slice::slice_subrange(files, fs, fe);
            match buckets.get(&keys[k]) {
                Some(bucket) => {
                    let mut members: Vec<usize> = Vec::new();
                    let mut t: usize = 0;
                    while t < bucket.len()
                        invariant
                            files@ == fv,
                            n == dv.len(),
                            info.stats@.len() == n,
                            info.ranges@.len() == n,
                            forall|q: int| 0 <= q < n ==> #[trigger] dir_info_at(info.stats@, info.ranges@, fv, dv, q),
                            k < n,
                            ii == k,
                            mine@ == files_in(fv, dv[ii].key()),
                            bucket@ == indices(n as nat).filter(kp),
                            forall|q: int| 0 <= q < bucket@.len() ==> #[trigger] bucket@[q] < n,
                            forall|u: usize| #[trigger] ck(u) == (info.stats@[u as int] == info.stats@[ii] && checksums_of(files_in(fv, dv[u as int].key())).to_multiset()
                                == checksums_of(files_in(fv, dv[ii].key())).to_multiset()),
                            t <= bucket@.len(),
                            members@ == bucket@.take(t as int).filter(ck),
                        decreases bucket@.len() - t,
                    {
                        let j = bucket[t];
                        proof {
                            reveal(Seq::filter);
                            assert(bucket@.take(t + 1).drop_last() =~= bucket@.take(t as int));
                            assert(bucket@.take(t + 1).last() == j);
                            assert(dir_info_at(info.stats@, info.ranges@, fv, dv, j as int));
                        }
                        let (gs, ge) = info.ranges[j];
                        let theirs = vstd::slice::slice_subrange(files, gs, ge);
                        if info.stats[j] == info.stats[k] && same_checksums(theirs, mine) {
                            members.push(j);
                        }
                        t = t + 1;
                    }
                    proof {
                        assert(bucket@.take(t as int) =~= bucket@);
                        assert(members@ == dir_class(fv, dv, allowed@, ii)) by {
                            assert(cls =~= (|j: usize| dir_candidate(fv, dv, allowed@, j as int) && same_content(fv, dv, j as int, ii)));
                        }
                        lemma_indices_filter(n as nat, cls);
                    }
                    if members.len() >= 2 && members[0] == k {
                        let mut group: Vec<String> = Vec::new();
                        let mut q: usize = 0;
                        while q < members.len()
                            invariant
                                n == dv.len(),
                                dirs@ == dv,
                                forall|x: int| 0 <= x < members@.len() ==> #[trigger] members@[x] < n,
                                q <= members@.len(),
                                group@.map_values(|s: String| s@) == members@.take(q as int).map_values(|j: usize| dv[j as int].key()),
                            decreases members@.len() - q,
                        {
                            let p = dirs[members[q]].meta.path.clone();
                            let ghost g0 = group@;
                            group.push(p);
                            proof {
                                assert(group@ == g0.push(p));
                                assert(group@.map_values(|s: String| s@) =~= g0.map_values(|s: String| s@).push(p@));
                                assert(members@.take(q + 1) =~= members@.take(q as int).push(members@[q as int]));
                                assert(group@.map_values(|s: String| s@) =~= members@.take(q + 1).map_values(|j: usize| dv[j as int].key()));
                            }
                            q = q + 1;
                        }
                        proof {
                            assert(members@.take(q as int) =~= members@);
                            assert(lead(k));
                        }
                        out.push(group);
                        proof {
                            assert(crate::duplicates::group_views(out@) =~= before.push(gp(k)));
                        }
                    } else {
                        proof {
                            assert(!lead(k));
                        }
                    }
                },
                None => {
                    proof {
                        assert(indices(n as nat).filter(kp).contains(k));
                    }
                },
            }
        } else {
            proof {
                assert(!lead(k));
            }
        }
        k = k + 1;
    }
    proof {
        assert(indices(k as nat) =~= indices(n as nat));
    }
    out
}

/// Over directories sorted by path, each group of duplicate directories lists
/// its paths in increasing order, and the groups come in increasing order of
/// their first path.
pub proof fn lemma_duplicate_dir_groups_sorted(files: Seq<File>, dirs: Seq<Dir>, allowed: Seq<bool>)
    requires
        dirs.len() <= usize::MAX,
        crate::sorted::strictly_sorted(dirs),
    ensures
        forall|g: int, a: int, b: int|
            0 <= g < duplicate_dir_groups(files, dirs, allowed).len() && 0 <= a < b
                < duplicate_dir_groups(files, dirs, allowed)[g].len() ==> crate::path::path_lt(
                #[trigger] duplicate_dir_groups(files, dirs, allowed)[g][a],
                #[trigger] duplicate_dir_groups(files, dirs, allowed)[g][b],
            ),
        forall|g: int, h: int|
            0 <= g < h < duplicate_dir_groups(files, dirs, allowed).len() ==> crate::path::path_lt(
                #[trigger] duplicate_dir_groups(files, dirs, allowed)[g][0],
                #[trigger] duplicate_dir_groups(files, dirs, allowed)[h][0],
            ),
{
    let n = dirs.len();
    let lead = |k: usize| leads_dirs(files, dirs, allowed, k as int);
    let leaders = indices(n).filter(lead);
    lemma_indices_filter(n, lead);
    lemma_indices_filter_increasing(n, lead);
    let groups = duplicate_dir_groups(files, dirs, allowed);
    assert forall|g: int, a: int, b: int|
        0 <= g < groups.len() && 0 <= a < b < groups[g].len() implies crate::path::path_lt(
        #[trigger] groups[g][a],
        #[trigger] groups[g][b],
    ) by {
        let k = leaders[g] as int;
        let cls = |j: usize| dir_candidate(files, dirs, allowed, j as int) && same_content(files, dirs, j as int, k);
        lemma_indices_filter(n, cls);
        lemma_indices_filter_increasing(n, cls);
        let c = dir_class(files, dirs, allowed, k);
        assert(groups[g] == c.map_values(|j: usize| dirs[j as int].key()));
        assert(groups[g][a] == dirs[c[a] as int].key());
        assert(groups[g][b] == dirs[c[b] as int].key());
    }
    assert forall|g: int, h: int| 0 <= g < h < groups.len() implies crate::path::path_lt(
        #[trigger] groups[g][0],
        #[trigger] groups[h][0],
    ) by {
        let i = leaders[g] as int;
        let k = leaders[h] as int;
        assert(lead(leaders[g]) && lead(leaders[h]));
        assert(groups[g][0] == dirs[i].key());
        assert(groups[h][0] == dirs[k].key());
        assert(i < k);
    }
}

/// The duplicate directories of `index` under an allowlist: see
/// `duplicate_dir_groups`.
pub fn duplicate_dirs(index: &SubIndex, allowlist: &Allowlist) -> (r: Vec<Vec<String>>)
    requires
        index.wf(),
    ensures
        crate::duplicates::group_views(r@) == duplicate_dir_groups(
            index@.files,
            index@.dirs,
            index@.dirs.map_values(|d: Dir| allowlist.admits(d.key())),
        ),
        forall|g: int, a: int, b: int|
            0 <= g < crate::duplicates::group_views(r@).len() && 0 <= a < b
                < crate::duplicates::group_views(r@)[g].len() ==> crate::path::path_lt(
                #[trigger] crate::duplicates::group_views(r@)[g][a],
                #[trigger] crate::duplicates::group_views(r@)[g][b],
            ),
        forall|g: int, h: int|
            0 <= g < h < crate::duplicates::group_views(r@).len() ==> crate::path::path_lt(
                #[trigger] crate::duplicates::group_views(r@)[g][0],
                #[trigger] crate::duplicates::group_views(r@)[h][0],
            ),
{
    let allowed = allowed_dirs(index.dirs(), allowlist);
    let r = duplicate_dir_groups_of(index, &allowed);
    let n = index.dirs().len();
    proof {
        assert(n == index@.dirs.len());
        lemma_duplicate_dir_groups_sorted(index@.files, index@.dirs, allowed@);
    }
    r
}

} // verus!
