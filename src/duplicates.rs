//! Duplicate files: a cheap first stage that keeps only files that could have a
//! duplicate (same size, and the same attributes the flags ask for), and a
//! second that groups files with equal checksums and sizes.
use crate::allowlist::Allowlist;
use crate::diff::{only_checksums_filled, same_key, MatchFlags};
use crate::index::RootIndex;
use crate::model::{File, FileReader, IndexError};
use crate::path::{chars_of, compare_chars, name_of, name_str};
use crate::sorted::Entry;
use std::collections::HashMap;
use std::cmp::Ordering;
use vstd::prelude::*;

verus! {

broadcast use vstd::std_specs::hash::group_hash_axioms;

/// The positions `0, 1, ..., n - 1`.
pub open spec fn indices(n: nat) -> Seq<usize> {
    Seq::new(n, |j: int| j as usize)
}

pub proof fn lemma_indices_filter(n: nat, p: spec_fn(usize) -> bool)
    ensures
        forall|u: usize| u < n ==> (#[trigger] indices(n).filter(p).contains(u) <==> p(u)),
        forall|k: int|
            0 <= k < indices(n).filter(p).len() ==> #[trigger] indices(n).filter(p)[k] < n && p(
                indices(n).filter(p)[k],
            ),
    decreases n,
{
    reveal(Seq::filter);
    if n > 0 {
        lemma_indices_filter((n - 1) as nat, p);
        assert(indices(n).drop_last() =~= indices((n - 1) as nat));
        let prev = indices((n - 1) as nat).filter(p);
        assert forall|j: usize| j < n implies (#[trigger] indices(n).filter(p).contains(j) <==> p(j)) by {
            if j < n - 1 {
                assert(prev.contains(j) <==> p(j));
                if p((n - 1) as usize) {
                    if indices(n).filter(p).contains(j) {
                        let k = choose|k: int| 0 <= k < indices(n).filter(p).len() && indices(n).filter(p)[k] == j;
                        if k < prev.len() {
                            assert(prev[k] == j);
                        }
                    }
                    if p(j) {
                        let k = choose|k: int| 0 <= k < prev.len() && prev[k] == j;
                        assert(indices(n).filter(p)[k] == j);
                    }
                }
            } else {
                if p(j) {
                    assert(indices(n).filter(p).last() == j);
                } else {
                    assert(indices(n).filter(p) == prev);
                    if prev.contains(j) {
                        let k = choose|k: int| 0 <= k < prev.len() && prev[k] == j;
                    }
                }
            }
        }
    }
}

/// The positions of the files that `keep` selects and have size `size`, in order.
pub open spec fn size_bucket(files: Seq<File>, keep: Seq<bool>, size: u64, n: nat) -> Seq<usize> {
    indices(n).filter(|j: usize| keep[j as int] && files[j as int].size == size)
}

/// The positions that a filter keeps come in increasing order.
pub proof fn lemma_indices_filter_increasing(n: nat, p: spec_fn(usize) -> bool)
    requires
        n <= usize::MAX,
    ensures
        forall|a: int, b: int|
            0 <= a < b < indices(n).filter(p).len() ==> #[trigger] indices(n).filter(p)[a]
                < #[trigger] indices(n).filter(p)[b],
    decreases n,
{
    reveal(Seq::filter);
    if n > 0 {
        lemma_indices_filter_increasing((n - 1) as nat, p);
        lemma_indices_filter((n - 1) as nat, p);
        assert(indices(n).drop_last() =~= indices((n - 1) as nat));
        let prev = indices((n - 1) as nat).filter(p);
        let cur = indices(n).filter(p);
        if p((n - 1) as usize) {
            assert(cur == prev.push((n - 1) as usize));
        } else {
            assert(cur == prev);
        }
        assert forall|a: int, b: int| 0 <= a < b < cur.len() implies #[trigger] cur[a] < #[trigger] cur[b] by {
            if b < prev.len() {
                assert(cur[a] == prev[a] && cur[b] == prev[b]);
            } else {
                assert(cur[a] == prev[a]);
                assert(prev[a] < n - 1);
                assert(cur[b] == indices(n).last());
            }
        }
    }
}

/// Groups the positions of the selected files by size.
fn bucket_by_size(files: &[File], keep: &Vec<bool>) -> (m: HashMap<u64, Vec<usize>>)
    requires
        keep@.len() == files@.len(),
    ensures
        forall|sz: u64|
            #![trigger m@.contains_key(sz)]
            (m@.contains_key(sz) ==> m@[sz]@ == size_bucket(files@, keep@, sz, files@.len()))
                && (!m@.contains_key(sz) ==> size_bucket(files@, keep@, sz, files@.len()).len()
                == 0),
{
    let mut m: HashMap<u64, Vec<usize>> = HashMap::new();
    let mut i: usize = 0;
    while i < files.len()
        invariant
            keep@.len() == files@.len(),
            i <= files@.len(),
            forall|sz: u64|
                #![trigger m@.contains_key(sz)]
                (m@.contains_key(sz) ==> m@[sz]@ == size_bucket(files@, keep@, sz, i as nat)) && (
                !m@.contains_key(sz) ==> size_bucket(files@, keep@, sz, i as nat).len() == 0),
        decreases files@.len() - i,
    {
        let ghost m0 = m@;
        proof {
            reveal(Seq::filter);
            assert forall|sz: u64| true implies size_bucket(files@, keep@, sz, (i + 1) as nat) == if keep@[i as int]
                && files@[i as int].size == sz {
                size_bucket(files@, keep@, sz, i as nat).push(i)
            } else {
                size_bucket(files@, keep@, sz, i as nat)
            } by {
                assert(indices((i + 1) as nat).drop_last() =~= indices(i as nat));
            }
        }
        if keep[i] {
            let size = files[i].size;
            let mut bucket = match m.remove(&size) {
                Some(b) => b,
                None => Vec::new(),
            };
            bucket.push(i);
            m.insert(size, bucket);
            proof {
                assert forall|sz: u64| #![trigger m@.contains_key(sz)] (m@.contains_key(sz) ==> m@[sz]@ == size_bucket(files@, keep@, sz, (i + 1) as nat))
                    && (!m@.contains_key(sz) ==> size_bucket(files@, keep@, sz, (i + 1) as nat).len() == 0) by {
                    if sz != size {
                        assert(m@.contains_key(sz) == m0.contains_key(sz));
                        if m0.contains_key(sz) {
                            assert(m@[sz] == m0[sz]);
                        }
                    } else {
                        if !m0.contains_key(sz) {
                            assert(size_bucket(files@, keep@, sz, i as nat) =~= Seq::<usize>::empty());
                        }
                    }
                }
            }
        }
        i = i + 1;
    }
    m
}

/// Another selected file of the same size.
pub open spec fn partner(files: Seq<File>, allowed: Seq<bool>, i: int, j: int) -> bool {
    0 <= j < files.len() && j != i && allowed[j] && files[j].size == files[i].size
}

/// A file is kept for hashing when it is allowed and, for every attribute the
/// flags name, another allowed file of its size has the same value; with no
/// flag, another allowed file of its size is enough.
pub open spec fn file_admitted(files: Seq<File>, allowed: Seq<bool>, flags: MatchFlags, i: int) -> bool {
    &&& allowed[i]
    &&& exists|j: int| partner(files, allowed, i, j)
    &&& flags.name ==> exists|j: int|
        partner(files, allowed, i, j) && name_of(files[j].key()) == name_of(files[i].key())
    &&& flags.created ==> exists|j: int|
        partner(files, allowed, i, j) && files[j].meta.created_time == files[i].meta.created_time
    &&& flags.modified ==> exists|j: int|
        partner(files, allowed, i, j) && files[j].meta.modified_time
            == files[i].meta.modified_time
}

fn same_name(a: &File, b: &File) -> (r: bool)
    ensures
        r == (name_of(a.key()) == name_of(b.key())),
{
    let x = chars_of(name_str(a.path()));
    let y = chars_of(name_str(b.path()));
    match compare_chars(&x, &y) {
        Ordering::Equal => true,
        _ => false,
    }
}

/// The positions, in order, of the files kept by the first stage, given for
/// each file whether the allowlist admits it.
pub fn admitted_files(files: &[File], allowed: &Vec<bool>, flags: MatchFlags) -> (r: Vec<usize>)
    requires
        allowed@.len() == files@.len(),
    ensures
        r@ == indices(files@.len()).filter(|i: usize| file_admitted(files@, allowed@, flags, i as int)),
{
    let buckets = bucket_by_size(files, allowed);
    let ghost adm = |i: usize| file_admitted(files@, allowed@, flags, i as int);
    let mut out: Vec<usize> = Vec::new();
    let mut i: usize = 0;
    while i < files.len()
        invariant
            allowed@.len() == files@.len(),
            i <= files@.len(),
            out@ == indices(i as nat).filter(adm),
            forall|u: usize| #[trigger] adm(u) == file_admitted(files@, allowed@, flags, u as int),
            forall|sz: u64|
                #![trigger buckets@.contains_key(sz)]
                (buckets@.contains_key(sz) ==> buckets@[sz]@ == size_bucket(files@, allowed@, sz, files@.len()))
                    && (!buckets@.contains_key(sz) ==> size_bucket(files@, allowed@, sz, files@.len()).len() == 0),
        decreases files@.len() - i,
    {
        proof {
            reveal(Seq::filter);
            assert(indices((i + 1) as nat).drop_last() =~= indices(i as nat));
        }
        let mut keep = false;
        if allowed[i] {
            let f = &files[i];
            let ghost sz = f.size;
            let ghost kp = |j: usize| allowed@[j as int] && files@[j as int].size == sz;
            proof {
                lemma_indices_filter(files@.len(), kp);
            }
            match buckets.get(&f.size) {
                Some(bucket) => {
                    let mut any = false;
                    let mut name = false;
                    let mut created = false;
                    let mut modified = false;
                    let mut k: usize = 0;
                    while k < bucket.len()
                        invariant
                            allowed@.len() == files@.len(),
                            i < files@.len(),
                            forall|u: usize| #[trigger] adm(u) == file_admitted(files@, allowed@, flags, u as int),
                            *f == files@[i as int],
                            bucket@ == size_bucket(files@, allowed@, sz, files@.len()),
                            sz == f.size,
                            k <= bucket@.len(),
                            forall|q: int| 0 <= q < bucket@.len() ==> #[trigger] bucket@[q] < files@.len() && kp(bucket@[q]),
                            any == exists|q: int| 0 <= q < k && #[trigger] bucket@[q] != i,
                            name == exists|q: int| 0 <= q < k && #[trigger] bucket@[q] != i
                                && name_of(files@[bucket@[q] as int].key()) == name_of(f.key()),
                            created == exists|q: int| 0 <= q < k && #[trigger] bucket@[q] != i
                                && files@[bucket@[q] as int].meta.created_time == f.meta.created_time,
                            modified == exists|q: int| 0 <= q < k && #[trigger] bucket@[q] != i
                                && files@[bucket@[q] as int].meta.modified_time == f.meta.modified_time,
                        decreases bucket@.len() - k,
                    {
                        let j = bucket[k];
                        if j != i {
                            let g = &files[j];
                            any = true;
                            if same_name(g, f) {
                                name = true;
                            }
                            if g.meta.created_time == f.meta.created_time {
                                created = true;
                            }
                            if g.meta.modified_time == f.meta.modified_time {
                                modified = true;
                            }
                        }
                        k = k + 1;
                    }
                    keep = any && (!flags.name || name) && (!flags.created || created) && (
                    !flags.modified || modified);
                    proof {
                        let n = files@.len();
                        let ii = i as int;
                        // A partner is exactly another member of the bucket.
                        assert forall|j: int| partner(files@, allowed@, ii, j) implies exists|q: int|
                            0 <= q < bucket@.len() && #[trigger] bucket@[q] == j as usize && bucket@[q] != i by {
                            assert(kp(j as usize));
                            assert(indices(n).filter(kp).contains(j as usize));
                        }
                        assert forall|q: int| 0 <= q < bucket@.len() && #[trigger] bucket@[q] != i implies partner(
                            files@,
                            allowed@,
                            ii,
                            bucket@[q] as int,
                        ) by {}
                        assert(any == exists|j: int| partner(files@, allowed@, ii, j)) by {
                            if any {
                                let q = choose|q: int| 0 <= q < k && #[trigger] bucket@[q] != i;
                                assert(partner(files@, allowed@, ii, bucket@[q] as int));
                            }
                            if exists|j: int| partner(files@, allowed@, ii, j) {
                                let j = choose|j: int| partner(files@, allowed@, ii, j);
                                let q = choose|q: int| 0 <= q < bucket@.len() && #[trigger] bucket@[q] == j as usize && bucket@[q] != i;
                                assert(bucket@[q] != i);
                            }
                        }
                        assert(name == exists|j: int| partner(files@, allowed@, ii, j) && name_of(files@[j].key()) == name_of(files@[ii].key())) by {
                            if name {
                                let q = choose|q: int| 0 <= q < k && #[trigger] bucket@[q] != i
                                    && name_of(files@[bucket@[q] as int].key()) == name_of(f.key());
                                assert(partner(files@, allowed@, ii, bucket@[q] as int));
                            }
                            if exists|j: int| partner(files@, allowed@, ii, j) && name_of(files@[j].key()) == name_of(files@[ii].key()) {
                                let j = choose|j: int| partner(files@, allowed@, ii, j) && name_of(files@[j].key()) == name_of(files@[ii].key());
                                let q = choose|q: int| 0 <= q < bucket@.len() && #[trigger] bucket@[q] == j as usize && bucket@[q] != i;
                                assert(bucket@[q] != i);
                            }
                        }
                        assert(created == exists|j: int| partner(files@, allowed@, ii, j) && files@[j].meta.created_time == files@[ii].meta.created_time) by {
                            if created {
                                let q = choose|q: int| 0 <= q < k && #[trigger] bucket@[q] != i
                                    && files@[bucket@[q] as int].meta.created_time == f.meta.created_time;
                                assert(partner(files@, allowed@, ii, bucket@[q] as int));
                            }
                            if exists|j: int| partner(files@, allowed@, ii, j) && files@[j].meta.created_time == files@[ii].meta.created_time {
                                let j = choose|j: int| partner(files@, allowed@, ii, j) && files@[j].meta.created_time == files@[ii].meta.created_time;
                                let q = choose|q: int| 0 <= q < bucket@.len() && #[trigger] bucket@[q] == j as usize && bucket@[q] != i;
                                assert(bucket@[q] != i);
                            }
                        }
                        assert(modified == exists|j: int| partner(files@, allowed@, ii, j) && files@[j].meta.modified_time == files@[ii].meta.modified_time) by {
                            if modified {
                                let q = choose|q: int| 0 <= q < k && #[trigger] bucket@[q] != i
                                    && files@[bucket@[q] as int].meta.modified_time == f.meta.modified_time;
                                assert(partner(files@, allowed@, ii, bucket@[q] as int));
                            }
                            if exists|j: int| partner(files@, allowed@, ii, j) && files@[j].meta.modified_time == files@[ii].meta.modified_time {
                                let j = choose|j: int| partner(files@, allowed@, ii, j) && files@[j].meta.modified_time == files@[ii].meta.modified_time;
                                let q = choose|q: int| 0 <= q < bucket@.len() && #[trigger] bucket@[q] == j as usize && bucket@[q] != i;
                                assert(bucket@[q] != i);
                            }
                        }
                        assert(adm(i) == file_admitted(files@, allowed@, flags, ii));
                        assert(keep == adm(i));
                    }
                },
                None => {
                    proof {
                        assert(kp(i));
                        assert(indices(files@.len()).filter(kp).contains(i));
                    }
                },
            }
        }
        proof {
            assert(indices((i + 1) as nat).last() == i);
            assert(adm(i) == file_admitted(files@, allowed@, flags, i as int));
        }
        if keep {
            out.push(i);
        }
        i = i + 1;
    }
    proof {
        assert(indices(i as nat) =~= indices(files@.len()));
    }
    out
}

/// The first stage: the positions, in order, of the files that could have a
/// duplicate.
pub fn potential_file_matches(
    files: &[File],
    allowlist: &Allowlist,
    match_name: bool,
    match_created: bool,
    match_modified: bool,
) -> (r: Vec<usize>)
    ensures
        r@ == indices(files@.len()).filter(
            |i: usize|
                file_admitted(
                    files@,
                    files@.map_values(|f: File| allowlist.admits(f.key())),
                    MatchFlags { name: match_name, created: match_created, modified: match_modified },
                    i as int,
                ),
        ),
{
    let allowed = allowed_files(files, allowlist);
    admitted_files(
        files,
        &allowed,
        MatchFlags { name: match_name, created: match_created, modified: match_modified },
    )
}

/// For each file, whether the allowlist admits its path.
pub fn allowed_files(files: &[File], allowlist: &Allowlist) -> (r: Vec<bool>)
    ensures
        r@ == files@.map_values(|f: File| allowlist.admits(f.key())),
{
    let mut out: Vec<bool> = Vec::new();
    let mut i: usize = 0;
    while i < files.len()
        invariant
            i <= files@.len(),
            out@ == files@.take(i as int).map_values(|f: File| allowlist.admits(f.key())),
        decreases files@.len() - i,
    {
        let a = allowlist.is_allowed(files[i].path());
        out.push(a);
        proof {
            assert(files@.take(i + 1) =~= files@.take(i as int).push(files@[i as int]));
            assert(out@ =~= files@.take(i + 1).map_values(|f: File| allowlist.admits(f.key())));
        }
        i = i + 1;
    }
    proof {
        assert(files@.take(i as int) =~= files@);
    }
    out
}

/// A file that takes part in grouping: allowed, with a checksum.
pub open spec fn hashed(files: Seq<File>, allowed: Seq<bool>, j: int) -> bool {
    allowed[j] && files[j].checksum.sha512@.len() > 0
}

/// The positions, in order, of the files grouped with file `i`: those taking
/// part with its checksum and size.
pub open spec fn class_of(files: Seq<File>, allowed: Seq<bool>, i: int) -> Seq<usize> {
    indices(files.len()).filter(
        |j: usize| hashed(files, allowed, j as int) && same_key(files[j as int], files[i]),
    )
}

/// File `i` is the first of a group of two or more.
pub open spec fn leads(files: Seq<File>, allowed: Seq<bool>, i: int) -> bool {
    hashed(files, allowed, i) && class_of(files, allowed, i).len() >= 2 && class_of(
        files,
        allowed,
        i,
    )[0] == i
}

pub open spec fn group_paths(files: Seq<File>, c: Seq<usize>) -> Seq<Seq<char>> {
    c.map_values(|j: usize| files[j as int].key())
}

/// The duplicate groups: for each group of two or more files with equal
/// checksums and sizes, the paths of its files in list order; groups ordered by
/// their first file.
pub open spec fn duplicate_groups(files: Seq<File>, allowed: Seq<bool>) -> Seq<Seq<Seq<char>>> {
    indices(files.len()).filter(|i: usize| leads(files, allowed, i as int)).map_values(
        |i: usize| group_paths(files, class_of(files, allowed, i as int)),
    )
}

pub open spec fn group_views(g: Seq<Vec<String>>) -> Seq<Seq<Seq<char>>> {
    g.map_values(|v: Vec<String>| v@.map_values(|s: String| s@))
}

/// The duplicate groups of `files`, given for each file whether the allowlist
/// admits it. Checksums are used as they stand; a file without one takes no part.
pub fn duplicate_groups_of(files: &[File], allowed: &Vec<bool>) -> (r: Vec<Vec<String>>)
    requires
        allowed@.len() == files@.len(),
    ensures
        group_views(r@) == duplicate_groups(files@, allowed@),
{
    let n = files.len();
    let mut keep: Vec<bool> = Vec::new();
    let mut i: usize = 0;
    while i < n
        invariant
            n == files@.len(),
            allowed@.len() == files@.len(),
            i <= n,
            keep@.len() == i,
            forall|j: int| 0 <= j < i ==> keep@[j] == hashed(files@, allowed@, j),
        decreases n - i,
    {
        keep.push(allowed[i] && !files[i].checksum.is_empty());
        i = i + 1;
    }
    let buckets = bucket_by_size(files, &keep);
    let ghost lead = |u: usize| leads(files@, allowed@, u as int);
    let ghost gp = |u: usize| group_paths(files@, class_of(files@, allowed@, u as int));
    let mut out: Vec<Vec<String>> = Vec::new();
    let mut i: usize = 0;
    while i < n
        invariant
            n == files@.len(),
            allowed@.len() == files@.len(),
            keep@.len() == n,
            forall|j: int| 0 <= j < n ==> keep@[j] == hashed(files@, allowed@, j),
            i <= n,
            forall|u: usize| #[trigger] lead(u) == leads(files@, allowed@, u as int),
            forall|u: usize| #[trigger] gp(u) == group_paths(files@, class_of(files@, allowed@, u as int)),
            group_views(out@) == indices(i as nat).filter(lead).map_values(gp),
            forall|sz: u64|
                #![trigger buckets@.contains_key(sz)]
                (buckets@.contains_key(sz) ==> buckets@[sz]@ == size_bucket(files@, keep@, sz, n as nat))
                    && (!buckets@.contains_key(sz) ==> size_bucket(files@, keep@, sz, n as nat).len() == 0),
        decreases n - i,
    {
        let ghost before = group_views(out@);
        proof {
            reveal(Seq::filter);
            assert(indices((i + 1) as nat).drop_last() =~= indices(i as nat));
            assert(indices((i + 1) as nat).last() == i);
        }
        if keep[i] {
            let f = &files[i];
            let ghost sz = f.size;
            let ghost kp = |j: usize| keep@[j as int] && files@[j as int].size == sz;
            let ghost ck = |j: usize| files@[j as int].checksum.sha512@ == f.checksum.sha512@;
            let ghost cls = |j: usize| hashed(files@, allowed@, j as int) && same_key(files@[j as int], files@[i as int]);
            proof {
                lemma_indices_filter(n as nat, kp);
                lemma_indices_filter(n as nat, cls);
                crate::sorted::lemma_filter_twice(indices(n as nat), kp, ck, cls);
                assert(kp(i));
            }
            match buckets.get(&f.size) {
                Some(bucket) => {
                    let mut members: Vec<usize> = Vec::new();
                    let mut k: usize = 0;
                    while k < bucket.len()
                        invariant
                            n == files@.len(),
                            i < n,
                            *f == files@[i as int],
                            bucket@ == indices(n as nat).filter(kp),
                            forall|q: int| 0 <= q < bucket@.len() ==> #[trigger] bucket@[q] < n,
                            forall|u: usize| #[trigger] ck(u) == (files@[u as int].checksum.sha512@ == f.checksum.sha512@),
                            k <= bucket@.len(),
                            members@ == bucket@.take(k as int).filter(ck),
                        decreases bucket@.len() - k,
                    {
                        let j = bucket[k];
                        proof {
                            reveal(Seq::filter);
                            assert(bucket@.take(k + 1).drop_last() =~= bucket@.take(k as int));
                            assert(bucket@.take(k + 1).last() == j);
                        }
                        if files[j].checksum.same_as(&f.checksum) {
                            members.push(j);
                        }
                        k = k + 1;
                    }
                    proof {
                        assert(bucket@.take(k as int) =~= bucket@);
                        assert(members@ == class_of(files@, allowed@, i as int)) by {
                            assert(cls =~= (|j: usize| hashed(files@, allowed@, j as int) && same_key(files@[j as int], files@[i as int])));
                        }
                    }
                    if members.len() >= 2 && members[0] == i {
                        let mut group: Vec<String> = Vec::new();
                        let mut q: usize = 0;
                        while q < members.len()
                            invariant
                                n == files@.len(),
                                forall|t: int| 0 <= t < members@.len() ==> #[trigger] members@[t] < n,
                                q <= members@.len(),
                                group@.map_values(|s: String| s@) == members@.take(q as int).map_values(|j: usize| files@[j as int].key()),
                            decreases members@.len() - q,
                        {
                            let p = files[members[q]].meta.path.clone();
                            let ghost g0 = group@;
                            group.push(p);
                            proof {
                                assert(group@ == g0.push(p));
                                assert(group@.map_values(|s: String| s@) =~= g0.map_values(|s: String| s@).push(p@));
                                assert(members@.take(q + 1) =~= members@.take(q as int).push(members@[q as int]));
                                assert(group@.map_values(|s: String| s@) =~= members@.take(q + 1).map_values(|j: usize| files@[j as int].key()));
                            }
                            q = q + 1;
                        }
                        proof {
                            assert(members@.take(q as int) =~= members@);
                            assert(lead(i));
                        }
                        out.push(group);
                        proof {
                            assert(group_views(out@) =~= before.push(gp(i)));
                        }
                    } else {
                        proof {
                            assert(!lead(i));
                        }
                    }
                },
                None => {
                    proof {
                        assert(indices(n as nat).filter(kp).contains(i));
                    }
                },
            }
        } else {
            proof {
                assert(!lead(i));
            }
        }
        i = i + 1;
    }
    proof {
        assert(indices(i as nat) =~= indices(n as nat));
    }
    out
}

/// Groups whose paths do not decrease, and whose first paths do not decrease
/// from one group to the next.
pub open spec fn groups_ordered(g: Seq<Seq<Seq<char>>>) -> bool {
    &&& forall|x: int| 0 <= x < g.len() ==> #[trigger] g[x].len() > 0
    &&& forall|x: int, a: int, b: int|
        0 <= x < g.len() && 0 <= a < b < g[x].len() ==> crate::sorted::key_le(
            #[trigger] g[x][a],
            #[trigger] g[x][b],
        )
    &&& forall|x: int, y: int|
        0 <= x < y < g.len() ==> crate::sorted::key_le(#[trigger] g[x][0], #[trigger] g[y][0])
}

/// `fs` holds the entries of `files`, sorted by path.
pub open spec fn sorted_copy(fs: Seq<File>, files: Seq<File>) -> bool {
    crate::sorted::sorted(fs) && fs.to_multiset() == files.to_multiset()
}

/// Over a list sorted by path, the duplicate groups come ordered.
pub proof fn lemma_duplicate_groups_ordered(files: Seq<File>, allowed: Seq<bool>)
    requires
        files.len() <= usize::MAX,
        crate::sorted::sorted(files),
    ensures
        groups_ordered(duplicate_groups(files, allowed)),
{
    let n = files.len();
    let lead = |i: usize| leads(files, allowed, i as int);
    let leaders = indices(n).filter(lead);
    lemma_indices_filter(n, lead);
    lemma_indices_filter_increasing(n, lead);
    let groups = duplicate_groups(files, allowed);
    assert forall|g: int| 0 <= g < groups.len() implies #[trigger] groups[g].len() > 0 by {
        assert(lead(leaders[g]));
    }
    assert forall|g: int, a: int, b: int|
        0 <= g < groups.len() && 0 <= a < b < groups[g].len() implies crate::sorted::key_le(
        #[trigger] groups[g][a],
        #[trigger] groups[g][b],
    ) by {
        let i = leaders[g] as int;
        let cls = |j: usize| hashed(files, allowed, j as int) && same_key(files[j as int], files[i]);
        lemma_indices_filter(n, cls);
        lemma_indices_filter_increasing(n, cls);
        let c = class_of(files, allowed, i);
        assert(groups[g] == group_paths(files, c));
        assert(groups[g][a] == files[c[a] as int].key());
        assert(groups[g][b] == files[c[b] as int].key());
    }
    assert forall|g: int, h: int| 0 <= g < h < groups.len() implies crate::sorted::key_le(
        #[trigger] groups[g][0],
        #[trigger] groups[h][0],
    ) by {
        let i = leaders[g] as int;
        let k = leaders[h] as int;
        assert(lead(leaders[g]) && lead(leaders[h]));
        assert(class_of(files, allowed, i)[0] == i);
        assert(class_of(files, allowed, k)[0] == k);
        assert(groups[g][0] == files[i].key());
        assert(groups[h][0] == files[k].key());
        assert(i < k);
    }
}

/// The duplicate groups of `files`, in any order, under an allowlist: the
/// files are first sorted by path, so each group lists its paths in order and
/// the groups come in order of their first path (see `duplicate_groups`).
pub fn duplicates(files: &[File], allowlist: &Allowlist) -> (r: Vec<Vec<String>>)
    ensures
        exists|fs: Seq<File>|
            #[trigger] sorted_copy(fs, files@) && group_views(r@) == duplicate_groups(
                fs,
                fs.map_values(|f: File| allowlist.admits(f.key())),
            ),
        groups_ordered(group_views(r@)),
{
    let mut copy: Vec<File> = Vec::new();
    let mut i: usize = 0;
    while i < files.len()
        invariant
            i <= files@.len(),
            copy@ == files@.take(i as int),
        decreases files@.len() - i,
    {
        copy.push(files[i].copy());
        proof {
            assert(files@.take(i + 1) =~= files@.take(i as int).push(files@[i as int]));
        }
        i = i + 1;
    }
    proof {
        assert(files@.take(i as int) =~= files@);
    }
    let sorted_files = crate::sorted::sort_by_path(copy);
    let allowed = allowed_files(sorted_files.as_slice(), allowlist);
    let r = duplicate_groups_of(sorted_files.as_slice(), &allowed);
    let n = sorted_files.len();
    proof {
        assert(n == sorted_files@.len());
        assert(sorted_copy(sorted_files@, files@));
        lemma_duplicate_groups_ordered(sorted_files@, allowed@);
    }
    r
}

/// When no two files have the same size, neither stage finds anything,
/// whatever the flags and the allowlist: no file is kept for hashing, and there
/// is no group of duplicates.
pub proof fn lemma_unique_sizes_no_duplicates(files: Seq<File>, allowed: Seq<bool>, flags: MatchFlags)
    requires
        files.len() <= usize::MAX,
        allowed.len() == files.len(),
        forall|i: int, j: int|
            0 <= i < files.len() && 0 <= j < files.len() && i != j ==> #[trigger] files[i].size
                != #[trigger] files[j].size,
    ensures
        indices(files.len()).filter(|i: usize| file_admitted(files, allowed, flags, i as int)).len()
            == 0,
        duplicate_groups(files, allowed).len() == 0,
{
    let n = files.len();
    let adm = |i: usize| file_admitted(files, allowed, flags, i as int);
    assert forall|k: int| 0 <= k < indices(n).len() implies !adm(#[trigger] indices(n)[k]) by {
        if adm(indices(n)[k]) {
            let j = choose|j: int| partner(files, allowed, k, j);
        }
    }
    crate::sorted::lemma_filter_none(indices(n), adm);
    let lead = |i: usize| leads(files, allowed, i as int);
    assert forall|k: int| 0 <= k < indices(n).len() implies !lead(#[trigger] indices(n)[k]) by {
        assert(indices(n)[k] as int == k);
        let c = class_of(files, allowed, k);
        let cls = |j: usize| hashed(files, allowed, j as int) && same_key(files[j as int], files[k]);
        lemma_indices_filter(n, cls);
        lemma_indices_filter_increasing(n, cls);
        if c.len() >= 2 {
            assert(c[0] < c[1]);
            assert(cls(c[0]) && cls(c[1]));
            assert(c[0] as int == k || files[c[0] as int].size != files[k].size);
            assert(c[1] as int == k || files[c[1] as int].size != files[k].size);
        }
    }
    crate::sorted::lemma_filter_none(indices(n), lead);
}

/// Over a list sorted by path, each group of duplicates lists its paths in
/// increasing order, and the groups come in increasing order of their first path.
pub proof fn lemma_duplicate_groups_sorted(files: Seq<File>, allowed: Seq<bool>)
    requires
        files.len() <= usize::MAX,
        crate::sorted::strictly_sorted(files),
    ensures
        forall|g: int, a: int, b: int|
            0 <= g < duplicate_groups(files, allowed).len() && 0 <= a < b < duplicate_groups(
                files,
                allowed,
            )[g].len() ==> crate::path::path_lt(
                #[trigger] duplicate_groups(files, allowed)[g][a],
                #[trigger] duplicate_groups(files, allowed)[g][b],
            ),
        forall|g: int, h: int|
            0 <= g < h < duplicate_groups(files, allowed).len() ==> crate::path::path_lt(
                #[trigger] duplicate_groups(files, allowed)[g][0],
                #[trigger] duplicate_groups(files, allowed)[h][0],
            ),
{
    let n = files.len();
    let lead = |i: usize| leads(files, allowed, i as int);
    let leaders = indices(n).filter(lead);
    lemma_indices_filter(n, lead);
    lemma_indices_filter_increasing(n, lead);
    let groups = duplicate_groups(files, allowed);
    assert forall|g: int, a: int, b: int|
        0 <= g < groups.len() && 0 <= a < b < groups[g].len() implies crate::path::path_lt(
        #[trigger] groups[g][a],
        #[trigger] groups[g][b],
    ) by {
        let i = leaders[g] as int;
        let cls = |j: usize| hashed(files, allowed, j as int) && same_key(files[j as int], files[i]);
        lemma_indices_filter(n, cls);
        lemma_indices_filter_increasing(n, cls);
        let c = class_of(files, allowed, i);
        assert(groups[g] == group_paths(files, c));
        assert(groups[g][a] == files[c[a] as int].key());
        assert(groups[g][b] == files[c[b] as int].key());
    }
    assert forall|g: int, h: int| 0 <= g < h < groups.len() implies crate::path::path_lt(
        #[trigger] groups[g][0],
        #[trigger] groups[h][0],
    ) by {
        let i = leaders[g] as int;
        let k = leaders[h] as int;
        assert(lead(leaders[g]) && lead(leaders[h]));
        assert(class_of(files, allowed, i)[0] == i);
        assert(class_of(files, allowed, k)[0] == k);
        assert(groups[g][0] == files[i].key());
        assert(groups[h][0] == files[k].key());
        assert(i < k);
    }
}

/// Works through a queue of files to hash, one file per step, so that the
/// caller can save the index between steps.
pub struct ChecksumCalculator {
    queue: Vec<usize>,
    buf: Vec<u8>,
}

impl View for ChecksumCalculator {
    type V = Seq<usize>;

    closed spec fn view(&self) -> Seq<usize> {
        self.queue@
    }
}

impl ChecksumCalculator {
    /// A calculator for the files that could have a duplicate: the first stage
    /// over the files of `index`.
    pub fn with_file_match(
        index: &RootIndex,
        allowlist: &Allowlist,
        match_name: bool,
        match_created: bool,
        match_modified: bool,
    ) -> (r: ChecksumCalculator)
        ensures
            r@ == indices(index@.files.len()).filter(
                |i: usize|
                    file_admitted(
                        index@.files,
                        index@.files.map_values(|f: File| allowlist.admits(f.key())),
                        MatchFlags { name: match_name, created: match_created, modified: match_modified },
                        i as int,
                    ),
            ),
    {
        let queue = potential_file_matches(
            index.files().as_slice(),
            allowlist,
            match_name,
            match_created,
            match_modified,
        );
        ChecksumCalculator { queue, buf: Vec::with_capacity(8192) }
    }

    /// A calculator for the files below directories that could have a
    /// duplicate: the first stage for directories over `index`.
    pub fn with_dir_match(
        index: &RootIndex,
        allowlist: &Allowlist,
        match_name: bool,
        match_created: bool,
        match_modified: bool,
    ) -> (r: ChecksumCalculator)
        requires
            index.wf(),
        ensures
            r@ == indices(index@.files.len()).filter(
                |i: usize|
                    crate::duplicate_dirs::in_admitted_dir(
                        index@.files,
                        index@.dirs,
                        index@.dirs.map_values(|d: crate::model::Dir| allowlist.admits(d.key())),
                        MatchFlags { name: match_name, created: match_created, modified: match_modified },
                        i as int,
                    ),
            ),
    {
        let queue = crate::duplicate_dirs::potential_dir_matches(
            &index.all(),
            allowlist,
            match_name,
            match_created,
            match_modified,
        );
        ChecksumCalculator { queue, buf: Vec::with_capacity(8192) }
    }

    /// A calculator over the given positions.
    pub fn with_queue(queue: Vec<usize>) -> (r: ChecksumCalculator)
        ensures
            r@ == queue@,
    {
        ChecksumCalculator { queue, buf: Vec::with_capacity(8192) }
    }

    /// How many files are left.
    pub fn remaining(&self) -> (r: usize)
        ensures
            r == self@.len(),
    {
        self.queue.len()
    }

    /// Takes the last file of the queue and computes its checksum if it has
    /// none. Returns its position, `None` once the queue is empty.
    pub fn next<R: FileReader>(&mut self, index: &mut RootIndex, reader: &R) -> (r: Option<
        Result<usize, IndexError>,
    >)
        requires
            old(index).wf(),
            forall|k: int| 0 <= k < old(self)@.len() ==> #[trigger] old(self)@[k] < old(index)@.files.len(),
        ensures
            final(index).wf(),
            final(index)@.dirs == old(index)@.dirs,
            forall|k: int| 0 <= k < final(self)@.len() ==> #[trigger] final(self)@[k] < final(index)@.files.len(),
            r is None <==> old(self)@.len() == 0,
            r is None ==> final(self)@ == old(self)@ && final(index)@ == old(index)@,
            r is Some ==> final(self)@ == old(self)@.drop_last(),
            r matches Some(Ok(i)) ==> i == old(self)@.last()
                && final(index)@.files[i as int].checksum.sha512@.len() > 0,
            r is Some ==> forall|k: int|
                0 <= k < old(index)@.files.len() && k != old(self)@.last() ==> #[trigger] final(index)@.files[k]
                    == old(index)@.files[k],
            only_checksums_filled(old(index)@.files, final(index)@.files),
            final(index)@.files != old(index)@.files ==> final(index)@.dirty,
            final(index)@.files == old(index)@.files ==> final(index)@ == old(index)@,
            r matches Some(Err(_)) ==> final(index)@ == old(index)@,
            old(self)@.len() > 0 && old(index)@.files[old(self)@.last() as int].checksum.sha512@.len()
                > 0 ==> r == Some(Ok::<usize, IndexError>(old(self)@.last())) && final(index)@
                == old(index)@,
    {
        match self.queue.pop() {
            None => None,
            Some(i) => {
                proof {
                    assert(old(self)@ == self.queue@.push(i));
                    assert(i == old(self)@[old(self)@.len() - 1]);
                }
                let r = index.calculate_checksum(i, reader, &mut self.buf);
                proof {
                    assert forall|k: int| 0 <= k < self.queue@.len() implies #[trigger] self.queue@[k]
                        < index@.files.len() by {
                        assert(self.queue@[k] == old(self)@[k]);
                    }
                }
                match r {
                    Ok(changed) => {
                        proof {
                            if changed {
                                assert(index@.files[i as int] != old(index)@.files[i as int]);
                            }
                        }
                        Some(Ok(i))
                    },
                    Err(e) => Some(Err(e)),
                }
            },
        }
    }
}

} // verus!
