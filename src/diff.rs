//! Differences between two indexes: a sort-merge walk over their file lists,
//! and a match of the files left on one side by checksum and size, which finds
//! moved files.
use crate::model::{Checksum, File, FileReader, IndexError};
use crate::path::{chars_of, compare_chars, lemma_lt_asymmetric, lemma_lt_irreflexive, path_lt};
use crate::sorted::{find, lemma_strict_is_sorted, strictly_sorted, Entry};
use std::cmp::Ordering;
use vstd::prelude::*;

verus! {

/// One difference between a new list of files and an old one.
#[derive(Clone, Debug, PartialEq, Eq)]
pub enum Diff {
    /// Only in the new list.
    Added(String),
    /// Only in the old list.
    Removed(String),
    /// In both, with other content.
    Changed(String),
    /// The same content under another path: the old path, then the new one.
    Moved(String, String),
}

pub enum DiffView {
    Added(Seq<char>),
    Removed(Seq<char>),
    Changed(Seq<char>),
    Moved(Seq<char>, Seq<char>),
}

impl View for Diff {
    type V = DiffView;

    open spec fn view(&self) -> DiffView {
        match self {
            Diff::Added(p) => DiffView::Added(p@),
            Diff::Removed(p) => DiffView::Removed(p@),
            Diff::Changed(p) => DiffView::Changed(p@),
            Diff::Moved(a, b) => DiffView::Moved(a@, b@),
        }
    }
}

/// Which attributes let two files at one path count as unchanged without
/// comparing checksums.
#[derive(Clone, Copy, Debug, PartialEq, Eq)]
pub struct MatchFlags {
    pub name: bool,
    pub created: bool,
    pub modified: bool,
}

/// Two files at one path with equal sizes are taken as unchanged by attributes.
pub open spec fn same_by_attributes(a: File, b: File, flags: MatchFlags) -> bool {
    flags.name || (flags.created && a.meta.created_time == b.meta.created_time) || (flags.modified
        && a.meta.modified_time == b.meta.modified_time)
}

/// Two files at one path differ: by size, or by checksum unless their
/// attributes already count them as unchanged.
pub open spec fn is_changed(a: File, b: File, flags: MatchFlags) -> bool {
    a.size != b.size || (!same_by_attributes(a, b, flags) && a.checksum.sha512@
        != b.checksum.sha512@)
}

/// Two files at one path whose checksums must be compared.
pub open spec fn needs_checksums(a: File, b: File, flags: MatchFlags) -> bool {
    a.size == b.size && !same_by_attributes(a, b, flags)
}

/// What the walk yields: differences found directly, and the files found on one
/// side only that have a checksum, which may have moved.
pub struct ScanView {
    pub diffs: Seq<DiffView>,
    pub added: Seq<File>,
    pub removed: Seq<File>,
}

/// The sort-merge walk over a new list `s` and an old list `o`, both sorted.
pub open spec fn scan(s: Seq<File>, o: Seq<File>, flags: MatchFlags) -> ScanView
    decreases s.len() + o.len(),
{
    if s.len() == 0 && o.len() == 0 {
        ScanView { diffs: Seq::empty(), added: Seq::empty(), removed: Seq::empty() }
    } else if o.len() == 0 || (s.len() > 0 && path_lt(s[0].key(), o[0].key())) {
        let rest = scan(s.drop_first(), o, flags);
        if s[0].checksum.sha512@.len() == 0 {
            ScanView { diffs: seq![DiffView::Added(s[0].key())] + rest.diffs, ..rest }
        } else {
            ScanView { added: seq![s[0]] + rest.added, ..rest }
        }
    } else if s.len() == 0 || path_lt(o[0].key(), s[0].key()) {
        let rest = scan(s, o.drop_first(), flags);
        if o[0].checksum.sha512@.len() == 0 {
            ScanView { diffs: seq![DiffView::Removed(o[0].key())] + rest.diffs, ..rest }
        } else {
            ScanView { removed: seq![o[0]] + rest.removed, ..rest }
        }
    } else {
        let rest = scan(s.drop_first(), o.drop_first(), flags);
        if is_changed(s[0], o[0], flags) {
            ScanView { diffs: seq![DiffView::Changed(s[0].key())] + rest.diffs, ..rest }
        } else {
            rest
        }
    }
}

/// Files are matched across the sides by checksum and size.
pub open spec fn same_key(a: File, b: File) -> bool {
    a.checksum.sha512@ == b.checksum.sha512@ && a.size == b.size
}

/// How many files of `s` have the checksum and size of `f`.
pub open spec fn count_key(s: Seq<File>, f: File) -> nat
    decreases s.len(),
{
    if s.len() == 0 {
        0
    } else {
        count_key(s.drop_last(), f) + if same_key(s.last(), f) {
            1nat
        } else {
            0nat
        }
    }
}

/// The position in `s` of the file that is the `r`-th (from 0) to share the key of `f`.
pub open spec fn nth_with_key(s: Seq<File>, f: File, r: nat) -> int {
    choose|j: int| 0 <= j < s.len() && same_key(s[j], f) && count_key(s.take(j), f) == r
}

/// A key occurs as often on both sides: its files are paired in order.
pub open spec fn paired(added: Seq<File>, removed: Seq<File>, f: File) -> bool {
    count_key(added, f) == count_key(removed, f)
}

/// The verdict on the `i`-th file found only on the new side.
pub open spec fn added_verdict(added: Seq<File>, removed: Seq<File>, i: int) -> DiffView {
    let f = added[i];
    if paired(added, removed, f) {
        DiffView::Moved(
            removed[nth_with_key(removed, f, count_key(added.take(i), f))].key(),
            f.key(),
        )
    } else {
        DiffView::Added(f.key())
    }
}

/// Files found on one side only, matched: a key with as many files on both sides
/// gives moves, paired in order; any other gives additions and removals.
pub open spec fn moves(added: Seq<File>, removed: Seq<File>) -> Seq<DiffView> {
    Seq::new(added.len(), |i: int| added_verdict(added, removed, i)) + removed.filter(
        |g: File| !paired(added, removed, g),
    ).map_values(|g: File| DiffView::Removed(g.key()))
}

/// All differences between a new list `s` and an old list `o`.
pub open spec fn diff_spec(s: Seq<File>, o: Seq<File>, flags: MatchFlags) -> Seq<DiffView> {
    let r = scan(s, o, flags);
    r.diffs + moves(r.added, r.removed)
}

pub open spec fn views(d: Seq<Diff>) -> Seq<DiffView> {
    d.map_values(|x: Diff| x@)
}

proof fn lemma_count_take_step(s: Seq<File>, f: File, j: int)
    requires
        0 <= j < s.len(),
    ensures
        count_key(s.take(j + 1), f) == count_key(s.take(j), f) + if same_key(s[j], f) {
            1nat
        } else {
            0nat
        },
{
    assert(s.take(j + 1).drop_last() =~= s.take(j));
}

proof fn lemma_count_monotone(s: Seq<File>, f: File, a: int, b: int)
    requires
        0 <= a <= b <= s.len(),
    ensures
        count_key(s.take(a), f) <= count_key(s.take(b), f),
    decreases b - a,
{
    if a < b {
        lemma_count_monotone(s, f, a, b - 1);
        lemma_count_take_step(s, f, b - 1);
    }
}

/// The number of files in `s` sharing the key of `f`.
fn count_matching(s: &Vec<File>, upto: usize, f: &File) -> (r: usize)
    requires
        upto <= s@.len(),
    ensures
        r == count_key(s@.take(upto as int), *f),
{
    let mut n: usize = 0;
    let mut j: usize = 0;
    proof {
        assert(s@.take(0) =~= Seq::<File>::empty());
    }
    while j < upto
        invariant
            upto <= s@.len(),
            j <= upto,
            n == count_key(s@.take(j as int), *f),
            n <= j,
        decreases upto - j,
    {
        proof {
            lemma_count_take_step(s@, *f, j as int);
        }
        if s[j].checksum.same_as(&f.checksum) && s[j].size == f.size {
            n = n + 1;
        }
        j = j + 1;
    }
    n
}

/// The position in `s` of the `r`-th file sharing the key of `f`.
fn find_nth(s: &Vec<File>, f: &File, r: usize) -> (j: usize)
    requires
        r < count_key(s@, *f),
    ensures
        j == nth_with_key(s@, *f, r as nat),
        j < s@.len(),
{
    let mut n: usize = 0;
    let mut j: usize = 0;
    proof {
        assert(s@.take(0) =~= Seq::<File>::empty());
        assert(s@.take(s@.len() as int) =~= s@);
    }
    while j < s.len()
        invariant
            r < count_key(s@, *f),
            j <= s@.len(),
            n == count_key(s@.take(j as int), *f),
            n <= r,
        decreases s@.len() - j,
    {
        proof {
            lemma_count_take_step(s@, *f, j as int);
        }
        if s[j].checksum.same_as(&f.checksum) && s[j].size == f.size {
            if n == r {
                proof {
                    let k = nth_with_key(s@, *f, r as nat);
                    assert(0 <= j < s@.len() && same_key(s@[j as int], *f) && count_key(
                        s@.take(j as int),
                        *f,
                    ) == r);
                    if k != j {
                        if k < j {
                            lemma_count_take_step(s@, *f, k);
                            lemma_count_monotone(s@, *f, k + 1, j as int);
                        } else {
                            lemma_count_monotone(s@, *f, j + 1, k);
                        }
                    }
                }
                return j;
            }
            n = n + 1;
        }
        j = j + 1;
    }
    proof {
        assert(s@.take(j as int) =~= s@);
    }
    0
}

fn path_string(f: &File) -> (r: String)
    ensures
        r@ == f.key(),
{
    f.meta.path.clone()
}

/// Matches the files found on one side only: see `moves`.
pub fn match_moves(added: &Vec<File>, removed: &Vec<File>) -> (r: Vec<Diff>)
    ensures
        views(r@) == moves(added@, removed@),
{
    let mut out: Vec<Diff> = Vec::new();
    let mut i: usize = 0;
    while i < added.len()
        invariant
            i <= added@.len(),
            views(out@) == Seq::new(i as nat, |k: int| added_verdict(added@, removed@, k)),
        decreases added@.len() - i,
    {
        let f = &added[i];
        proof {
            assert(added@.take(added@.len() as int) =~= added@);
            assert(removed@.take(removed@.len() as int) =~= removed@);
        }
        let in_added = count_matching(added, added.len(), f);
        let in_removed = count_matching(removed, removed.len(), f);
        let ghost before = views(out@);
        let d = if in_added == in_removed {
            let rank = count_matching(added, i, f);
            proof {
                lemma_count_take_step(added@, *f, i as int);
                lemma_count_monotone(added@, *f, i + 1, added@.len() as int);
            }
            let j = find_nth(removed, f, rank);
            Diff::Moved(path_string(&removed[j]), path_string(f))
        } else {
            Diff::Added(path_string(f))
        };
        proof {
            assert(d@ == added_verdict(added@, removed@, i as int));
        }
        out.push(d);
        proof {
            assert(views(out@) =~= before.push(d@));
            assert(views(out@) =~= Seq::new((i + 1) as nat, |k: int| added_verdict(added@, removed@, k)));
        }
        i = i + 1;
    }
    let ghost first = views(out@);
    let mut j: usize = 0;
    while j < removed.len()
        invariant
            j <= removed@.len(),
            first == Seq::new(added@.len(), |k: int| added_verdict(added@, removed@, k)),
            views(out@) == first + removed@.take(j as int).filter(
                |g: File| !paired(added@, removed@, g),
            ).map_values(|g: File| DiffView::Removed(g.key())),
        decreases removed@.len() - j,
    {
        let g = &removed[j];
        proof {
            assert(added@.take(added@.len() as int) =~= added@);
            assert(removed@.take(removed@.len() as int) =~= removed@);
            reveal(Seq::filter);
            assert(removed@.take(j + 1).drop_last() =~= removed@.take(j as int));
        }
        let in_added = count_matching(added, added.len(), g);
        let in_removed = count_matching(removed, removed.len(), g);
        let ghost before = views(out@);
        let ghost p = |x: File| !paired(added@, removed@, x);
        let ghost m = |x: File| DiffView::Removed(x.key());
        proof {
            assert(removed@.take(j + 1).last() == *g);
        }
        if in_added != in_removed {
            let d = Diff::Removed(path_string(g));
            out.push(d);
            proof {
                assert(views(out@) =~= before.push(d@));
                assert(removed@.take(j + 1).filter(p) == removed@.take(j as int).filter(p).push(*g));
                assert(removed@.take(j + 1).filter(p).map_values(m) =~= removed@.take(j as int).filter(
                    p,
                ).map_values(m).push(m(*g)));
            }
        } else {
            proof {
                assert(removed@.take(j + 1).filter(p) == removed@.take(j as int).filter(p));
            }
        }
        proof {
            assert(views(out@) =~= first + removed@.take(j + 1).filter(p).map_values(m));
        }
        j = j + 1;
    }
    proof {
        assert(removed@.take(j as int) =~= removed@);
    }
    out
}

proof fn lemma_scan_step_added(s: Seq<File>, o: Seq<File>, i: int, j: int, flags: MatchFlags)
    requires
        0 <= i < s.len(),
        0 <= j <= o.len(),
        j == o.len() || path_lt(s[i].key(), o[j].key()),
    ensures
        scan(s.skip(i), o.skip(j), flags) == ({
            let rest = scan(s.skip(i + 1), o.skip(j), flags);
            if s[i].checksum.sha512@.len() == 0 {
                ScanView { diffs: seq![DiffView::Added(s[i].key())] + rest.diffs, ..rest }
            } else {
                ScanView { added: seq![s[i]] + rest.added, ..rest }
            }
        }),
{
    assert(s.skip(i).drop_first() =~= s.skip(i + 1));
    assert(s.skip(i)[0] == s[i]);
    if j < o.len() {
        assert(o.skip(j)[0] == o[j]);
    }
}

proof fn lemma_scan_step_removed(s: Seq<File>, o: Seq<File>, i: int, j: int, flags: MatchFlags)
    requires
        0 <= i <= s.len(),
        0 <= j < o.len(),
        i == s.len() || path_lt(o[j].key(), s[i].key()),
    ensures
        scan(s.skip(i), o.skip(j), flags) == ({
            let rest = scan(s.skip(i), o.skip(j + 1), flags);
            if o[j].checksum.sha512@.len() == 0 {
                ScanView { diffs: seq![DiffView::Removed(o[j].key())] + rest.diffs, ..rest }
            } else {
                ScanView { removed: seq![o[j]] + rest.removed, ..rest }
            }
        }),
{
    assert(o.skip(j).drop_first() =~= o.skip(j + 1));
    assert(o.skip(j)[0] == o[j]);
    if i < s.len() {
        assert(s.skip(i)[0] == s[i]);
        lemma_lt_asymmetric(o[j].key(), s[i].key());
    }
}

proof fn lemma_scan_step_same(s: Seq<File>, o: Seq<File>, i: int, j: int, flags: MatchFlags)
    requires
        0 <= i < s.len(),
        0 <= j < o.len(),
        s[i].key() == o[j].key(),
    ensures
        scan(s.skip(i), o.skip(j), flags) == ({
            let rest = scan(s.skip(i + 1), o.skip(j + 1), flags);
            if is_changed(s[i], o[j], flags) {
                ScanView { diffs: seq![DiffView::Changed(s[i].key())] + rest.diffs, ..rest }
            } else {
                rest
            }
        }),
{
    assert(s.skip(i).drop_first() =~= s.skip(i + 1));
    assert(o.skip(j).drop_first() =~= o.skip(j + 1));
    assert(s.skip(i)[0] == s[i]);
    assert(o.skip(j)[0] == o[j]);
    lemma_lt_irreflexive(s[i].key());
}

/// The sort-merge walk of `scan`, reading nothing: every checksum is used as it
/// stands. Returns the differences found directly, and the files on one side
/// only that have a checksum (new side, then old side).
pub fn scan_files(s: &Vec<File>, o: &Vec<File>, flags: MatchFlags) -> (r: (
    Vec<Diff>,
    Vec<File>,
    Vec<File>,
))
    ensures
        views(r.0@) == scan(s@, o@, flags).diffs,
        r.1@ == scan(s@, o@, flags).added,
        r.2@ == scan(s@, o@, flags).removed,
{
    let mut diffs: Vec<Diff> = Vec::new();
    let mut added: Vec<File> = Vec::new();
    let mut removed: Vec<File> = Vec::new();
    let mut i: usize = 0;
    let mut j: usize = 0;
    proof {
        assert(s@.skip(0) =~= s@);
        assert(o@.skip(0) =~= o@);
    }
    while i < s.len() || j < o.len()
        invariant
            i <= s@.len(),
            j <= o@.len(),
            views(diffs@) + scan(s@.skip(i as int), o@.skip(j as int), flags).diffs == scan(
                s@,
                o@,
                flags,
            ).diffs,
            added@ + scan(s@.skip(i as int), o@.skip(j as int), flags).added == scan(
                s@,
                o@,
                flags,
            ).added,
            removed@ + scan(s@.skip(i as int), o@.skip(j as int), flags).removed == scan(
                s@,
                o@,
                flags,
            ).removed,
        decreases s@.len() - i + o@.len() - j,
    {
        let order = if j == o.len() {
            Ordering::Less
        } else if i == s.len() {
            Ordering::Greater
        } else {
            let a = chars_of(s[i].path());
            let b = chars_of(o[j].path());
            compare_chars(&a, &b)
        };
        let ghost d0 = views(diffs@);
        let ghost a0 = added@;
        let ghost r0 = removed@;
        match order {
            Ordering::Less => {
                proof {
                    lemma_scan_step_added(s@, o@, i as int, j as int, flags);
                }
                if s[i].checksum.is_empty() {
                    diffs.push(Diff::Added(path_string(&s[i])));
                    proof {
                        assert(views(diffs@) =~= d0.push(DiffView::Added(s@[i as int].key())));
                    }
                } else {
                    added.push(s[i].copy());
                }
                i = i + 1;
            },
            Ordering::Greater => {
                proof {
                    lemma_scan_step_removed(s@, o@, i as int, j as int, flags);
                }
                if o[j].checksum.is_empty() {
                    diffs.push(Diff::Removed(path_string(&o[j])));
                    proof {
                        assert(views(diffs@) =~= d0.push(DiffView::Removed(o@[j as int].key())));
                    }
                } else {
                    removed.push(o[j].copy());
                }
                j = j + 1;
            },
            Ordering::Equal => {
                proof {
                    lemma_scan_step_same(s@, o@, i as int, j as int, flags);
                }
                let a = &s[i];
                let b = &o[j];
                let by_attributes = flags.name || (flags.created && a.meta.created_time
                    == b.meta.created_time) || (flags.modified && a.meta.modified_time
                    == b.meta.modified_time);
                if a.size != b.size || (!by_attributes && !a.checksum.same_as(&b.checksum)) {
                    diffs.push(Diff::Changed(path_string(a)));
                    proof {
                        assert(views(diffs@) =~= d0.push(DiffView::Changed(s@[i as int].key())));
                    }
                }
                i = i + 1;
                j = j + 1;
            },
        }
        proof {
            assert(views(diffs@) + scan(s@.skip(i as int), o@.skip(j as int), flags).diffs =~= scan(
                s@,
                o@,
                flags,
            ).diffs);
            assert(added@ + scan(s@.skip(i as int), o@.skip(j as int), flags).added =~= scan(
                s@,
                o@,
                flags,
            ).added);
            assert(removed@ + scan(s@.skip(i as int), o@.skip(j as int), flags).removed =~= scan(
                s@,
                o@,
                flags,
            ).removed);
        }
    }
    proof {
        assert(s@.skip(i as int).len() == 0 && o@.skip(j as int).len() == 0);
        assert(views(diffs@) + Seq::<DiffView>::empty() =~= views(diffs@));
        assert(added@ + Seq::<File>::empty() =~= added@);
        assert(removed@ + Seq::<File>::empty() =~= removed@);
    }
    (diffs, added, removed)
}

/// The lists keep their paths, metadata and sizes; a checksum only changes
/// from empty to computed.
pub open spec fn only_checksums_filled(old: Seq<File>, new: Seq<File>) -> bool {
    &&& new.len() == old.len()
    &&& forall|k: int|
        0 <= k < old.len() ==> (#[trigger] new[k]).meta == old[k].meta && new[k].size
            == old[k].size
    &&& forall|k: int|
        0 <= k < old.len() && old[k].checksum.sha512@.len() > 0 ==> (#[trigger] new[k]).checksum
            == old[k].checksum
}

/// Every pair of files at one path whose checksums are compared has both.
pub open spec fn checksums_ready(s: Seq<File>, o: Seq<File>, flags: MatchFlags) -> bool {
    forall|a: int, b: int|
        0 <= a < s.len() && 0 <= b < o.len() && #[trigger] s[a].key() == #[trigger] o[b].key()
            && needs_checksums(s[a], o[b], flags) ==> s[a].checksum.sha512@.len() > 0
            && o[b].checksum.sha512@.len() > 0
}

/// A file of `s1` differs from the one in `s0` only where its path also holds a
/// file of `o0` with which it must be compared by checksum.
pub open spec fn filled_only_where_needed(
    s0: Seq<File>,
    s1: Seq<File>,
    o0: Seq<File>,
    flags: MatchFlags,
) -> bool {
    forall|k: int|
        0 <= k < s0.len() && #[trigger] s1[k] != s0[k] ==> exists|b: int|
            0 <= b < o0.len() && o0[b].key() == s0[k].key() && needs_checksums(s0[k], o0[b], flags)
}

/// The same for the old side: a file of `o1` differs from the one in `o0` only
/// where its path also holds a file of `s0` it must be compared with.
pub open spec fn filled_only_where_needed_old(
    o0: Seq<File>,
    o1: Seq<File>,
    s0: Seq<File>,
    flags: MatchFlags,
) -> bool {
    forall|b: int|
        0 <= b < o0.len() && #[trigger] o1[b] != o0[b] ==> exists|k: int|
            0 <= k < s0.len() && s0[k].key() == o0[b].key() && needs_checksums(s0[k], o0[b], flags)
}

/// Computes the checksum of `v[i]` if it has none.
pub(crate) fn fill_checksum<R: FileReader>(v: &mut Vec<File>, i: usize, reader: &R, buf: &mut Vec<u8>) -> (r:
    Result<bool, IndexError>)
    requires
        i < old(v)@.len(),
    ensures
        only_checksums_filled(old(v)@, final(v)@),
        r is Ok ==> final(v)@[i as int].checksum.sha512@.len() > 0,
        forall|k: int| 0 <= k < old(v)@.len() && k != i ==> #[trigger] final(v)@[k] == old(v)@[k],
        r matches Ok(changed) ==> (changed || final(v)@ == old(v)@),
        r matches Ok(changed) ==> (changed ==> final(v)@[i as int] != old(v)@[i as int]),
        r is Err ==> final(v)@ == old(v)@,
        old(v)@[i as int].checksum.sha512@.len() > 0 ==> (r matches Ok(changed) && !changed),
{
    if !v[i].checksum.is_empty() {
        return Ok(false);
    }
    let mut checksum = Checksum::new();
    match checksum.calculate(reader, v[i].path(), buf) {
        Ok(()) => {},
        Err(e) => {
            return Err(e);
        },
    }
    let mut file = v[i].copy();
    file.checksum = checksum;
    v.set(i, file);
    proof {
        assert(v@[i as int].checksum.sha512@ != old(v)@[i as int].checksum.sha512@);
    }
    Ok(true)
}

/// The differences between the files of a new index `s` and an old one `o`.
///
/// Each pair of files at one path with equal sizes, which the flags do not
/// already count as unchanged, needs both checksums: those missing are computed
/// through `reader` and stored, and the side that got one is marked dirty. Then
/// the result is `diff_spec` of the lists: files added, removed and changed, and
/// files on one side only that have a checksum, matched into moves.
pub fn diff<R: FileReader>(
    s: &mut Vec<File>,
    s_dirty: &mut bool,
    o: &mut Vec<File>,
    o_dirty: &mut bool,
    reader: &R,
    flags: MatchFlags,
) -> (r: Result<Vec<Diff>, IndexError>)
    requires
        strictly_sorted(old(s)@),
        strictly_sorted(old(o)@),
    ensures
        only_checksums_filled(old(s)@, final(s)@),
        only_checksums_filled(old(o)@, final(o)@),
        final(s)@ != old(s)@ ==> *final(s_dirty),
        final(o)@ != old(o)@ ==> *final(o_dirty),
        final(s)@ == old(s)@ ==> *final(s_dirty) == *old(s_dirty),
        final(o)@ == old(o)@ ==> *final(o_dirty) == *old(o_dirty),
        filled_only_where_needed(old(s)@, final(s)@, old(o)@, flags),
        filled_only_where_needed_old(old(o)@, final(o)@, old(s)@, flags),
        checksums_ready(old(s)@, old(o)@, flags) ==> r is Ok && final(s)@ == old(s)@ && final(o)@
            == old(o)@,
        r is Ok ==> checksums_ready(final(s)@, final(o)@, flags),
        r matches Ok(d) ==> views(d@) == diff_spec(final(s)@, final(o)@, flags),
{
    let mut buf: Vec<u8> = Vec::with_capacity(8192);
    let mut i: usize = 0;
    let ghost s0 = s@;
    let ghost o0 = o@;
    proof {
        lemma_strict_is_sorted(o@);
    }
    while i < s.len()
        invariant
            s0 == old(s)@,
            o0 == old(o)@,
            strictly_sorted(s0),
            strictly_sorted(o0),
            only_checksums_filled(s0, s@),
            only_checksums_filled(o0, o@),
            i <= s@.len(),
            s@ != s0 ==> *s_dirty,
            o@ != o0 ==> *o_dirty,
            s@ == s0 ==> *s_dirty == *old(s_dirty),
            o@ == o0 ==> *o_dirty == *old(o_dirty),
            filled_only_where_needed(s0, s@, o0, flags),
            filled_only_where_needed_old(o0, o@, s0, flags),
            checksums_ready(s0, o0, flags) ==> s@ == s0 && o@ == o0,
            forall|a: int, b: int|
                0 <= a < i && 0 <= b < o@.len() && #[trigger] s@[a].key() == #[trigger] o@[b].key()
                    && needs_checksums(s@[a], o@[b], flags) ==> s@[a].checksum.sha512@.len() > 0
                    && o@[b].checksum.sha512@.len() > 0,
        decreases s0.len() - i,
    {
        proof {
            assert(strictly_sorted(o@)) by {
                assert forall|x: int, y: int| 0 <= x < y < o@.len() implies path_lt(
                    #[trigger] o@[x].key(),
                    #[trigger] o@[y].key(),
                ) by {
                    assert(o@[x].key() == o0[x].key() && o@[y].key() == o0[y].key());
                }
            }
            lemma_strict_is_sorted(o@);
        }
        let key = chars_of(s[i].path());
        match find(o.as_slice(), &key) {
            Some(b) => {
                let a = &s[i];
                let other = &o[b];
                let by_attributes = flags.name || (flags.created && a.meta.created_time
                    == other.meta.created_time) || (flags.modified && a.meta.modified_time
                    == other.meta.modified_time);
                if a.size == other.size && !by_attributes {
                    let ghost s1 = s@;
                    let ghost o1 = o@;
                    proof {
                        assert(s0[i as int].key() == s1[i as int].key());
                        assert(o0[b as int].key() == o1[b as int].key());
                        assert(needs_checksums(s0[i as int], o0[b as int], flags));
                    }
                    match fill_checksum(s, i, reader, &mut buf) {
                        Ok(changed) => {
                            if changed {
                                *s_dirty = true;
                                assert(s@[i as int] != s1[i as int]);
                                assert(s@[i as int] != s0[i as int]);
                            }
                        },
                        Err(e) => {
                            return Err(e);
                        },
                    }
                    match fill_checksum(o, b, reader, &mut buf) {
                        Ok(changed) => {
                            if changed {
                                *o_dirty = true;
                                assert(o@[b as int] != o1[b as int]);
                                assert(o@[b as int] != o0[b as int]);
                            }
                        },
                        Err(e) => {
                            return Err(e);
                        },
                    }
                    proof {
                        assert forall|a2: int, b2: int|
                            0 <= a2 < i + 1 && 0 <= b2 < o@.len() && #[trigger] s@[a2].key()
                                == #[trigger] o@[b2].key() && needs_checksums(
                                s@[a2],
                                o@[b2],
                                flags,
                            ) implies s@[a2].checksum.sha512@.len() > 0
                            && o@[b2].checksum.sha512@.len() > 0 by {
                            if a2 < i {
                                assert(s@[a2] == s1[a2]);
                                if b2 != b {
                                    assert(o@[b2] == o1[b2]);
                                } else {
                                    assert(s1[a2].key() == s0[a2].key());
                                    assert(s1[i as int].key() == s0[i as int].key());
                                    crate::path::lemma_lt_irreflexive(s0[i as int].key());
                                }
                            } else if b2 != b {
                                assert(o@[b2].key() == o0[b2].key());
                                assert(o@[b as int].key() == o0[b as int].key());
                                crate::path::lemma_lt_irreflexive(o0[b as int].key());
                            }
                        }
                    }
                    proof {
                        assert forall|k: int| 0 <= k < s0.len() && #[trigger] s@[k] != s0[k] implies exists|b2: int|
                            0 <= b2 < o0.len() && o0[b2].key() == s0[k].key() && needs_checksums(s0[k], o0[b2], flags) by {
                            if k == i {
                                assert(o0[b as int].key() == s0[k].key());
                            } else {
                                assert(s@[k] == s1[k]);
                            }
                        }
                        assert forall|b2: int| 0 <= b2 < o0.len() && #[trigger] o@[b2] != o0[b2] implies exists|k: int|
                            0 <= k < s0.len() && s0[k].key() == o0[b2].key() && needs_checksums(s0[k], o0[b2], flags) by {
                            if b2 == b {
                                assert(s0[i as int].key() == o0[b2].key());
                            } else {
                                assert(o@[b2] == o1[b2]);
                            }
                        }
                    }
                } else {
                    proof {
                        assert forall|a2: int, b2: int|
                            0 <= a2 < i + 1 && 0 <= b2 < o@.len() && #[trigger] s@[a2].key()
                                == #[trigger] o@[b2].key() && needs_checksums(
                                s@[a2],
                                o@[b2],
                                flags,
                            ) implies s@[a2].checksum.sha512@.len() > 0
                            && o@[b2].checksum.sha512@.len() > 0 by {
                            if a2 == i && b2 != b {
                                assert(o@[b2].key() == o0[b2].key());
                                assert(o@[b as int].key() == o0[b as int].key());
                                crate::path::lemma_lt_irreflexive(o0[b as int].key());
                            }
                        }
                    }
                }
            },
            None => {},
        }
        i = i + 1;
    }
    let (mut diffs, added, removed) = scan_files(s, o, flags);
    let mut moved = match_moves(&added, &removed);
    let ghost d0 = views(diffs@);
    diffs.append(&mut moved);
    proof {
        assert(views(diffs@) =~= d0 + moves(scan(s@, o@, flags).added, scan(s@, o@, flags).removed));
    }
    Ok(diffs)
}

/// A difference seen from the other side: additions and removals trade places,
/// and a move runs the other way.
pub open spec fn swap_sides(d: DiffView) -> DiffView {
    match d {
        DiffView::Added(p) => DiffView::Removed(p),
        DiffView::Removed(p) => DiffView::Added(p),
        DiffView::Changed(p) => DiffView::Changed(p),
        DiffView::Moved(a, b) => DiffView::Moved(b, a),
    }
}

/// Comparing a list of files with itself finds no difference, whatever the flags.
pub proof fn lemma_diff_same(s: Seq<File>, flags: MatchFlags)
    ensures
        diff_spec(s, s, flags) == Seq::<DiffView>::empty(),
{
    lemma_scan_same(s, flags);
    assert(moves(Seq::<File>::empty(), Seq::<File>::empty()) =~= Seq::<DiffView>::empty()) by {
        reveal(Seq::filter);
    }
}

proof fn lemma_scan_same(s: Seq<File>, flags: MatchFlags)
    ensures
        scan(s, s, flags).diffs.len() == 0,
        scan(s, s, flags).added.len() == 0,
        scan(s, s, flags).removed.len() == 0,
    decreases s.len(),
{
    if s.len() > 0 {
        lemma_lt_irreflexive(s[0].key());
        lemma_scan_same(s.drop_first(), flags);
    }
}

/// Swapping the new and the old list swaps additions and removals among the
/// differences the walk finds (changes stay), and swaps the two lists of files
/// found on one side only, from which moves are matched.
pub proof fn lemma_diff_reversed(s: Seq<File>, o: Seq<File>, flags: MatchFlags)
    ensures
        scan(o, s, flags).diffs == scan(s, o, flags).diffs.map_values(|d: DiffView| swap_sides(d)),
        scan(o, s, flags).added == scan(s, o, flags).removed,
        scan(o, s, flags).removed == scan(s, o, flags).added,
    decreases s.len() + o.len(),
{
    let f = |d: DiffView| swap_sides(d);
    if s.len() == 0 && o.len() == 0 {
        assert(scan(s, o, flags).diffs.map_values(f) =~= Seq::<DiffView>::empty());
    } else if o.len() == 0 || (s.len() > 0 && path_lt(s[0].key(), o[0].key())) {
        if o.len() > 0 {
            lemma_lt_asymmetric(s[0].key(), o[0].key());
        }
        lemma_diff_reversed(s.drop_first(), o, flags);
        let rest = scan(s.drop_first(), o, flags);
        assert((seq![DiffView::Added(s[0].key())] + rest.diffs).map_values(f) =~= seq![
            DiffView::Removed(s[0].key()),
        ] + rest.diffs.map_values(f));
    } else if s.len() == 0 || path_lt(o[0].key(), s[0].key()) {
        lemma_diff_reversed(s, o.drop_first(), flags);
        let rest = scan(s, o.drop_first(), flags);
        assert((seq![DiffView::Removed(o[0].key())] + rest.diffs).map_values(f) =~= seq![
            DiffView::Added(o[0].key()),
        ] + rest.diffs.map_values(f));
    } else {
        lemma_diff_reversed(s.drop_first(), o.drop_first(), flags);
        let rest = scan(s.drop_first(), o.drop_first(), flags);
        assert((seq![DiffView::Changed(s[0].key())] + rest.diffs).map_values(f) =~= seq![
            DiffView::Changed(s[0].key()),
        ] + rest.diffs.map_values(f));
        crate::path::lemma_lt_total(s[0].key(), o[0].key());
    }
}

} // verus!
