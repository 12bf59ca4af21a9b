//! Lists of entries ordered by path: sorting them, and searching them.
use crate::model::{Dir, File};
use crate::path::{chars_of, compare_chars, dir_prefix, has_prefix, is_child_of, is_descendant,
    lemma_descendant_iff_prefix, lemma_lt_asymmetric, lemma_lt_irreflexive, lemma_lt_total,
    lemma_lt_transitive, lemma_prefix_between, lemma_prefix_not_below, path_lt};
use std::cmp::Ordering;
use vstd::multiset::Multiset;
use vstd::prelude::*;

verus! {

broadcast use vstd::seq_lib::group_to_multiset_ensures;

/// An entry of an index, which is ordered by its path.
pub trait Entry: Sized {
    spec fn key(&self) -> Seq<char>;

    fn path(&self) -> (r: &str)
        ensures
            r@ == self.key(),
    ;
}

impl Entry for File {
    open spec fn key(&self) -> Seq<char> {
        self.meta.path@
    }

    fn path(&self) -> (r: &str) {
        self.meta.path.as_str()
    }
}

impl Entry for Dir {
    open spec fn key(&self) -> Seq<char> {
        self.meta.path@
    }

    fn path(&self) -> (r: &str) {
        self.meta.path.as_str()
    }
}

/// `a` does not come after `b`.
pub open spec fn key_le(a: Seq<char>, b: Seq<char>) -> bool {
    !path_lt(b, a)
}

/// No entry comes after a later one.
pub open spec fn sorted<E: Entry>(s: Seq<E>) -> bool {
    forall|i: int, j: int| 0 <= i < j < s.len() ==> key_le(#[trigger] s[i].key(), #[trigger] s[j].key())
}

/// Every entry comes strictly before the next one: sorted without repeated paths.
pub open spec fn strictly_sorted<E: Entry>(s: Seq<E>) -> bool {
    forall|i: int, j: int| 0 <= i < j < s.len() ==> path_lt(#[trigger] s[i].key(), #[trigger] s[j].key())
}

/// Adjacent entries are in strictly increasing order.
pub open spec fn adjacent_increasing<E: Entry>(s: Seq<E>) -> bool {
    forall|i: int| 0 <= i < s.len() - 1 ==> path_lt(#[trigger] s[i].key(), s[i + 1].key())
}

pub proof fn lemma_le_transitive(a: Seq<char>, b: Seq<char>, c: Seq<char>)
    requires
        key_le(a, b),
        key_le(b, c),
    ensures
        key_le(a, c),
{
    lemma_lt_total(a, b);
    lemma_lt_total(b, c);
    if a != b && b != c {
        lemma_lt_transitive(a, b, c);
        lemma_lt_asymmetric(a, c);
    } else if a == b {
    } else {
    }
}

/// Comparing adjacent entries is enough to know the whole list is in order.
pub proof fn lemma_adjacent_strict<E: Entry>(s: Seq<E>)
    requires
        adjacent_increasing(s),
    ensures
        strictly_sorted(s),
    decreases s.len(),
{
    if s.len() > 1 {
        let t = s.drop_last();
        assert(adjacent_increasing(t)) by {
            assert forall|i: int| 0 <= i < t.len() - 1 implies path_lt(#[trigger] t[i].key(), t[i + 1].key()) by {
                assert(t[i] == s[i] && t[i + 1] == s[i + 1]);
            }
        }
        lemma_adjacent_strict(t);
        assert forall|i: int, j: int| 0 <= i < j < s.len() implies path_lt(#[trigger] s[i].key(), #[trigger] s[j].key()) by {
            if j < s.len() - 1 {
                assert(t[i] == s[i] && t[j] == s[j]);
            } else if i < j - 1 {
                assert(t[i] == s[i] && t[j - 1] == s[j - 1]);
                lemma_lt_transitive(s[i].key(), s[j - 1].key(), s[j].key());
            }
        }
    }
}

pub proof fn lemma_strict_is_sorted<E: Entry>(s: Seq<E>)
    requires
        strictly_sorted(s),
    ensures
        sorted(s),
        adjacent_increasing(s),
{
    assert forall|i: int, j: int| 0 <= i < j < s.len() implies key_le(#[trigger] s[i].key(), #[trigger] s[j].key()) by {
        lemma_lt_asymmetric(s[i].key(), s[j].key());
    }
    assert forall|i: int| 0 <= i < s.len() - 1 implies path_lt(#[trigger] s[i].key(), s[i + 1].key()) by {
        assert(s[i + 1] == s[i + 1]);
    }
}

/// Merges two sorted lists into one sorted list holding the entries of both.
fn merge<E: Entry>(left: Vec<E>, right: Vec<E>) -> (r: Vec<E>)
    requires
        sorted(left@),
        sorted(right@),
    ensures
        sorted(r@),
        r@.to_multiset() == left@.to_multiset().add(right@.to_multiset()),
{
    let ghost total = left@.to_multiset().add(right@.to_multiset());
    let mut l = left;
    let mut r = right;
    // Entries taken so far, largest first.
    let mut taken: Vec<E> = Vec::new();
    while l.len() > 0 || r.len() > 0
        invariant
            sorted(l@),
            sorted(r@),
            forall|i: int, j: int| 0 <= i < j < taken@.len() ==> key_le(#[trigger] taken@[j].key(), #[trigger] taken@[i].key()),
            forall|i: int, j: int| 0 <= i < l@.len() && 0 <= j < taken@.len() ==> key_le(#[trigger] l@[i].key(), #[trigger] taken@[j].key()),
            forall|i: int, j: int| 0 <= i < r@.len() && 0 <= j < taken@.len() ==> key_le(#[trigger] r@[i].key(), #[trigger] taken@[j].key()),
            taken@.to_multiset().add(l@.to_multiset()).add(r@.to_multiset()) == total,
        decreases l@.len() + r@.len(),
    {
        let from_left = if l.len() == 0 {
            false
        } else if r.len() == 0 {
            true
        } else {
            let a = chars_of(l[l.len() - 1].path());
            let b = chars_of(r[r.len() - 1].path());
            match compare_chars(&a, &b) {
                Ordering::Less => false,
                _ => true,
            }
        };
        let ghost old_taken = taken@;
        let ghost old_l = l@;
        let ghost old_r = r@;
        if from_left {
            let x = l.pop().unwrap();
            proof {
                assert(old_l == l@.push(x));
                if old_r.len() > 0 {
                    lemma_lt_total(x.key(), old_r.last().key());
                    lemma_lt_asymmetric(x.key(), old_r.last().key());
                }
                assert forall|i: int| 0 <= i < r@.len() implies key_le(#[trigger] r@[i].key(), x.key()) by {
                    if i < r@.len() - 1 {
                        lemma_le_transitive(r@[i].key(), r@.last().key(), x.key());
                    }
                }
            }
            taken.push(x);
        } else {
            let x = r.pop().unwrap();
            proof {
                assert(old_r == r@.push(x));
                if old_l.len() > 0 {
                    lemma_lt_asymmetric(old_l.last().key(), x.key());
                    lemma_lt_irreflexive(old_l.last().key());
                }
                assert forall|i: int| 0 <= i < l@.len() implies key_le(#[trigger] l@[i].key(), x.key()) by {
                    lemma_le_transitive(l@[i].key(), old_l.last().key(), x.key());
                }
            }
            taken.push(x);
        }
        proof {
            assert forall|i: int, j: int| 0 <= i < j < taken@.len() implies key_le(#[trigger] taken@[j].key(), #[trigger] taken@[i].key()) by {
                if j < taken@.len() - 1 {
                    assert(taken@[i] == old_taken[i] && taken@[j] == old_taken[j]);
                } else {
                    assert(taken@[i] == old_taken[i]);
                }
            }
            assert forall|i: int, j: int| 0 <= i < l@.len() && 0 <= j < taken@.len() implies key_le(#[trigger] l@[i].key(), #[trigger] taken@[j].key()) by {
                if j < taken@.len() - 1 {
                    assert(l@[i] == old_l[i] && taken@[j] == old_taken[j]);
                } else if from_left {
                    assert(l@[i] == old_l[i]);
                }
            }
            assert forall|i: int, j: int| 0 <= i < r@.len() && 0 <= j < taken@.len() implies key_le(#[trigger] r@[i].key(), #[trigger] taken@[j].key()) by {
                if j < taken@.len() - 1 {
                    assert(r@[i] == old_r[i] && taken@[j] == old_taken[j]);
                } else if !from_left {
                    assert(r@[i] == old_r[i]);
                }
            }
            assert(l@.to_multiset() =~= l@.to_multiset());
        }
    }
    proof {
        assert(l@.to_multiset() =~= Multiset::empty());
        assert(r@.to_multiset() =~= Multiset::empty());
        assert(taken@.to_multiset() =~= total);
    }
    // Reverse: the smallest entry is last in `taken`.
    let mut out: Vec<E> = Vec::new();
    while taken.len() > 0
        invariant
            sorted(out@),
            forall|i: int, j: int| 0 <= i < j < taken@.len() ==> key_le(#[trigger] taken@[j].key(), #[trigger] taken@[i].key()),
            forall|i: int, j: int| 0 <= i < out@.len() && 0 <= j < taken@.len() ==> key_le(#[trigger] out@[i].key(), #[trigger] taken@[j].key()),
            out@.to_multiset().add(taken@.to_multiset()) == total,
        decreases taken@.len(),
    {
        let ghost old_taken = taken@;
        let ghost old_out = out@;
        let x = taken.pop().unwrap();
        proof {
            assert(old_taken == taken@.push(x));
        }
        out.push(x);
        proof {
            assert forall|i: int, j: int| 0 <= i < j < out@.len() implies key_le(#[trigger] out@[i].key(), #[trigger] out@[j].key()) by {
                if j < out@.len() - 1 {
                    assert(out@[i] == old_out[i] && out@[j] == old_out[j]);
                } else {
                    assert(out@[i] == old_out[i]);
                    assert(old_taken[old_taken.len() - 1] == x);
                }
            }
            assert forall|i: int, j: int| 0 <= i < out@.len() && 0 <= j < taken@.len() implies key_le(#[trigger] out@[i].key(), #[trigger] taken@[j].key()) by {
                assert(taken@[j] == old_taken[j]);
                if i < out@.len() - 1 {
                    assert(out@[i] == old_out[i]);
                } else {
                    assert(old_taken[old_taken.len() - 1] == x);
                }
            }
            assert forall|i: int, j: int| 0 <= i < j < taken@.len() implies key_le(#[trigger] taken@[j].key(), #[trigger] taken@[i].key()) by {
                assert(taken@[j] == old_taken[j] && taken@[i] == old_taken[i]);
            }
        }
    }
    proof {
        assert(taken@.to_multiset() =~= Multiset::empty());
        assert(out@.to_multiset() =~= total);
    }
    out
}

/// Sorts entries by path. The result holds the same entries.
pub fn sort_by_path<E: Entry>(v: Vec<E>) -> (r: Vec<E>)
    ensures
        sorted(r@),
        r@.to_multiset() == v@.to_multiset(),
    decreases v@.len(),
{
    if v.len() <= 1 {
        return v;
    }
    let mut left = v;
    let ghost all = left@;
    let mid = left.len() / 2;
    let right = left.split_off(mid);
    proof {
        assert(all =~= left@ + right@);
        vstd::seq_lib::lemma_multiset_commutative(left@, right@);
    }
    let l = sort_by_path(left);
    let r = sort_by_path(right);
    merge(l, r)
}

/// The first position whose entry does not come before `target`.
pub fn lower_bound<E: Entry>(s: &[E], target: &Vec<char>) -> (r: usize)
    requires
        sorted(s@),
    ensures
        r <= s@.len(),
        forall|i: int| 0 <= i < r ==> path_lt(#[trigger] s@[i].key(), target@),
        forall|i: int| r <= i < s@.len() ==> !path_lt(#[trigger] s@[i].key(), target@),
{
    let mut lo: usize = 0;
    let mut hi: usize = s.len();
    while lo < hi
        invariant
            sorted(s@),
            lo <= hi <= s@.len(),
            forall|i: int| 0 <= i < lo ==> path_lt(#[trigger] s@[i].key(), target@),
            forall|i: int| hi <= i < s@.len() ==> !path_lt(#[trigger] s@[i].key(), target@),
        decreases hi - lo,
    {
        let mid = lo + (hi - lo) / 2;
        let k = chars_of(s[mid].path());
        match compare_chars(&k, target) {
            Ordering::Less => {
                proof {
                    assert forall|i: int| 0 <= i < mid + 1 implies path_lt(#[trigger] s@[i].key(), target@) by {
                        if i < mid {
                            lemma_lt_total(s@[i].key(), s@[mid as int].key());
                            if s@[i].key() != s@[mid as int].key() {
                                lemma_lt_asymmetric(s@[i].key(), s@[mid as int].key());
                                lemma_lt_transitive(s@[i].key(), s@[mid as int].key(), target@);
                            }
                        }
                    }
                }
                lo = mid + 1;
            },
            _ => {
                proof {
                    assert forall|i: int| mid <= i < s@.len() implies !path_lt(#[trigger] s@[i].key(), target@) by {
                        if i > mid && path_lt(s@[i].key(), target@) {
                            lemma_lt_total(s@[mid as int].key(), s@[i].key());
                            if s@[mid as int].key() != s@[i].key() {
                                lemma_lt_transitive(s@[mid as int].key(), s@[i].key(), target@);
                            }
                        }
                    }
                }
                hi = mid;
            },
        }
    }
    lo
}

/// The position of the entry whose path is `target`, if there is one.
pub fn find<E: Entry>(s: &[E], target: &Vec<char>) -> (r: Option<usize>)
    requires
        sorted(s@),
    ensures
        r matches Some(i) ==> i < s@.len() && s@[i as int].key() == target@,
        r is None ==> forall|i: int| 0 <= i < s@.len() ==> #[trigger] s@[i].key() != target@,
{
    let i = lower_bound(s, target);
    if i < s.len() {
        let k = chars_of(s[i].path());
        match compare_chars(&k, target) {
            Ordering::Equal => {
                return Some(i);
            },
            _ => {},
        }
    }
    proof {
        assert forall|j: int| 0 <= j < s@.len() implies #[trigger] s@[j].key() != target@ by {
            lemma_lt_irreflexive(target@);
            if j >= i {
                lemma_lt_total(s@[i as int].key(), target@);
                if s@[j].key() == target@ && j > i {
                    lemma_lt_asymmetric(s@[i as int].key(), s@[j].key());
                }
            }
        }
    }
    None
}

pub proof fn lemma_filter_all<A>(s: Seq<A>, p: spec_fn(A) -> bool)
    requires
        forall|k: int| 0 <= k < s.len() ==> p(#[trigger] s[k]),
    ensures
        s.filter(p) == s,
    decreases s.len(),
{
    reveal(Seq::filter);
    if s.len() > 0 {
        lemma_filter_all(s.drop_last(), p);
        assert(s.drop_last().push(s.last()) =~= s);
    }
}

pub proof fn lemma_filter_none<A>(s: Seq<A>, p: spec_fn(A) -> bool)
    requires
        forall|k: int| 0 <= k < s.len() ==> !p(#[trigger] s[k]),
    ensures
        s.filter(p) == Seq::<A>::empty(),
    decreases s.len(),
{
    reveal(Seq::filter);
    if s.len() > 0 {
        lemma_filter_none(s.drop_last(), p);
    }
}

/// Filtering a list whose matching entries form the block `[a, b)`.
pub proof fn lemma_filter_block<A>(
    s: Seq<A>,
    p: spec_fn(A) -> bool,
    q: spec_fn(A) -> bool,
    a: int,
    b: int,
)
    requires
        0 <= a <= b <= s.len(),
        forall|k: int| 0 <= k < s.len() ==> (p(#[trigger] s[k]) <==> a <= k < b),
        forall|x: A| #[trigger] q(x) == !p(x),
    ensures
        s.filter(p) == s.subrange(a, b),
        s.filter(q) == s.subrange(0, a) + s.subrange(b, s.len() as int),
{
    let s1 = s.subrange(0, a);
    let s2 = s.subrange(a, b);
    let s3 = s.subrange(b, s.len() as int);
    assert(s =~= s1 + s2 + s3);
    Seq::filter_distributes_over_add(s1 + s2, s3, p);
    Seq::filter_distributes_over_add(s1, s2, p);
    Seq::filter_distributes_over_add(s1 + s2, s3, q);
    Seq::filter_distributes_over_add(s1, s2, q);
    assert forall|k: int| 0 <= k < s1.len() implies !p(#[trigger] s1[k]) by {
        assert(s1[k] == s[k]);
    }
    assert forall|k: int| 0 <= k < s2.len() implies p(#[trigger] s2[k]) by {
        assert(s2[k] == s[a + k]);
    }
    assert forall|k: int| 0 <= k < s3.len() implies !p(#[trigger] s3[k]) by {
        assert(s3[k] == s[b + k]);
    }
    lemma_filter_none(s1, p);
    lemma_filter_all(s2, p);
    lemma_filter_none(s3, p);
    lemma_filter_all(s1, q);
    lemma_filter_none(s2, q);
    lemma_filter_all(s3, q);
    assert(Seq::<A>::empty() + s2 + Seq::<A>::empty() =~= s2);
    assert(s1 + Seq::<A>::empty() + s3 =~= s1 + s3);
}

/// Filtering twice is filtering by both conditions.
pub proof fn lemma_filter_twice<A>(
    s: Seq<A>,
    p1: spec_fn(A) -> bool,
    p2: spec_fn(A) -> bool,
    both: spec_fn(A) -> bool,
)
    requires
        forall|k: int| 0 <= k < s.len() ==> #[trigger] both(s[k]) == (p1(s[k]) && p2(s[k])),
    ensures
        s.filter(p1).filter(p2) == s.filter(both),
    decreases s.len(),
{
    reveal(Seq::filter);
    if s.len() > 0 {
        lemma_filter_twice(s.drop_last(), p1, p2, both);
        if p1(s.last()) {
            assert(s.filter(p1).drop_last() =~= s.drop_last().filter(p1));
        }
    }
}

/// Taking out a block keeps a strictly sorted list strictly sorted.
pub proof fn lemma_cut_strictly_sorted<E: Entry>(s: Seq<E>, a: int, b: int)
    requires
        strictly_sorted(s),
        0 <= a <= b <= s.len(),
    ensures
        strictly_sorted(s.subrange(0, a) + s.subrange(b, s.len() as int)),
{
    let t = s.subrange(0, a) + s.subrange(b, s.len() as int);
    assert forall|i: int, j: int| 0 <= i < j < t.len() implies path_lt(#[trigger] t[i].key(), #[trigger] t[j].key()) by {
        let ii = if i < a { i } else { i + (b - a) };
        let jj = if j < a { j } else { j + (b - a) };
        assert(t[i] == s[ii]);
        assert(t[j] == s[jj]);
    }
}

/// `key_le` in terms of the strict order.
pub proof fn lemma_key_le(a: Seq<char>, b: Seq<char>)
    ensures
        key_le(a, b) <==> (path_lt(a, b) || a == b),
{
    lemma_lt_total(a, b);
    lemma_lt_asymmetric(a, b);
    lemma_lt_irreflexive(a);
}

/// A path comes before itself followed by one more character.
pub proof fn lemma_lt_extend(a: Seq<char>, c: char)
    ensures
        path_lt(a, a.push(c)),
    decreases a.len(),
{
    if a.len() > 0 {
        assert(a.push(c).drop_first() =~= a.drop_first().push(c));
        lemma_lt_extend(a.drop_first(), c);
    }
}

/// Entries inside a directory: below `d`, or any entry but the root itself when
/// `d` is the root (the empty path).
pub open spec fn is_inside(p: Seq<char>, d: Seq<char>) -> bool {
    if d.len() == 0 {
        p.len() > 0
    } else {
        is_descendant(p, d)
    }
}

/// The block of a sorted list that lies inside the directory `d`.
pub fn inside_range<E: Entry>(s: &[E], d: &str) -> (r: (usize, usize))
    requires
        strictly_sorted(s@),
    ensures
        r.0 <= r.1 <= s@.len(),
        forall|k: int| 0 <= k < s@.len() ==> (is_inside(#[trigger] s@[k].key(), d@) <==> r.0 <= k < r.1),
        d@.len() > 0 ==> forall|k: int| 0 <= k < r.0 ==> path_lt(#[trigger] s@[k].key(), dir_prefix(d@)),
        d@.len() == 0 ==> forall|k: int| 0 <= k < r.0 ==> #[trigger] s@[k].key().len() == 0,
        d@.len() > 0 ==> forall|k: int| r.0 <= k < s@.len() ==> !path_lt(#[trigger] s@[k].key(), dir_prefix(d@)),
        d@.len() == 0 ==> r.0 <= 1 && (r.0 == 1 <==> (s@.len() > 0 && s@[0].key().len() == 0)),
{
    proof {
        lemma_strict_is_sorted(s@);
    }
    let dc = chars_of(d);
    if dc.len() == 0 {
        let mut start: usize = 0;
        if s.len() > 0 {
            let k0 = chars_of(s[0].path());
            if k0.len() == 0 {
                start = 1;
            }
        }
        proof {
            assert forall|k: int| 0 <= k < s@.len() implies (is_inside(#[trigger] s@[k].key(), d@) <==> start <= k < s@.len()) by {
                if k > 0 && s@[k].key().len() == 0 {
                    assert(path_lt(s@[0].key(), s@[k].key()));
                }
            }
        }
        return (start, s.len());
    }
    let mut q = dc.clone();
    q.push('/');
    proof {
        assert(q@ == dir_prefix(d@));
    }
    let start = lower_bound(s, &q);
    let mut end = start;
    while end < s.len() && is_child_of(s[end].path(), d)
        invariant
            sorted(s@),
            q@ == dir_prefix(d@),
            start <= end <= s@.len(),
            forall|k: int| start <= k < end ==> is_descendant(#[trigger] s@[k].key(), d@),
        decreases s@.len() - end,
    {
        end = end + 1;
    }
    proof {
        assert forall|k: int| 0 <= k < s@.len() implies (is_inside(#[trigger] s@[k].key(), d@) <==> start <= k < end) by {
            lemma_descendant_iff_prefix(s@[k].key(), d@);
            if k < start {
                if has_prefix(s@[k].key(), q@) {
                    lemma_prefix_not_below(s@[k].key(), q@);
                }
            } else if k >= end && is_descendant(s@[k].key(), d@) {
                // The entry at `end` lies between `q` and a descendant, so it is one too.
                assert(end < k);
                lemma_descendant_iff_prefix(s@[end as int].key(), d@);
                lemma_key_le(s@[end as int].key(), s@[k].key());
                lemma_prefix_between(q@, s@[end as int].key(), s@[k].key());
            }
        }
    }
    (start, end)
}

} // verus!
