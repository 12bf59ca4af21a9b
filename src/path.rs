//! Canonical paths and the order that the index keeps them in.
//!
//! A path is modelled by its characters (`Seq<char>`, the view of a `str`). Paths
//! are compared character by character on code points, which for UTF-8 text is
//! the same order as comparing the encoded bytes.
use std::cmp::Ordering;
use vstd::prelude::*;
use vstd::std_specs::iter::IteratorSpec;

verus! {

/// Strict lexicographic order on paths.
pub open spec fn path_lt(a: Seq<char>, b: Seq<char>) -> bool
    decreases a.len(),
{
    if a.len() == 0 {
        b.len() > 0
    } else if b.len() == 0 {
        false
    } else if a[0] != b[0] {
        a[0] < b[0]
    } else {
        path_lt(a.drop_first(), b.drop_first())
    }
}

pub open spec fn path_le(a: Seq<char>, b: Seq<char>) -> bool {
    path_lt(a, b) || a == b
}

pub open spec fn has_prefix(p: Seq<char>, q: Seq<char>) -> bool {
    q.len() <= p.len() && p.subrange(0, q.len() as int) == q
}

/// `p` lies strictly below the directory `d`: it starts with `d` followed by `/`.
pub open spec fn is_descendant(p: Seq<char>, d: Seq<char>) -> bool {
    p.len() > d.len() && p.subrange(0, d.len() as int) == d && p[d.len() as int] == '/'
}

/// `d` followed by a separator: every descendant of `d` starts with it.
pub open spec fn dir_prefix(d: Seq<char>) -> Seq<char> {
    d.push('/')
}

/// Every backslash replaced by a forward slash.
pub open spec fn forward_slashes(p: Seq<char>) -> Seq<char> {
    p.map_values(|c: char| if c == '\\' { '/' } else { c })
}

/// The canonical form of a path: forward slashes only, and one trailing slash
/// dropped unless the path is a single character.
pub open spec fn normalize(p: Seq<char>) -> Seq<char> {
    let r = forward_slashes(p);
    if r.len() > 1 && r.last() == '/' {
        r.drop_last()
    } else {
        r
    }
}

pub open spec fn is_canonical(p: Seq<char>) -> bool {
    normalize(p) == p
}

/// `d` joined with `name` by a separator.
pub open spec fn join(d: Seq<char>, name: Seq<char>) -> Seq<char> {
    d.push('/') + name
}

/// Position of the last `/` in `p`, or -1 when there is none.
pub open spec fn last_slash(p: Seq<char>) -> int
    decreases p.len(),
{
    if p.len() == 0 {
        -1
    } else if p.last() == '/' {
        p.len() - 1
    } else {
        last_slash(p.drop_last())
    }
}

/// The part of `p` after its last `/` (all of `p` when there is none).
pub open spec fn name_of(p: Seq<char>) -> Seq<char> {
    p.subrange(last_slash(p) + 1, p.len() as int)
}

/// The part of `p` before its last `/`, if it has one.
pub open spec fn parent_of(p: Seq<char>) -> Option<Seq<char>> {
    if last_slash(p) < 0 {
        None
    } else {
        Some(p.subrange(0, last_slash(p)))
    }
}

pub proof fn lemma_last_slash(p: Seq<char>)
    ensures
        -1 <= last_slash(p) < p.len(),
        last_slash(p) >= 0 ==> p[last_slash(p)] == '/',
        forall|i: int| last_slash(p) < i < p.len() ==> p[i] != '/',
    decreases p.len(),
{
    if p.len() > 0 && p.last() != '/' {
        let q = p.drop_last();
        lemma_last_slash(q);
        assert forall|i: int| last_slash(p) < i < p.len() implies p[i] != '/' by {
            if i < p.len() - 1 {
                assert(q[i] == p[i]);
            }
        }
    }
}

pub proof fn lemma_lt_irreflexive(a: Seq<char>)
    ensures
        !path_lt(a, a),
    decreases a.len(),
{
    if a.len() > 0 {
        lemma_lt_irreflexive(a.drop_first());
    }
}

pub proof fn lemma_lt_asymmetric(a: Seq<char>, b: Seq<char>)
    ensures
        path_lt(a, b) ==> !path_lt(b, a),
    decreases a.len(),
{
    if a.len() > 0 && b.len() > 0 && a[0] == b[0] {
        lemma_lt_asymmetric(a.drop_first(), b.drop_first());
    }
}

pub proof fn lemma_lt_transitive(a: Seq<char>, b: Seq<char>, c: Seq<char>)
    requires
        path_lt(a, b),
        path_lt(b, c),
    ensures
        path_lt(a, c),
    decreases a.len(),
{
    if a.len() > 0 && b.len() > 0 && c.len() > 0 && a[0] == b[0] && b[0] == c[0] {
        lemma_lt_transitive(a.drop_first(), b.drop_first(), c.drop_first());
    }
}

pub proof fn lemma_lt_total(a: Seq<char>, b: Seq<char>)
    ensures
        a == b || path_lt(a, b) || path_lt(b, a),
    decreases a.len(),
{
    if a.len() > 0 && b.len() > 0 && a[0] == b[0] {
        lemma_lt_total(a.drop_first(), b.drop_first());
        if a.drop_first() == b.drop_first() {
            assert(a =~= seq![a[0]] + a.drop_first());
            assert(b =~= seq![b[0]] + b.drop_first());
        }
    } else if a.len() == 0 && b.len() == 0 {
        assert(a =~= b);
    }
}

/// A path with prefix `q` is not below `q`.
pub proof fn lemma_prefix_not_below(p: Seq<char>, q: Seq<char>)
    requires
        has_prefix(p, q),
    ensures
        !path_lt(p, q),
    decreases q.len(),
{
    if q.len() > 0 {
        assert(p[0] == q[0]);
        assert(has_prefix(p.drop_first(), q.drop_first())) by {
            assert(p.drop_first().subrange(0, q.len() - 1) =~= q.drop_first());
        }
        lemma_prefix_not_below(p.drop_first(), q.drop_first());
    }
}

/// The paths with a given prefix form an interval of the order.
pub proof fn lemma_prefix_between(q: Seq<char>, y: Seq<char>, z: Seq<char>)
    requires
        has_prefix(z, q),
        !path_lt(y, q),
        path_le(y, z),
    ensures
        has_prefix(y, q),
    decreases q.len(),
{
    if q.len() > 0 {
        if y == z {
        } else {
            assert(y.len() > 0);
            assert(z[0] == q[0]);
            assert(y[0] == q[0]);
            assert(has_prefix(z.drop_first(), q.drop_first())) by {
                assert(z.drop_first().subrange(0, q.len() - 1) =~= q.drop_first());
            }
            lemma_prefix_between(q.drop_first(), y.drop_first(), z.drop_first());
            assert(y.subrange(0, q.len() as int) =~= seq![y[0]] + y.drop_first().subrange(
                0,
                q.len() - 1,
            ));
            assert(q =~= seq![q[0]] + q.drop_first());
        }
    } else {
        assert(y.subrange(0, 0) =~= q);
    }
}

pub proof fn lemma_descendant_iff_prefix(p: Seq<char>, d: Seq<char>)
    ensures
        is_descendant(p, d) <==> has_prefix(p, dir_prefix(d)),
{
    let n = d.len() as int;
    if is_descendant(p, d) {
        let q = p.subrange(0, n + 1);
        assert forall|k: int| 0 <= k < n + 1 implies q[k] == d.push('/')[k] by {
            if k < n {
                assert(p.subrange(0, n)[k] == d[k]);
            }
        }
        assert(q =~= d.push('/'));
    }
    if has_prefix(p, dir_prefix(d)) {
        let q = p.subrange(0, n + 1);
        assert(q == d.push('/'));
        assert(p.subrange(0, n) =~= q.drop_last());
        assert(d.push('/').drop_last() =~= d);
        assert(p[n] == q[n]);
    }
}

/// Every forward slash replaced by a backslash.
pub open spec fn back_slashes(p: Seq<char>) -> Seq<char> {
    p.map_values(|c: char| if c == '/' { '\\' } else { c })
}

/// A path lies below a directory exactly when it is the canonical form of the
/// directory joined with a non-empty name that holds no `/`. A backslash in the
/// name becomes a separator, so every path below the directory is reached, not
/// only its direct children. This needs no backslash in `d`, nor in `p` when `p`
/// lies below `d`: normalizing would turn it into a separator.
pub proof fn lemma_child_iff_join(p: Seq<char>, d: Seq<char>)
    requires
        !d.contains('\\'),
        is_descendant(p, d) ==> !p.contains('\\'),
    ensures
        is_descendant(p, d) <==> exists|name: Seq<char>|
            name.len() > 0 && !name.contains('/') && #[trigger] normalize(join(d, name)) == p,
{
    let n = d.len() as int;
    assert(forward_slashes(d) =~= d);
    assert forall|name: Seq<char>|
        name.len() > 0 && !name.contains('/') && #[trigger] normalize(join(d, name)) == p implies is_descendant(
        p,
        d,
    ) by {
        let r = forward_slashes(join(d, name));
        assert(r.len() == n + 1 + name.len());
        assert forall|k: int| 0 <= k < n implies r[k] == d[k] by {
            assert(join(d, name)[k] == d[k]);
        }
        assert(r[n] == '/') by {
            assert(join(d, name)[n] == '/');
        }
        let q = normalize(join(d, name));
        assert(q.len() >= n + 1);
        assert(q.subrange(0, n) =~= d);
        assert(q[n] == '/');
    }
    if is_descendant(p, d) {
        let rest = p.subrange(n + 1, p.len() as int);
        let b = back_slashes(rest);
        let name = if rest.len() == 0 || rest.last() == '/' {
            b.push('\\')
        } else {
            b
        };
        assert(!name.contains('/')) by {
            if name.contains('/') {
                let k = choose|k: int| 0 <= k < name.len() && name[k] == '/';
                if k < b.len() {
                    assert(b[k] == '/');
                }
            }
        }
        assert(forward_slashes(b) =~= rest) by {
            assert forall|k: int| 0 <= k < rest.len() implies forward_slashes(b)[k] == rest[k] by {
                assert(p[n + 1 + k] == rest[k]);
                if rest[k] == '\\' {
                    assert(p.contains('\\'));
                }
            }
        }
        assert(p =~= d.push('/') + rest) by {
            assert forall|k: int| 0 <= k < p.len() implies p[k] == (d.push('/') + rest)[k] by {
                if k < n {
                    assert(p.subrange(0, n)[k] == p[k]);
                }
            }
        }
        let j = forward_slashes(join(d, name));
        if rest.len() == 0 || rest.last() == '/' {
            assert(forward_slashes(name) =~= rest.push('/')) by {
                assert forall|k: int| 0 <= k < name.len() implies forward_slashes(name)[k] == rest.push('/')[k] by {
                    if k < b.len() {
                        assert(forward_slashes(b)[k] == rest[k]);
                    }
                }
            }
            assert(j =~= p.push('/'));
            assert(normalize(join(d, name)) =~= p);
        } else {
            assert(j =~= p);
            assert(normalize(join(d, name)) =~= p);
        }
        assert(name.len() > 0 && !name.contains('/') && normalize(join(d, name)) == p);
    }
}

/// The characters of `s`, in order.
pub fn chars_of(s: &str) -> (r: Vec<char>)
    ensures
        r@ == s@,
{
    broadcast use vstd::string::group_string_axioms;

    let mut it = s.chars();
    let mut out: Vec<char> = Vec::new();
    loop
        invariant
            out@ + it.remaining() == s@,
        ensures
            out@ == s@,
        decreases s@.len() - out@.len(),
    {
        let ghost before = it.remaining();
        match it.next() {
            Some(c) => {
                proof {
                    assert(out@.push(c) + it.remaining() =~= out@ + before);
                }
                out.push(c);
            },
            None => {
                assert(out@ + before =~= out@);
                break ;
            },
        }
    }
    out
}

/// Compares two paths in the index order.
pub fn compare_chars(a: &Vec<char>, b: &Vec<char>) -> (r: Ordering)
    ensures
        r == Ordering::Less <==> path_lt(a@, b@),
        r == Ordering::Equal <==> a@ == b@,
        r == Ordering::Greater <==> path_lt(b@, a@),
{
    proof {
        lemma_lt_total(a@, b@);
        lemma_lt_asymmetric(a@, b@);
        lemma_lt_irreflexive(a@);
    }
    let mut i: usize = 0;
    proof {
        assert(a@.skip(0) =~= a@);
        assert(b@.skip(0) =~= b@);
    }
    while i < a.len() && i < b.len()
        invariant
            i <= a@.len(),
            i <= b@.len(),
            a@.subrange(0, i as int) == b@.subrange(0, i as int),
            path_lt(a@, b@) == path_lt(a@.skip(i as int), b@.skip(i as int)),
            path_lt(b@, a@) == path_lt(b@.skip(i as int), a@.skip(i as int)),
        decreases a@.len() - i,
    {
        let ca = a[i];
        let cb = b[i];
        if ca != cb {
            proof {
                assert(a@.skip(i as int)[0] == ca);
                assert(b@.skip(i as int)[0] == cb);
            }
            if ca < cb {
                return Ordering::Less;
            } else {
                return Ordering::Greater;
            }
        }
        proof {
            assert(a@.skip(i as int).drop_first() =~= a@.skip(i + 1));
            assert(b@.skip(i as int).drop_first() =~= b@.skip(i + 1));
            assert(a@.subrange(0, i + 1) =~= a@.subrange(0, i as int).push(ca));
            assert(b@.subrange(0, i + 1) =~= b@.subrange(0, i as int).push(cb));
        }
        i = i + 1;
    }
    if a.len() == b.len() {
        proof {
            assert(a@ =~= a@.subrange(0, i as int));
            assert(b@ =~= b@.subrange(0, i as int));
        }
        Ordering::Equal
    } else if a.len() < b.len() {
        proof {
            assert(a@.skip(i as int).len() == 0);
        }
        Ordering::Less
    } else {
        proof {
            assert(b@.skip(i as int).len() == 0);
        }
        Ordering::Greater
    }
}

/// Compares two paths in the index order.
pub fn compare_paths(a: &str, b: &str) -> (r: Ordering)
    ensures
        r == Ordering::Less <==> path_lt(a@, b@),
        r == Ordering::Equal <==> a@ == b@,
        r == Ordering::Greater <==> path_lt(b@, a@),
{
    let ca = chars_of(a);
    let cb = chars_of(b);
    compare_chars(&ca, &cb)
}

/// Whether `path` lies strictly below the directory `dir`.
pub fn is_child_of(path: &str, dir: &str) -> (r: bool)
    ensures
        r == is_descendant(path@, dir@),
{
    let p = chars_of(path);
    let d = chars_of(dir);
    if p.len() <= d.len() {
        return false;
    }
    let mut i: usize = 0;
    while i < d.len()
        invariant
            p@ == path@,
            d@ == dir@,
            d@.len() < p@.len(),
            i <= d@.len(),
            p@.subrange(0, i as int) == d@.subrange(0, i as int),
        decreases d@.len() - i,
    {
        if p[i] != d[i] {
            proof {
                assert(p@.subrange(0, d@.len() as int)[i as int] != d@[i as int]);
                assert(p@.subrange(0, d@.len() as int) != d@);
            }
            return false;
        }
        proof {
            assert(p@.subrange(0, i + 1) =~= p@.subrange(0, i as int).push(p@[i as int]));
            assert(d@.subrange(0, i + 1) =~= d@.subrange(0, i as int).push(d@[i as int]));
        }
        i = i + 1;
    }
    proof {
        assert(d@.subrange(0, i as int) =~= d@);
    }
    p[i] == '/'
}

/// Replaces every backslash with a forward slash.
/// Relies on `str::replace`, which replaces every match of the pattern.
#[verifier::external_body]
fn replace_backslashes(s: &str) -> (r: String)
    ensures
        r@ == forward_slashes(s@),
{
    s.replace('\\', "/")
}

/// The canonical form of `path`: forward slashes, without a trailing slash.
pub fn normalized_path(path: &str) -> (r: String)
    ensures
        r@ == normalize(path@),
{
    let replaced = replace_backslashes(path);
    let s = replaced.as_str();
    let n = s.unicode_len();
    if n > 1 && s.get_char(n - 1) == '/' {
        s.substring_char(0, n - 1).to_owned()
    } else {
        replaced
    }
}

fn last_slash_index(p: &Vec<char>) -> (r: Option<usize>)
    ensures
        r matches Some(i) ==> last_slash(p@) == i,
        r is None ==> last_slash(p@) == -1,
{
    let mut i: usize = p.len();
    proof {
        assert(p@.subrange(0, i as int) =~= p@);
    }
    while i > 0
        invariant
            i <= p@.len(),
            last_slash(p@) == last_slash(p@.subrange(0, i as int)),
        decreases i,
    {
        proof {
            assert(p@.subrange(0, i - 1) =~= p@.subrange(0, i as int).drop_last());
        }
        if p[i - 1] == '/' {
            return Some(i - 1);
        }
        i = i - 1;
    }
    None
}

/// The part of `path` before its last `/`, or `None` when it has none.
pub fn parent_str(path: &str) -> (r: Option<&str>)
    ensures
        r matches Some(q) ==> parent_of(path@) == Some(q@),
        r is None ==> parent_of(path@) is None,
{
    let p = chars_of(path);
    proof {
        lemma_last_slash(p@);
    }
    match last_slash_index(&p) {
        Some(i) => Some(path.substring_char(0, i)),
        None => None,
    }
}

/// The part of `path` after its last `/`.
pub fn name_str(path: &str) -> (r: &str)
    ensures
        r@ == name_of(path@),
{
    let p = chars_of(path);
    proof {
        lemma_last_slash(p@);
    }
    match last_slash_index(&p) {
        Some(i) => path.substring_char(i + 1, p.len()),
        None => path.substring_char(0, p.len()),
    }
}

} // verus!
