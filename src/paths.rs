//! Paths as sequences of components, and the string helpers they need.
use vstd::prelude::*;

verus! {

/// A path, seen as the sequence of its components (the filesystem root is
/// the empty sequence).
pub type PathV = Seq<Seq<char>>;

/// `p` lies strictly below the directory `dir`.
pub open spec fn below(dir: PathV, p: PathV) -> bool {
    dir.len() < p.len() && dir =~= p.subrange(0, dir.len() as int)
}

/// The view of a path held as a vector of components.
pub open spec fn pv(p: &Vec<String>) -> PathV {
    p.deep_view()
}

/// Whether `p` starts with the components of `prefix`.
pub fn path_starts_with(p: &Vec<String>, prefix: &Vec<String>) -> (r: bool)
    ensures
        r == pv(prefix).is_prefix_of(pv(p)),
{
    if prefix.len() > p.len() {
        return false;
    }
    let mut i: usize = 0;
    while i < prefix.len()
        invariant
            0 <= i <= prefix.len() <= p.len(),
            forall|j: int| 0 <= j < i ==> pv(prefix)[j] == pv(p)[j],
        decreases prefix.len() - i,
    {
        if prefix[i] != p[i] {
            assert(pv(prefix)[i as int] != pv(p)[i as int]);
            return false;
        }
        i += 1;
    }
    assert(pv(prefix) =~= pv(p).subrange(0, pv(prefix).len() as int));
    true
}

/// Whether `p` lies strictly below `dir`.
pub fn path_is_below(dir: &Vec<String>, p: &Vec<String>) -> (r: bool)
    ensures
        r == below(pv(dir), pv(p)),
{
    dir.len() < p.len() && path_starts_with(p, dir)
}

/// Whether two paths are equal.
pub fn path_eq(a: &Vec<String>, b: &Vec<String>) -> (r: bool)
    ensures
        r == (pv(a) == pv(b)),
{
    let r = a.len() == b.len() && path_starts_with(a, b);
    proof {
        assert(pv(a).len() == a.len() && pv(b).len() == b.len());
        if a.len() == b.len() && pv(b).is_prefix_of(pv(a)) {
            assert(pv(a) =~= pv(b));
        }
    }
    r
}

/// A copy of `p[from..]`.
pub fn path_slice(p: &Vec<String>, from: usize) -> (r: Vec<String>)
    requires
        from <= p.len(),
    ensures
        pv(&r) == pv(p).subrange(from as int, p.len() as int),
{
    let mut r: Vec<String> = Vec::new();
    let mut i: usize = from;
    while i < p.len()
        invariant
            from <= i <= p.len(),
            pv(&r) =~= pv(p).subrange(from as int, i as int),
        decreases p.len() - i,
    {
        let ghost before = pv(&r);
        r.push(p[i].clone());
        assert(pv(&r) =~= before.push(pv(p)[i as int]));
        i += 1;
    }
    r
}

/// A copy of `p`.
pub fn path_clone(p: &Vec<String>) -> (r: Vec<String>)
    ensures
        pv(&r) == pv(p),
{
    let r = path_slice(p, 0);
    assert(pv(p).subrange(0, p.len() as int) =~= pv(p));
    r
}

/// The path `a` followed by the components of `b`.
pub fn path_join(a: &Vec<String>, b: &Vec<String>) -> (r: Vec<String>)
    ensures
        pv(&r) == pv(a) + pv(b),
{
    let mut r = path_clone(a);
    let mut i: usize = 0;
    while i < b.len()
        invariant
            0 <= i <= b.len(),
            pv(&r) =~= pv(a) + pv(b).subrange(0, i as int),
        decreases b.len() - i,
    {
        let ghost before = pv(&r);
        r.push(b[i].clone());
        assert(pv(&r) =~= before.push(pv(b)[i as int]));
        i += 1;
    }
    assert(pv(b).subrange(0, b.len() as int) =~= pv(b));
    r
}

/// The path `a` with one more component `c`.
pub fn path_child(a: &Vec<String>, c: &str) -> (r: Vec<String>)
    ensures
        pv(&r) == pv(a).push(c@),
{
    let mut r = path_clone(a);
    r.push(c.to_owned());
    assert(pv(&r) =~= pv(a).push(c@));
    r
}

/// Whether the text `s` ends with `suffix`.
pub fn str_ends_with(s: &str, suffix: &str) -> (r: bool)
    ensures
        r == suffix@.is_suffix_of(s@),
{
    let n = s.unicode_len();
    let m = suffix.unicode_len();
    if m > n {
        return false;
    }
    let off = n - m;
    let mut i: usize = 0;
    while i < m
        invariant
            n == s@.len(),
            m == suffix@.len(),
            off == n - m,
            0 <= i <= m,
            forall|j: int| 0 <= j < i ==> suffix@[j] == s@[off + j],
        decreases m - i,
    {
        if s.get_char(off + i) != suffix.get_char(i) {
            assert(s@.subrange(off as int, n as int)[i as int] != suffix@[i as int]);
            return false;
        }
        i += 1;
    }
    assert(suffix@ =~= s@.subrange(off as int, n as int));
    true
}

/// Whether the text `s` starts with `prefix`.
pub fn str_starts_with(s: &str, prefix: &str) -> (r: bool)
    ensures
        r == prefix@.is_prefix_of(s@),
{
    let n = s.unicode_len();
    let m = prefix.unicode_len();
    if m > n {
        return false;
    }
    let mut i: usize = 0;
    while i < m
        invariant
            n == s@.len(),
            m == prefix@.len(),
            m <= n,
            0 <= i <= m,
            forall|j: int| 0 <= j < i ==> prefix@[j] == s@[j],
        decreases m - i,
    {
        if s.get_char(i) != prefix.get_char(i) {
            assert(s@.subrange(0, m as int)[i as int] != prefix@[i as int]);
            return false;
        }
        i += 1;
    }
    assert(prefix@ =~= s@.subrange(0, m as int));
    true
}

/// Whether two texts are equal.
pub fn str_eq(a: &str, b: &str) -> (r: bool)
    ensures
        r == (a@ == b@),
{
    let r = a.unicode_len() == b.unicode_len() && str_starts_with(a, b);
    proof {
        if a@.len() == b@.len() && b@.is_prefix_of(a@) {
            assert(a@ =~= b@);
        }
    }
    r
}

/// Whether the list of names `v` holds `s`.
pub fn names_contain(v: &Vec<String>, s: &str) -> (r: bool)
    ensures
        r == pv(v).contains(s@),
{
    let mut i: usize = 0;
    while i < v.len()
        invariant
            0 <= i <= v.len(),
            forall|j: int| 0 <= j < i ==> pv(v)[j] != s@,
        decreases v.len() - i,
    {
        if str_eq(v[i].as_str(), s) {
            assert(pv(v)[i as int] == s@);
            return true;
        }
        i += 1;
    }
    false
}

} // verus!
