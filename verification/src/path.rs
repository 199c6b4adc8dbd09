//! Paths as strings, with the joining and comparison rules of Unix paths.
use vstd::prelude::*;
use crate::text::{append_chars, chars_eq, chars_of, split_chars, split_on, string_of};

verus! {

/// `base.join(p)` for Unix paths: an absolute `p` replaces `base`; otherwise
/// `p` follows `base`, separated by `/` unless `base` is empty or already
/// ends with `/`.
pub open spec fn path_join(base: Seq<char>, p: Seq<char>) -> Seq<char> {
    if p.len() > 0 && p[0] == '/' {
        p
    } else if base.len() == 0 || base.last() == '/' {
        base + p
    } else {
        base + seq!['/'] + p
    }
}

/// Joins two paths.
pub fn join_path(base: &str, p: &str) -> (r: String)
    ensures
        r@ == path_join(base@, p@),
{
    let b = chars_of(base);
    let q = chars_of(p);
    if q.len() > 0 && q[0] == '/' {
        return string_of(&q);
    }
    let mut out = b;
    if out.len() > 0 && out[out.len() - 1] != '/' {
        out.push('/');
    }
    append_chars(&mut out, &q);
    string_of(&out)
}

/// The components of a Unix path, as `Path::components` gives them, each
/// written as a string: `/` for the root, `.` for a leading current
/// directory, `..` for a parent and the name otherwise.  Empty parts and
/// `.` parts after the first are dropped.
pub open spec fn path_components(s: Seq<char>) -> Seq<Seq<char>> {
    let parts = split_on(s, '/');
    let rooted = s.len() > 0 && s[0] == '/';
    (if rooted {
        seq![seq!['/']]
    } else {
        Seq::empty()
    }) + components_from(parts, 0, rooted)
}

/// The components that the parts from index `i` on contribute.
pub open spec fn components_from(parts: Seq<Seq<char>>, i: int, rooted: bool) -> Seq<Seq<char>>
    decreases parts.len() - i,
{
    if i < 0 || i >= parts.len() {
        Seq::empty()
    } else {
        let p = parts[i];
        let keep = p.len() > 0 && (p != seq!['.'] || (i == 0 && !rooted));
        (if keep {
            seq![p]
        } else {
            Seq::empty()
        }) + components_from(parts, i + 1, rooted)
    }
}

/// Two paths name the same location as `Path`'s `==` decides: their
/// components are equal.
pub open spec fn same_path(a: Seq<char>, b: Seq<char>) -> bool {
    path_components(a) == path_components(b)
}

/// Two paths are the same path exactly when they have the same components,
/// one by one: paths that differ in any component, a directory as much as
/// the file name, are different paths.
pub proof fn lemma_same_path_components(a: Seq<char>, b: Seq<char>)
    ensures
        same_path(a, b) <==> (path_components(a).len() == path_components(b).len() && forall|i: int|
            0 <= i < path_components(a).len() ==> #[trigger] path_components(a)[i]
                == path_components(b)[i]),
{
    if path_components(a).len() == path_components(b).len() && forall|i: int|
        0 <= i < path_components(a).len() ==> #[trigger] path_components(a)[i]
            == path_components(b)[i] {
        assert(path_components(a) =~= path_components(b));
    }
}

/// The components of a path.
pub fn components(s: &Vec<char>) -> (r: Vec<Vec<char>>)
    ensures
        r@.map_values(|c: Vec<char>| c@) == path_components(s@),
{
    let parts = split_chars(s, '/');
    let ghost ps = parts@.map_values(|p: Vec<char>| p@);
    let rooted = s.len() > 0 && s[0] == '/';
    let mut r: Vec<Vec<char>> = Vec::new();
    if rooted {
        let root = vec!['/'];
        assert(root@ =~= seq!['/']);
        r.push(root);
    }
    let ghost head = r@.map_values(|c: Vec<char>| c@);
    assert(head =~= (if rooted {
        seq![seq!['/']]
    } else {
        Seq::<Seq<char>>::empty()
    }));
    let mut i: usize = 0;
    assert(head =~= head + Seq::<Seq<char>>::empty());
    while i < parts.len()
        invariant
            ps == parts@.map_values(|p: Vec<char>| p@),
            ps == split_on(s@, '/'),
            i <= parts@.len(),
            path_components(s@) == r@.map_values(|c: Vec<char>| c@) + components_from(
                ps,
                i as int,
                rooted,
            ),
            rooted == (s@.len() > 0 && s@[0] == '/'),
        decreases parts@.len() - i,
    {
        let p = &parts[i];
        assert(ps[i as int] == p@);
        let dot = vec!['.'];
        assert(dot@ =~= seq!['.']);
        let keep = p.len() > 0 && (!chars_eq(p, &dot) || (i == 0 && !rooted));
        let ghost before = r@.map_values(|c: Vec<char>| c@);
        assert(components_from(ps, i as int, rooted) == (if keep {
            seq![p@]
        } else {
            Seq::<Seq<char>>::empty()
        }) + components_from(ps, i + 1, rooted));
        if keep {
            let mut q: Vec<char> = Vec::new();
            append_chars(&mut q, p);
            assert(q@ =~= p@);
            r.push(q);
            assert(r@.map_values(|c: Vec<char>| c@) =~= before + seq![p@]);
        } else {
            assert(before + Seq::<Seq<char>>::empty() =~= before);
        }
        i = i + 1;
    }
    r
}

/// Whether two paths name the same location.
pub fn paths_equal(a: &str, b: &str) -> (r: bool)
    ensures
        r == same_path(a@, b@),
{
    let va = chars_of(a);
    let vb = chars_of(b);
    let ca = components(&va);
    let cb = components(&vb);
    let ghost ma = ca@.map_values(|c: Vec<char>| c@);
    let ghost mb = cb@.map_values(|c: Vec<char>| c@);
    assert(ma == path_components(a@));
    assert(mb == path_components(b@));
    if ca.len() != cb.len() {
        assert(ca@.map_values(|c: Vec<char>| c@).len() != cb@.map_values(|c: Vec<char>| c@).len());
        return false;
    }
    let mut i: usize = 0;
    while i < ca.len()
        invariant
            ca@.len() == cb@.len(),
            ma == ca@.map_values(|c: Vec<char>| c@),
            mb == cb@.map_values(|c: Vec<char>| c@),
            ma == path_components(a@),
            mb == path_components(b@),
            i <= ca@.len(),
            forall|j: int| 0 <= j < i ==> ca@[j]@ == cb@[j]@,
        decreases ca@.len() - i,
    {
        if !chars_eq(&ca[i], &cb[i]) {
            assert(ma[i as int] != mb[i as int]);
            return false;
        }
        i = i + 1;
    }
    assert(ca@.map_values(|c: Vec<char>| c@) =~= cb@.map_values(|c: Vec<char>| c@));
    true
}

} // verus!
