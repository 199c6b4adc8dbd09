//! The search for a common ancestor of two commits.  Reading a commit is
//! the caller's work: the search says which commit's parents it needs next
//! and is given them, so that it decides while the caller reads.
use vstd::prelude::*;
use crate::text::{chars_eq, chars_of};

verus! {

/// Each step of `p` goes from a commit to one of its parents in `g`.
pub open spec fn is_walk(g: Map<Seq<char>, Seq<Seq<char>>>, p: Seq<Seq<char>>) -> bool {
    forall|i: int|
        0 <= i < p.len() - 1 ==> g.dom().contains(#[trigger] p[i]) && g[p[i]].contains(p[i + 1])
}

/// `y` is reached from `x` by following parents in `g` (or is `x`).
pub open spec fn reaches(g: Map<Seq<char>, Seq<Seq<char>>>, x: Seq<char>, y: Seq<char>) -> bool {
    exists|p: Seq<Seq<char>>| p.len() > 0 && p[0] == x && p.last() == y && #[trigger] is_walk(g, p)
}

proof fn lemma_reaches_self(g: Map<Seq<char>, Seq<Seq<char>>>, x: Seq<char>)
    ensures
        reaches(g, x, x),
{
    let p = seq![x];
    assert(is_walk(g, p));
}

proof fn lemma_reaches_step(
    g: Map<Seq<char>, Seq<Seq<char>>>,
    x: Seq<char>,
    z: Seq<char>,
    y: Seq<char>,
)
    requires
        reaches(g, x, z),
        g.dom().contains(z),
        g[z].contains(y),
    ensures
        reaches(g, x, y),
{
    let p = choose|p: Seq<Seq<char>>| p.len() > 0 && p[0] == x && p.last() == z && #[trigger] is_walk(g, p);
    let q = p.push(y);
    assert forall|i: int| 0 <= i < q.len() - 1 implies g.dom().contains(#[trigger] q[i]) && g[q[i]].contains(
        q[i + 1],
    ) by {
        if i < p.len() - 1 {
            assert(q[i] == p[i] && q[i + 1] == p[i + 1]);
        } else {
            assert(q[i] == z && q[i + 1] == y);
        }
    }
    assert(q[0] == x && q.last() == y);
    assert(is_walk(g, q));
}

/// Walks stay walks when the graph learns the parents of a new commit.
proof fn lemma_reaches_grow(
    g: Map<Seq<char>, Seq<Seq<char>>>,
    h: Seq<char>,
    ps: Seq<Seq<char>>,
    x: Seq<char>,
    y: Seq<char>,
)
    requires
        !g.dom().contains(h),
        reaches(g, x, y),
    ensures
        reaches(g.insert(h, ps), x, y),
{
    let g2 = g.insert(h, ps);
    let p = choose|p: Seq<Seq<char>>| p.len() > 0 && p[0] == x && p.last() == y && #[trigger] is_walk(g, p);
    assert forall|i: int| 0 <= i < p.len() - 1 implies g2.dom().contains(#[trigger] p[i]) && g2[p[i]].contains(
        p[i + 1],
    ) by {
        assert(g.dom().contains(p[i]));
        assert(p[i] != h);
    }
    assert(is_walk(g2, p));
}

/// `y` is reached from `x` in at most `n` steps.
pub open spec fn reaches_within(
    g: Map<Seq<char>, Seq<Seq<char>>>,
    x: Seq<char>,
    y: Seq<char>,
    n: nat,
) -> bool {
    exists|p: Seq<Seq<char>>|
        0 < p.len() <= n + 1 && p[0] == x && p.last() == y && #[trigger] is_walk(g, p)
}

proof fn lemma_within_self(g: Map<Seq<char>, Seq<Seq<char>>>, x: Seq<char>, n: nat)
    ensures
        reaches_within(g, x, x, n),
{
    let p = seq![x];
    assert(is_walk(g, p));
}

proof fn lemma_within_step(
    g: Map<Seq<char>, Seq<Seq<char>>>,
    x: Seq<char>,
    z: Seq<char>,
    y: Seq<char>,
    n: nat,
)
    requires
        reaches_within(g, x, z, n),
        g.dom().contains(z),
        g[z].contains(y),
    ensures
        reaches_within(g, x, y, n + 1),
{
    let p = choose|p: Seq<Seq<char>>|
        0 < p.len() <= n + 1 && p[0] == x && p.last() == z && #[trigger] is_walk(g, p);
    let q = p.push(y);
    assert forall|i: int| 0 <= i < q.len() - 1 implies g.dom().contains(#[trigger] q[i]) && g[q[i]].contains(
        q[i + 1],
    ) by {
        if i < p.len() - 1 {
            assert(q[i] == p[i] && q[i + 1] == p[i + 1]);
        } else {
            assert(q[i] == z && q[i + 1] == y);
        }
    }
    assert(q[0] == x && q.last() == y);
    assert(is_walk(g, q));
}

proof fn lemma_within_grow(
    g: Map<Seq<char>, Seq<Seq<char>>>,
    h: Seq<char>,
    ps: Seq<Seq<char>>,
    x: Seq<char>,
    y: Seq<char>,
    n: nat,
)
    requires
        !g.dom().contains(h),
        reaches_within(g, x, y, n),
    ensures
        reaches_within(g.insert(h, ps), x, y, n),
{
    let g2 = g.insert(h, ps);
    let p = choose|p: Seq<Seq<char>>|
        0 < p.len() <= n + 1 && p[0] == x && p.last() == y && #[trigger] is_walk(g, p);
    assert forall|i: int| 0 <= i < p.len() - 1 implies g2.dom().contains(#[trigger] p[i]) && g2[p[i]].contains(
        p[i + 1],
    ) by {
        assert(g.dom().contains(p[i]));
        assert(p[i] != h);
    }
    assert(is_walk(g2, p));
}

proof fn lemma_within_more(g: Map<Seq<char>, Seq<Seq<char>>>, x: Seq<char>, y: Seq<char>, n: nat, m: nat)
    requires
        reaches_within(g, x, y, n),
        n <= m,
    ensures
        reaches_within(g, x, y, m),
{
    let p = choose|p: Seq<Seq<char>>|
        0 < p.len() <= n + 1 && p[0] == x && p.last() == y && #[trigger] is_walk(g, p);
    assert(0 < p.len() <= m + 1);
}

/// `big` gives every commit that `g` gives parents for the same parents: a
/// graph of which `g` is a part.
pub open spec fn extends(big: Map<Seq<char>, Seq<Seq<char>>>, g: Map<Seq<char>, Seq<Seq<char>>>) -> bool {
    forall|k: Seq<char>| #[trigger] g.dom().contains(k) ==> big.dom().contains(k) && big[k] == g[k]
}

/// Every commit of `s` has been given parents, and they are all in `s`.
pub open spec fn closed_under(g: Map<Seq<char>, Seq<Seq<char>>>, s: Seq<Seq<char>>) -> bool {
    forall|x: Seq<char>|
        #[trigger] s.contains(x) ==> g.dom().contains(x) && forall|p: Seq<char>|
            #[trigger] g[x].contains(p) ==> s.contains(p)
}

proof fn lemma_closed_walk(
    g: Map<Seq<char>, Seq<Seq<char>>>,
    s: Seq<Seq<char>>,
    w: Seq<Seq<char>>,
    i: int,
)
    requires
        closed_under(g, s),
        is_walk(g, w),
        0 <= i < w.len(),
        s.contains(w[0]),
    ensures
        s.contains(w[i]),
    decreases i,
{
    if i > 0 {
        lemma_closed_walk(g, s, w, i - 1);
        assert(g.dom().contains(w[i - 1]) && g[w[i - 1]].contains(w[i - 1 + 1]));
    }
}

/// What is reached from a commit of a closed set is in the set.
pub proof fn lemma_closed_reaches(
    g: Map<Seq<char>, Seq<Seq<char>>>,
    s: Seq<Seq<char>>,
    x: Seq<char>,
    y: Seq<char>,
)
    requires
        closed_under(g, s),
        s.contains(x),
        reaches(g, x, y),
    ensures
        s.contains(y),
{
    let w = choose|w: Seq<Seq<char>>| w.len() > 0 && w[0] == x && w.last() == y && #[trigger] is_walk(g, w);
    lemma_closed_walk(g, s, w, w.len() - 1);
}

/// A set closed in a graph stays closed in every graph it is part of.
proof fn lemma_closed_extends(
    g: Map<Seq<char>, Seq<Seq<char>>>,
    big: Map<Seq<char>, Seq<Seq<char>>>,
    s: Seq<Seq<char>>,
)
    requires
        closed_under(g, s),
        extends(big, g),
    ensures
        closed_under(big, s),
{
    assert forall|x: Seq<char>| #[trigger] s.contains(x) implies big.dom().contains(x) && forall|
        p: Seq<char>,
    | #[trigger] big[x].contains(p) ==> s.contains(p) by {
        assert(g.dom().contains(x));
        assert(big[x] == g[x]);
    }
}

/// The graph of the parents given so far is part of itself.
proof fn lemma_extends_self(g: Map<Seq<char>, Seq<Seq<char>>>)
    ensures
        extends(g, g),
{
}

/// Once the ancestors of `a` are closed, and the visiting from `b` has used
/// up its queue, every ancestor of `a` and of `b` has been given its
/// parents, and in every graph that the given parents are part of, no commit
/// is reached from both.
proof fn lemma_not_found(
    g: Map<Seq<char>, Seq<Seq<char>>>,
    anc: Seq<Seq<char>>,
    vis: Seq<Seq<char>>,
    q: Seq<String>,
    f: int,
    sa: Seq<char>,
    sb: Seq<char>,
)
    requires
        closed_under(g, anc),
        anc.contains(sa),
        frontier_closed(g, vis, None, q, f),
        f >= q.len(),
        vis.contains(sb) || pending_in(q, f, sb),
        forall|x: Seq<char>| #[trigger] vis.contains(x) ==> !anc.contains(x),
    ensures
        forall|x: Seq<char>| #[trigger] reaches(g, sa, x) ==> g.dom().contains(x),
        forall|x: Seq<char>| #[trigger] reaches(g, sb, x) ==> g.dom().contains(x),
        forall|big: Map<Seq<char>, Seq<Seq<char>>>, h: Seq<char>|
            extends(big, g) ==> !(reaches(big, sa, h) && #[trigger] reaches(big, sb, h)),
{
    lemma_frontier_done(g, vis, q, f);
    assert(vis.contains(sb));
    assert forall|x: Seq<char>| #[trigger] reaches(g, sa, x) implies g.dom().contains(x) by {
        lemma_closed_reaches(g, anc, sa, x);
    }
    assert forall|x: Seq<char>| #[trigger] reaches(g, sb, x) implies g.dom().contains(x) by {
        lemma_closed_reaches(g, vis, sb, x);
    }
    assert forall|big: Map<Seq<char>, Seq<Seq<char>>>, h: Seq<char>|
        extends(big, g) implies !(reaches(big, sa, h) && #[trigger] reaches(big, sb, h)) by {
        if reaches(big, sa, h) && reaches(big, sb, h) {
            lemma_closed_extends(g, big, anc);
            lemma_closed_extends(g, big, vis);
            lemma_closed_reaches(big, anc, sa, h);
            lemma_closed_reaches(big, vis, sb, h);
        }
    }
}

/// What the search asks for or has found.
#[derive(Debug, Clone, PartialEq, Eq)]
pub enum LcaStep {
    /// The parents of this commit are needed (none if it cannot be read as
    /// a commit).
    NeedParents(String),
    /// A common ancestor.
    Found(String),
    /// The two commits have no common ancestor.
    NotFound,
}

/// A breadth-first search for a common ancestor of `a` and `b`: first every
/// ancestor of `a` is collected, then the ancestors of `b` are visited in
/// breadth-first order until one of them is an ancestor of `a`.
pub struct LcaSearch {
    start_a: String,
    start_b: String,
    /// Whether the ancestors of `a` are collected and those of `b` visited.
    in_b: bool,
    /// The commits to look at; those before `front` were taken.
    queue: Vec<String>,
    front: usize,
    ancestors: Vec<String>,
    visited: Vec<String>,
    /// The commit whose parents are needed.
    awaiting: Option<String>,
    /// The parents given so far.
    graph: Ghost<Map<Seq<char>, Seq<Seq<char>>>>,
    /// While visiting from `b`: the breadth-first level of each queued commit.
    labels: Ghost<Seq<nat>>,
    /// While visiting from `b`: the level each visited commit was taken at.
    depth: Ghost<Map<Seq<char>, nat>>,
}

/// The characters of each string.
pub open spec fn views(v: Seq<String>) -> Seq<Seq<char>> {
    v.map_values(|s: String| s@)
}

/// `p` waits in the queue `q` at or after position `front`.
pub open spec fn pending_in(q: Seq<String>, front: int, p: Seq<char>) -> bool {
    exists|i: int| front <= i < q.len() && #[trigger] views(q)[i] == p
}

/// Every commit of `s` but the awaited one has been given parents, and each
/// of them is in `s` or waits in the queue.
pub open spec fn frontier_closed(
    g: Map<Seq<char>, Seq<Seq<char>>>,
    s: Seq<Seq<char>>,
    awaited: Option<Seq<char>>,
    q: Seq<String>,
    front: int,
) -> bool {
    forall|x: Seq<char>|
        #[trigger] s.contains(x) && awaited != Some(x) ==> g.dom().contains(x) && forall|p: Seq<char>|
            #[trigger] g[x].contains(p) ==> s.contains(p) || pending_in(q, front, p)
}

proof fn lemma_pending_pop(q: Seq<String>, front: int, p: Seq<char>)
    requires
        0 <= front < q.len(),
        pending_in(q, front, p),
    ensures
        pending_in(q, front + 1, p) || views(q)[front] == p,
{
    let i = choose|i: int| front <= i < q.len() && #[trigger] views(q)[i] == p;
    if i > front {
        assert(front + 1 <= i < q.len() && views(q)[i] == p);
    }
}

proof fn lemma_pending_push(q: Seq<String>, front: int, s: String, p: Seq<char>)
    requires
        0 <= front,
        pending_in(q, front, p),
    ensures
        pending_in(q.push(s), front, p),
{
    let i = choose|i: int| front <= i < q.len() && #[trigger] views(q)[i] == p;
    assert(views(q.push(s))[i] == q.push(s)[i]@);
    assert(q.push(s)[i] == q[i]);
}

proof fn lemma_pending_new(q: Seq<String>, front: int, s: String)
    requires
        0 <= front <= q.len(),
    ensures
        pending_in(q.push(s), front, s@),
{
    assert(views(q.push(s))[q.len() as int] == s@);
}

/// With nothing awaited and nothing queued, a frontier-closed set is closed.
proof fn lemma_frontier_done(
    g: Map<Seq<char>, Seq<Seq<char>>>,
    s: Seq<Seq<char>>,
    q: Seq<String>,
    front: int,
)
    requires
        frontier_closed(g, s, None, q, front),
        front >= q.len(),
    ensures
        closed_under(g, s),
{
    assert forall|x: Seq<char>| #[trigger] s.contains(x) implies g.dom().contains(x) && forall|
        p: Seq<char>,
    | #[trigger] g[x].contains(p) ==> s.contains(p) by {
        assert(None::<Seq<char>> != Some(x));
    }
}

/// Taking the front of the queue into the set keeps it frontier-closed.
proof fn lemma_frontier_pop(
    g: Map<Seq<char>, Seq<Seq<char>>>,
    s: Seq<Seq<char>>,
    s2: Seq<Seq<char>>,
    awaited2: Option<Seq<char>>,
    q: Seq<String>,
    front: int,
)
    requires
        frontier_closed(g, s, None, q, front),
        0 <= front < q.len(),
        s2.contains(views(q)[front]),
        forall|x: Seq<char>| s.contains(x) ==> #[trigger] s2.contains(x),
        forall|x: Seq<char>| #[trigger] s2.contains(x) && awaited2 != Some(x) ==> s.contains(x),
    ensures
        frontier_closed(g, s2, awaited2, q, front + 1),
{
    assert forall|x: Seq<char>| #[trigger] s2.contains(x) && awaited2 != Some(x) implies g.dom().contains(
        x,
    ) && forall|p: Seq<char>| #[trigger] g[x].contains(p) ==> s2.contains(p) || pending_in(
        q,
        front + 1,
        p,
    ) by {
        assert(s.contains(x));
        assert(None::<Seq<char>> != Some(x));
        assert forall|p: Seq<char>| #[trigger] g[x].contains(p) implies s2.contains(p) || pending_in(
            q,
            front + 1,
            p,
        ) by {
            if !s.contains(p) {
                lemma_pending_pop(q, front, p);
            }
        }
    }
}

/// A commit in the set or in the queue stays so when the front of the queue
/// joins the set.
proof fn lemma_seen_pop(
    s: Seq<Seq<char>>,
    s2: Seq<Seq<char>>,
    q: Seq<String>,
    front: int,
    t: Seq<char>,
)
    requires
        s.contains(t) || pending_in(q, front, t),
        0 <= front < q.len(),
        s2.contains(views(q)[front]),
        forall|x: Seq<char>| s.contains(x) ==> #[trigger] s2.contains(x),
    ensures
        s2.contains(t) || pending_in(q, front + 1, t),
{
    if !s.contains(t) {
        lemma_pending_pop(q, front, t);
    }
}

/// `p` waits in the queue at or after position `front` with a label of at
/// most `n`.
pub open spec fn pending_le(
    q: Seq<String>,
    labels: Seq<nat>,
    front: int,
    p: Seq<char>,
    n: nat,
) -> bool {
    exists|j: int| front <= j < q.len() && #[trigger] views(q)[j] == p && labels[j] <= n
}

/// The labels never decrease along the queue.
pub open spec fn sorted_labels(labels: Seq<nat>) -> bool {
    forall|i: int, j: int| 0 <= i <= j < labels.len() ==> #[trigger] labels[i] <= #[trigger] labels[j]
}

proof fn lemma_pending_le_pop(q: Seq<String>, labels: Seq<nat>, front: int, p: Seq<char>, n: nat)
    requires
        0 <= front < q.len(),
        pending_le(q, labels, front, p, n),
    ensures
        pending_le(q, labels, front + 1, p, n) || (views(q)[front] == p && labels[front] <= n),
{
    let j = choose|j: int| front <= j < q.len() && #[trigger] views(q)[j] == p && labels[j] <= n;
    if j > front {
        assert(front + 1 <= j < q.len() && views(q)[j] == p && labels[j] <= n);
    }
}

proof fn lemma_pending_le_push(
    q: Seq<String>,
    labels: Seq<nat>,
    front: int,
    s: String,
    m: nat,
    p: Seq<char>,
    n: nat,
)
    requires
        0 <= front,
        labels.len() == q.len(),
        pending_le(q, labels, front, p, n),
    ensures
        pending_le(q.push(s), labels.push(m), front, p, n),
{
    let j = choose|j: int| front <= j < q.len() && #[trigger] views(q)[j] == p && labels[j] <= n;
    assert(views(q.push(s))[j] == q.push(s)[j]@);
    assert(q.push(s)[j] == q[j]);
    assert(labels.push(m)[j] == labels[j]);
}

proof fn lemma_pending_le_new(q: Seq<String>, labels: Seq<nat>, front: int, s: String, m: nat)
    requires
        0 <= front <= q.len(),
        labels.len() == q.len(),
    ensures
        pending_le(q.push(s), labels.push(m), front, s@, m),
{
    assert(views(q.push(s))[q.len() as int] == s@);
    assert(labels.push(m)[q.len() as int] == m);
}

/// A commit waiting with a label of at most `n` bounds the front's label.
proof fn lemma_pending_le_front(q: Seq<String>, labels: Seq<nat>, front: int, p: Seq<char>, n: nat)
    requires
        0 <= front < q.len(),
        labels.len() == q.len(),
        sorted_labels(labels),
        pending_le(q, labels, front, p, n),
    ensures
        labels[front] <= n,
{
    let j = choose|j: int| front <= j < q.len() && #[trigger] views(q)[j] == p && labels[j] <= n;
    assert(labels[front] <= labels[j]);
}

/// The breadth-first order of visiting the ancestors of `b`.  Each queued
/// commit has a label, the length of a walk from `b` to it; labels never
/// decrease along the queue and exceed the last taken label by at most one.
/// Each visited commit keeps the label it was taken with, and each of its
/// parents (once given) is visited with a label at most one more, or waits
/// with such a label.
pub open spec fn levels_ok(
    g: Map<Seq<char>, Seq<Seq<char>>>,
    vis: Seq<Seq<char>>,
    q: Seq<String>,
    f: int,
    lab: Seq<nat>,
    dep: Map<Seq<char>, nat>,
    sb: Seq<char>,
    awaited: Option<Seq<char>>,
) -> bool {
    &&& 0 <= f <= q.len()
    &&& lab.len() == q.len()
    &&& sorted_labels(lab)
    &&& f > 0 ==> forall|i: int| 0 <= i < q.len() ==> #[trigger] lab[i] <= lab[f - 1] + 1
    &&& f == 0 ==> q.len() == 1 && vis.len() == 0 && awaited is None
    &&& forall|i: int| f <= i < q.len() ==> reaches_within(g, sb, #[trigger] views(q)[i], lab[i])
    &&& forall|v: Seq<char>|
        #[trigger] vis.contains(v) ==> dep.dom().contains(v) && reaches_within(g, sb, v, dep[v])
            && dep[v] <= lab[f - 1]
    &&& match awaited {
        Some(h) => f > 0 && vis.contains(h) && dep[h] == lab[f - 1],
        None => true,
    }
    &&& forall|v: Seq<char>|
        #[trigger] vis.contains(v) && awaited != Some(v) ==> forall|p: Seq<char>|
            #[trigger] g[v].contains(p) ==> (vis.contains(p) && dep[p] <= dep[v] + 1) || pending_le(
                q,
                lab,
                f,
                p,
                dep[v] + 1,
            )
    &&& (vis.contains(sb) && dep[sb] == 0) || pending_le(q, lab, f, sb, 0)
}

proof fn lemma_push_contains<T>(s: Seq<T>, h: T)
    ensures
        forall|x: T| #[trigger] s.push(h).contains(x) <==> s.contains(x) || x == h,
{
    assert forall|x: T| #[trigger] s.push(h).contains(x) implies s.contains(x) || x == h by {
        let j = choose|j: int| 0 <= j < s.push(h).len() && s.push(h)[j] == x;
        if j < s.len() {
            assert(s[j] == x);
        }
    }
    assert forall|x: T| s.contains(x) || x == h implies #[trigger] s.push(h).contains(x) by {
        if s.contains(x) {
            let j = choose|j: int| 0 <= j < s.len() && s[j] == x;
            assert(s.push(h)[j] == x);
        } else {
            assert(s.push(h)[s.len() as int] == x);
        }
    }
}

/// Taking the front of the queue when it was visited before.
proof fn lemma_levels_pop_seen(
    g: Map<Seq<char>, Seq<Seq<char>>>,
    vis: Seq<Seq<char>>,
    q: Seq<String>,
    f: int,
    lab: Seq<nat>,
    dep: Map<Seq<char>, nat>,
    sb: Seq<char>,
)
    requires
        levels_ok(g, vis, q, f, lab, dep, sb, None),
        f < q.len(),
        vis.contains(views(q)[f]),
    ensures
        levels_ok(g, vis, q, f + 1, lab, dep, sb, None),
{
    let h = views(q)[f];
    assert(f > 0);
    assert(lab[f - 1] <= lab[f]);
    assert forall|i: int| 0 <= i < q.len() implies #[trigger] lab[i] <= lab[f] + 1 by {
        assert(lab[i] <= lab[f - 1] + 1);
    }
    assert forall|v: Seq<char>| #[trigger] vis.contains(v) && None::<Seq<char>> != Some(v) implies forall|
        p: Seq<char>,
    | #[trigger] g[v].contains(p) ==> (vis.contains(p) && dep[p] <= dep[v] + 1) || pending_le(
        q,
        lab,
        f + 1,
        p,
        dep[v] + 1,
    ) by {
        assert forall|p: Seq<char>| #[trigger] g[v].contains(p) implies (vis.contains(p) && dep[p]
            <= dep[v] + 1) || pending_le(q, lab, f + 1, p, dep[v] + 1) by {
            if !(vis.contains(p) && dep[p] <= dep[v] + 1) {
                lemma_pending_le_pop(q, lab, f, p, dep[v] + 1);
            }
        }
    }
    if !(vis.contains(sb) && dep[sb] == 0) {
        lemma_pending_le_pop(q, lab, f, sb, 0);
    }
}

/// Taking the front of the queue when it is visited for the first time: it
/// keeps its label, and its parents are awaited.
proof fn lemma_levels_pop_new(
    g: Map<Seq<char>, Seq<Seq<char>>>,
    vis: Seq<Seq<char>>,
    q: Seq<String>,
    f: int,
    lab: Seq<nat>,
    dep: Map<Seq<char>, nat>,
    sb: Seq<char>,
    h: Seq<char>,
)
    requires
        levels_ok(g, vis, q, f, lab, dep, sb, None),
        f < q.len(),
        views(q)[f] == h,
        !vis.contains(h),
    ensures
        levels_ok(g, vis.push(h), q, f + 1, lab, dep.insert(h, lab[f]), sb, Some(h)),
{
    let vis2 = vis.push(h);
    let dep2 = dep.insert(h, lab[f]);
    lemma_push_contains(vis, h);
    assert forall|i: int| 0 <= i < q.len() implies #[trigger] lab[i] <= lab[f] + 1 by {
        if f > 0 {
            assert(lab[i] <= lab[f - 1] + 1);
            assert(lab[f - 1] <= lab[f]);
        } else {
            assert(i == 0);
        }
    }
    assert forall|v: Seq<char>| #[trigger] vis2.contains(v) implies dep2.dom().contains(v)
        && reaches_within(g, sb, v, dep2[v]) && dep2[v] <= lab[f] by {
        if v != h {
            assert(vis.contains(v));
            assert(f > 0);
            assert(lab[f - 1] <= lab[f]);
        }
    }
    assert forall|v: Seq<char>| #[trigger] vis2.contains(v) && Some(h) != Some(v) implies forall|
        p: Seq<char>,
    | #[trigger] g[v].contains(p) ==> (vis2.contains(p) && dep2[p] <= dep2[v] + 1) || pending_le(
        q,
        lab,
        f + 1,
        p,
        dep2[v] + 1,
    ) by {
        assert(vis.contains(v));
        assert(None::<Seq<char>> != Some(v));
        assert forall|p: Seq<char>| #[trigger] g[v].contains(p) implies (vis2.contains(p) && dep2[p]
            <= dep2[v] + 1) || pending_le(q, lab, f + 1, p, dep2[v] + 1) by {
            if vis.contains(p) && dep[p] <= dep[v] + 1 {
                assert(p != h);
            } else {
                lemma_pending_le_pop(q, lab, f, p, dep[v] + 1);
            }
        }
    }
    if vis.contains(sb) && dep[sb] == 0 {
        assert(sb != h);
    } else {
        lemma_pending_le_pop(q, lab, f, sb, 0);
    }
}

proof fn lemma_pending_le_extend(
    q: Seq<String>,
    lab: Seq<nat>,
    q2: Seq<String>,
    lab2: Seq<nat>,
    f: int,
    p: Seq<char>,
    n: nat,
)
    requires
        0 <= f,
        pending_le(q, lab, f, p, n),
        q.len() <= q2.len(),
        lab.len() == q.len(),
        forall|k: int| 0 <= k < q.len() ==> q2[k] == q[k] && lab2[k] == lab[k],
    ensures
        pending_le(q2, lab2, f, p, n),
{
    let j = choose|j: int| f <= j < q.len() && #[trigger] views(q)[j] == p && lab[j] <= n;
    assert(q2[j] == q[j] && lab2[j] == lab[j]);
    assert(views(q2)[j] == q2[j]@);
}

/// Giving the awaited commit its parents: they join the queue with its label
/// plus one.
proof fn lemma_levels_supply(
    g: Map<Seq<char>, Seq<Seq<char>>>,
    vis: Seq<Seq<char>>,
    q: Seq<String>,
    f: int,
    lab: Seq<nat>,
    dep: Map<Seq<char>, nat>,
    sb: Seq<char>,
    h: Seq<char>,
    ps: Seq<Seq<char>>,
    q2: Seq<String>,
    lab2: Seq<nat>,
)
    requires
        levels_ok(g, vis, q, f, lab, dep, sb, Some(h)),
        !g.dom().contains(h),
        q2.len() == q.len() + ps.len(),
        lab2.len() == q2.len(),
        forall|k: int| 0 <= k < q.len() ==> q2[k] == q[k] && lab2[k] == lab[k],
        forall|k: int| 0 <= k < ps.len() ==> views(q2)[q.len() + k] == ps[k],
        forall|k: int| q.len() <= k < q2.len() ==> lab2[k] == dep[h] + 1,
    ensures
        levels_ok(g.insert(h, ps), vis, q2, f, lab2, dep, sb, None),
{
    let g2 = g.insert(h, ps);
    let n = q.len() as int;
    assert(f > 0 && dep[h] == lab[f - 1]);
    assert(sorted_labels(lab2)) by {
        assert forall|i: int, j: int| 0 <= i <= j < lab2.len() implies #[trigger] lab2[i]
            <= #[trigger] lab2[j] by {
            if j < n {
                assert(lab[i] <= lab[j]);
            } else if i < n {
                assert(lab[i] <= lab[f - 1] + 1);
            }
        }
    }
    assert forall|i: int| 0 <= i < q2.len() implies #[trigger] lab2[i] <= lab2[f - 1] + 1 by {
        if i < n {
            assert(lab[i] <= lab[f - 1] + 1);
        }
    }
    assert(reaches_within(g, sb, h, dep[h]));
    lemma_within_grow(g, h, ps, sb, h, dep[h]);
    assert forall|i: int| f <= i < q2.len() implies reaches_within(
        g2,
        sb,
        #[trigger] views(q2)[i],
        lab2[i],
    ) by {
        if i < n {
            assert(views(q2)[i] == q2[i]@ && q2[i] == q[i] && views(q)[i] == q[i]@);
            lemma_within_grow(g, h, ps, sb, views(q)[i], lab[i]);
        } else {
            let k = i - n;
            assert(views(q2)[n + k] == ps[k]);
            assert(ps.contains(ps[k]));
            lemma_within_step(g2, sb, h, ps[k], dep[h]);
        }
    }
    assert forall|v: Seq<char>| #[trigger] vis.contains(v) implies dep.dom().contains(v)
        && reaches_within(g2, sb, v, dep[v]) && dep[v] <= lab2[f - 1] by {
        lemma_within_grow(g, h, ps, sb, v, dep[v]);
    }
    assert forall|v: Seq<char>| #[trigger] vis.contains(v) && None::<Seq<char>> != Some(v) implies forall|
        p: Seq<char>,
    | #[trigger] g2[v].contains(p) ==> (vis.contains(p) && dep[p] <= dep[v] + 1) || pending_le(
        q2,
        lab2,
        f,
        p,
        dep[v] + 1,
    ) by {
        assert forall|p: Seq<char>| #[trigger] g2[v].contains(p) implies (vis.contains(p) && dep[p]
            <= dep[v] + 1) || pending_le(q2, lab2, f, p, dep[v] + 1) by {
            if v == h {
                let k = choose|k: int| 0 <= k < ps.len() && ps[k] == p;
                assert(views(q2)[n + k] == p && lab2[n + k] == dep[h] + 1);
                assert(f <= n + k < q2.len());
            } else {
                assert(Some(h) != Some(v));
                assert(g2[v] == g[v]);
                if !(vis.contains(p) && dep[p] <= dep[v] + 1) {
                    lemma_pending_le_extend(q, lab, q2, lab2, f, p, dep[v] + 1);
                }
            }
        }
    }
    if !(vis.contains(sb) && dep[sb] == 0) {
        lemma_pending_le_extend(q, lab, q2, lab2, f, sb, 0);
    }
}

/// Along a walk from `b`, each commit is visited with a label at most its
/// position, unless the front of the queue has a label at most that
/// position.
proof fn lemma_levels_nearest(
    g: Map<Seq<char>, Seq<Seq<char>>>,
    big: Map<Seq<char>, Seq<Seq<char>>>,
    vis: Seq<Seq<char>>,
    q: Seq<String>,
    f: int,
    lab: Seq<nat>,
    dep: Map<Seq<char>, nat>,
    sb: Seq<char>,
    w: Seq<Seq<char>>,
    i: int,
)
    requires
        levels_ok(g, vis, q, f, lab, dep, sb, None),
        extends(big, g),
        forall|v: Seq<char>| #[trigger] vis.contains(v) ==> g.dom().contains(v),
        f < q.len(),
        is_walk(big, w),
        w.len() > 0,
        w[0] == sb,
        0 <= i < w.len(),
    ensures
        (vis.contains(w[i]) && dep[w[i]] <= i) || lab[f] <= i,
    decreases i,
{
    if i == 0 {
        if !(vis.contains(sb) && dep[sb] == 0) {
            lemma_pending_le_front(q, lab, f, sb, 0);
        }
    } else {
        lemma_levels_nearest(g, big, vis, q, f, lab, dep, sb, w, i - 1);
        let v = w[i - 1];
        if vis.contains(v) && dep[v] <= i - 1 {
            assert(big.dom().contains(w[i - 1]) && big[w[i - 1]].contains(w[i - 1 + 1]));
            assert(g.dom().contains(v));
            assert(big[v] == g[v]);
            assert(None::<Seq<char>> != Some(v));
            if !(vis.contains(w[i]) && dep[w[i]] <= dep[v] + 1) {
                lemma_pending_le_front(q, lab, f, w[i], dep[v] + 1);
            }
        }
    }
}

fn contains_str(v: &Vec<String>, s: &str) -> (r: bool)
    ensures
        r == views(v@).contains(s@),
{
    let mut i: usize = 0;
    while i < v.len()
        invariant
            i <= v@.len(),
            forall|j: int| 0 <= j < i ==> v@[j]@ != s@,
        decreases v@.len() - i,
    {
        if chars_eq(&chars_of(v[i].as_str()), &chars_of(s)) {
            assert(views(v@)[i as int] == s@);
            return true;
        }
        i = i + 1;
    }
    assert forall|j: int| 0 <= j < views(v@).len() implies views(v@)[j] != s@ by {
        assert(views(v@)[j] == v@[j]@);
    }
    false
}

/// Adding a string to a vector adds its characters to the views.
proof fn lemma_views_push(v: Seq<String>, s: String)
    ensures
        views(v.push(s)) == views(v).push(s@),
        views(v.push(s)).contains(s@),
        forall|x: Seq<char>| #[trigger] views(v.push(s)).contains(x) <==> views(v).contains(x) || x == s@,
{
    assert(views(v.push(s)) =~= views(v).push(s@));
    assert(views(v.push(s))[v.len() as int] == s@);
    assert forall|x: Seq<char>| #[trigger] views(v.push(s)).contains(x) implies views(v).contains(x)
        || x == s@ by {
        let j = choose|j: int| 0 <= j < views(v.push(s)).len() && views(v.push(s))[j] == x;
        if j < v.len() {
            assert(views(v)[j] == x);
        }
    }
    assert forall|x: Seq<char>| views(v).contains(x) implies #[trigger] views(v.push(s)).contains(x) by {
        let j = choose|j: int| 0 <= j < views(v).len() && views(v)[j] == x;
        assert(views(v.push(s))[j] == x);
    }
}

impl LcaSearch {
    /// The commits of the graph learned so far: each commit whose parents
    /// were given, with those parents.
    pub closed spec fn graph(&self) -> Map<Seq<char>, Seq<Seq<char>>> {
        self.graph@
    }

    /// The first commit.
    pub closed spec fn a(&self) -> Seq<char> {
        self.start_a@
    }

    /// The second commit.
    pub closed spec fn b(&self) -> Seq<char> {
        self.start_b@
    }

    /// The commit whose parents the search waits for.
    pub closed spec fn awaiting(&self) -> Option<Seq<char>> {
        match self.awaiting {
            Some(h) => Some(h@),
            None => None,
        }
    }

    /// The commit a search phase starts from.
    closed spec fn origin(&self) -> Seq<char> {
        if self.in_b {
            self.start_b@
        } else {
            self.start_a@
        }
    }

    /// The search's invariant.  Every commit it holds is reached from where
    /// it belongs; the commit it waits for has not been given parents.
    /// While it collects the ancestors of `a`, each collected commit's
    /// parents are collected or queued; once it visits those of `b`, the
    /// ancestors of `a` are complete, each visited commit's parents are
    /// visited or queued, and no visited commit is an ancestor of `a`.
    pub closed spec fn wf(&self) -> bool {
        let g = self.graph@;
        let anc = views(self.ancestors@);
        let vis = views(self.visited@);
        let q = self.queue@;
        let f = self.front as int;
        &&& self.front <= self.queue@.len()
        &&& forall|i: int|
            self.front <= i < self.queue@.len() ==> reaches(g, self.origin(), #[trigger] self.queue@[i]@)
        &&& forall|i: int|
            0 <= i < self.ancestors@.len() ==> reaches(g, self.start_a@, #[trigger] self.ancestors@[i]@)
        &&& forall|i: int|
            0 <= i < self.visited@.len() ==> reaches(g, self.start_b@, #[trigger] self.visited@[i]@)
        &&& !self.in_b ==> self.visited@.len() == 0
        &&& forall|k: Seq<char>| #[trigger] g.dom().contains(k) ==> anc.contains(k) || vis.contains(k)
        &&& match self.awaiting {
            Some(h) => reaches(g, self.origin(), h@) && !g.dom().contains(h@) && (if self.in_b {
                vis.contains(h@)
            } else {
                anc.contains(h@)
            }),
            None => true,
        }
        &&& !self.in_b ==> frontier_closed(g, anc, self.awaiting(), q, f)
        &&& !self.in_b ==> anc.contains(self.start_a@) || pending_in(q, f, self.start_a@)
        &&& self.in_b ==> closed_under(g, anc) && anc.contains(self.start_a@)
        &&& self.in_b ==> frontier_closed(g, vis, self.awaiting(), q, f)
        &&& self.in_b ==> vis.contains(self.start_b@) || pending_in(q, f, self.start_b@)
        &&& forall|x: Seq<char>| #[trigger] vis.contains(x) ==> !anc.contains(x)
        &&& self.in_b ==> self.wf_levels()
    }

    /// The breadth-first order of the visiting phase (see `levels_ok`).
    closed spec fn wf_levels(&self) -> bool {
        levels_ok(
            self.graph@,
            views(self.visited@),
            self.queue@,
            self.front as int,
            self.labels@,
            self.depth@,
            self.start_b@,
            self.awaiting(),
        )
    }

    /// A search for a common ancestor of `a` and `b`.
    pub fn new(a: &str, b: &str) -> (s: LcaSearch)
        ensures
            s.wf(),
            s.a() == a@,
            s.b() == b@,
            s.graph() == Map::<Seq<char>, Seq<Seq<char>>>::empty(),
            s.awaiting() is None,
    {
        let sa = crate::text::string_of(&chars_of(a));
        let sb = crate::text::string_of(&chars_of(b));
        let mut queue: Vec<String> = Vec::new();
        queue.push(sa.clone());
        let ghost g = Map::<Seq<char>, Seq<Seq<char>>>::empty();
        proof {
            lemma_reaches_self(g, sa@);
        }
        assert(views(queue@)[0] == sa@);
        let s = LcaSearch {
            start_a: sa,
            start_b: sb,
            in_b: false,
            queue,
            front: 0,
            ancestors: Vec::new(),
            visited: Vec::new(),
            awaiting: None,
            graph: Ghost(g),
            labels: Ghost(Seq::empty()),
            depth: Ghost(Map::empty()),
        };
        assert(views(s.ancestors@) =~= Seq::<Seq<char>>::empty());
        assert(views(s.visited@) =~= Seq::<Seq<char>>::empty());
        s
    }

    /// Starts visiting the ancestors of `b` once those of `a` are collected.
    fn switch_to_b(&mut self)
        requires
            old(self).wf(),
            old(self).awaiting is None,
            !old(self).in_b,
            old(self).front >= old(self).queue@.len(),
        ensures
            final(self).wf(),
            final(self).awaiting is None,
            final(self).in_b,
            final(self).start_a@ == old(self).start_a@,
            final(self).start_b@ == old(self).start_b@,
            final(self).graph@ == old(self).graph@,
    {
        let ghost g = self.graph@;
        proof {
            lemma_frontier_done(g, views(self.ancestors@), self.queue@, self.front as int);
        }
        assert(views(self.ancestors@).contains(self.start_a@));
        assert(views(self.visited@) =~= Seq::<Seq<char>>::empty());
        self.in_b = true;
        self.queue = Vec::new();
        self.queue.push(self.start_b.clone());
        self.front = 0;
        let ghost first_labels = seq![0nat];
        self.labels = Ghost(first_labels);
        self.depth = Ghost(Map::empty());
        proof {
            lemma_reaches_self(g, self.start_b@);
            lemma_within_self(g, self.start_b@, 0);
        }
        assert(self.queue@[0]@ == self.start_b@);
        assert(views(self.queue@)[0] == self.start_b@);
        assert(self.labels@[0] == 0);
        assert(pending_le(self.queue@, self.labels@, 0, self.start_b@, 0));
        assert(self.wf_levels());
    }

    /// Takes the front of the queue while collecting the ancestors of `a`;
    /// a commit not collected before is collected and its parents awaited.
    fn take_for_a(&mut self) -> (asked: Option<String>)
        requires
            old(self).wf(),
            old(self).awaiting is None,
            !old(self).in_b,
            old(self).front < old(self).queue@.len(),
        ensures
            final(self).wf(),
            !final(self).in_b,
            final(self).start_a@ == old(self).start_a@,
            final(self).start_b@ == old(self).start_b@,
            final(self).graph@ == old(self).graph@,
            final(self).queue@.len() == old(self).queue@.len(),
            final(self).front == old(self).front + 1,
            asked matches Some(h) ==> final(self).awaiting() == Some(h@) && reaches(
                final(self).graph@,
                final(self).start_a@,
                h@,
            ),
            asked is None ==> final(self).awaiting is None,
    {
        let ghost g = self.graph@;
        let ghost anc = views(self.ancestors@);
        let ghost q = self.queue@;
        let ghost f = self.front as int;
        let n = self.queue.len();
        let h = self.queue[self.front].clone();
        assert(views(q)[f] == h@);
        assert(reaches(g, self.start_a@, h@));
        assert(self.front < n);
        self.front = self.front + 1;
        if !contains_str(&self.ancestors, h.as_str()) {
            let ghost old_anc = self.ancestors@;
            self.ancestors.push(h.clone());
            proof {
                lemma_views_push(old_anc, h);
            }
            let ghost anc2 = views(self.ancestors@);
            assert(!g.dom().contains(h@)) by {
                if g.dom().contains(h@) {
                    assert(anc.contains(h@) || views(self.visited@).contains(h@));
                }
            }
            self.awaiting = Some(h.clone());
            proof {
                lemma_frontier_pop(g, anc, anc2, Some(h@), q, f);
                lemma_seen_pop(anc, anc2, q, f, self.start_a@);
            }
            assert forall|i: int| 0 <= i < self.ancestors@.len() implies reaches(
                g,
                self.start_a@,
                #[trigger] self.ancestors@[i]@,
            ) by {
                if i < old_anc.len() {
                    assert(self.ancestors@[i] == old_anc[i]);
                }
            }
            return Some(h);
        }
        proof {
            lemma_frontier_pop(g, anc, anc, None, q, f);
            lemma_seen_pop(anc, anc, q, f, self.start_a@);
        }
        None
    }

    /// Takes the front of the queue while visiting the ancestors of `b`: an
    /// ancestor of `a` is found (and stays at the front); a commit not
    /// visited before is visited and its parents awaited.
    fn take_for_b(&mut self) -> (r: LcaStep)
        requires
            old(self).wf(),
            old(self).awaiting is None,
            old(self).in_b,
            old(self).front < old(self).queue@.len(),
        ensures
            final(self).wf(),
            final(self).in_b,
            final(self).start_a@ == old(self).start_a@,
            final(self).start_b@ == old(self).start_b@,
            final(self).graph@ == old(self).graph@,
            final(self).queue@.len() == old(self).queue@.len(),
            r is NotFound ==> final(self).front == old(self).front + 1 && final(self).awaiting is None,
            r matches LcaStep::NeedParents(h) ==> final(self).awaiting() == Some(h@) && reaches(
                final(self).graph@,
                final(self).start_b@,
                h@,
            ),
            r matches LcaStep::Found(h) ==> reaches(final(self).graph@, final(self).start_a@, h@)
                && reaches(final(self).graph@, final(self).start_b@, h@) && final(self).awaiting is None,
            r matches LcaStep::Found(_) ==> forall|x: Seq<char>|
                #[trigger] reaches(final(self).graph@, final(self).start_a@, x)
                    ==> final(self).graph@.dom().contains(x),
            r matches LcaStep::Found(h) ==> forall|big: Map<Seq<char>, Seq<Seq<char>>>, x: Seq<char>, m: nat|
                extends(big, final(self).graph@) && reaches(big, final(self).start_a@, x)
                    && #[trigger] reaches_within(big, final(self).start_b@, x, m) ==> reaches_within(
                    final(self).graph@,
                    final(self).start_b@,
                    h@,
                    m,
                ),
    {
        let ghost g = self.graph@;
        let ghost anc = views(self.ancestors@);
        let ghost vis = views(self.visited@);
        let ghost q = self.queue@;
        let ghost f = self.front as int;
        let ghost lab = self.labels@;
        let ghost dep = self.depth@;
        let ghost sa = self.start_a@;
        let ghost sb = self.start_b@;
        let n = self.queue.len();
        let h = self.queue[self.front].clone();
        assert(views(q)[f] == h@);
        assert(reaches(g, self.start_b@, h@));
        assert(self.front < n);
        assert(levels_ok(g, vis, q, f, lab, dep, sb, None));
        if contains_str(&self.ancestors, h.as_str()) {
            let ghost j = choose|j: int| 0 <= j < anc.len() && anc[j] == h@;
            assert(self.ancestors@[j]@ == h@);
            proof {
                assert forall|x: Seq<char>| #[trigger] reaches(g, sa, x) implies g.dom().contains(x) by {
                    lemma_closed_reaches(g, anc, sa, x);
                }
                assert(frontier_closed(g, vis, None, q, f));
                assert forall|v: Seq<char>| #[trigger] vis.contains(v) implies g.dom().contains(v) by {
                    assert(None::<Seq<char>> != Some(v));
                }
                assert forall|big: Map<Seq<char>, Seq<Seq<char>>>, x: Seq<char>, m: nat|
                    extends(big, g) && reaches(big, sa, x) && #[trigger] reaches_within(big, sb, x, m)
                    implies reaches_within(g, sb, h@, m) by {
                    let w = choose|w: Seq<Seq<char>>|
                        0 < w.len() <= m + 1 && w[0] == sb && w.last() == x && #[trigger] is_walk(
                            big,
                            w,
                        );
                    lemma_levels_nearest(g, big, vis, q, f, lab, dep, sb, w, w.len() - 1);
                    lemma_closed_extends(g, big, anc);
                    lemma_closed_reaches(big, anc, sa, x);
                    assert(!vis.contains(x));
                    assert(reaches_within(g, sb, views(q)[f], lab[f]));
                    lemma_within_more(g, sb, h@, lab[f], m);
                }
            }
            return LcaStep::Found(h);
        }
        self.front = self.front + 1;
        if !contains_str(&self.visited, h.as_str()) {
            let ghost old_vis = self.visited@;
            self.visited.push(h.clone());
            proof {
                lemma_views_push(old_vis, h);
            }
            let ghost vis2 = views(self.visited@);
            assert(!g.dom().contains(h@)) by {
                if g.dom().contains(h@) {
                    assert(anc.contains(h@) || vis.contains(h@));
                }
            }
            self.awaiting = Some(h.clone());
            self.depth = Ghost(dep.insert(h@, lab[f]));
            proof {
                lemma_frontier_pop(g, vis, vis2, Some(h@), q, f);
                lemma_seen_pop(vis, vis2, q, f, self.start_b@);
                lemma_levels_pop_new(g, vis, q, f, lab, dep, sb, h@);
            }
            assert(self.wf_levels());
            assert forall|k: Seq<char>| #[trigger] g.dom().contains(k) implies anc.contains(k)
                || vis2.contains(k) by {}
            assert forall|x: Seq<char>| #[trigger] vis2.contains(x) implies !anc.contains(x) by {}
            assert forall|i: int| 0 <= i < self.visited@.len() implies reaches(
                g,
                self.start_b@,
                #[trigger] self.visited@[i]@,
            ) by {
                if i < old_vis.len() {
                    assert(self.visited@[i] == old_vis[i]);
                }
            }
            return LcaStep::NeedParents(h);
        }
        proof {
            lemma_frontier_pop(g, vis, vis, None, q, f);
            lemma_seen_pop(vis, vis, q, f, self.start_b@);
            lemma_levels_pop_seen(g, vis, q, f, lab, dep, sb);
        }
        assert(self.wf_levels());
        LcaStep::NotFound
    }

    /// Advances the search until it needs the parents of a commit or has an
    /// answer.  While it waits for parents it asks for them again.  A commit
    /// whose parents it asks for has not been given parents yet and is
    /// reached from `a` or from `b`.
    ///
    /// A commit it finds is reached from both.  By then every ancestor of `a`
    /// has been given its parents, and no commit reached from both is nearer
    /// to `b`: in any graph that gives the commits asked for the parents
    /// given (the whole history, when the caller answered truly), whenever
    /// `b` reaches an ancestor of `a` in `m` steps, it reaches the found
    /// commit in `m` steps.
    ///
    /// When it finds none, every ancestor of `a` and of `b` has been given its
    /// parents, and in any such graph no commit is reached from both.
    pub fn next_step(&mut self) -> (step: LcaStep)
        requires
            old(self).wf(),
        ensures
            final(self).wf(),
            final(self).a() == old(self).a(),
            final(self).b() == old(self).b(),
            final(self).graph() == old(self).graph(),
            old(self).awaiting() is Some ==> final(self).awaiting() == old(self).awaiting(),
            step matches LcaStep::NeedParents(h) ==> final(self).awaiting() == Some(h@) && (
            reaches(final(self).graph(), final(self).a(), h@) || reaches(
                final(self).graph(),
                final(self).b(),
                h@,
            )) && !final(self).graph().dom().contains(h@),
            step matches LcaStep::Found(h) ==> reaches(final(self).graph(), final(self).a(), h@)
                && reaches(final(self).graph(), final(self).b(), h@) && final(self).awaiting() is None,
            step matches LcaStep::Found(_) ==> forall|x: Seq<char>|
                #[trigger] reaches(final(self).graph(), final(self).a(), x)
                    ==> final(self).graph().dom().contains(x),
            step matches LcaStep::Found(h) ==> forall|big: Map<Seq<char>, Seq<Seq<char>>>, x: Seq<char>, m: nat|
                extends(big, final(self).graph()) && reaches(big, final(self).a(), x)
                    && #[trigger] reaches_within(big, final(self).b(), x, m) ==> reaches_within(
                    final(self).graph(),
                    final(self).b(),
                    h@,
                    m,
                ),
            step is NotFound ==> final(self).awaiting() is None,
            step is NotFound ==> forall|x: Seq<char>|
                #[trigger] reaches(final(self).graph(), final(self).a(), x)
                    ==> final(self).graph().dom().contains(x),
            step is NotFound ==> forall|x: Seq<char>|
                #[trigger] reaches(final(self).graph(), final(self).b(), x)
                    ==> final(self).graph().dom().contains(x),
            step is NotFound ==> forall|big: Map<Seq<char>, Seq<Seq<char>>>, h: Seq<char>|
                extends(big, final(self).graph()) ==> !(reaches(big, final(self).a(), h)
                    && #[trigger] reaches(big, final(self).b(), h)),
    {
        match &self.awaiting {
            Some(h) => {
                return LcaStep::NeedParents(h.clone());
            },
            None => {},
        }
        loop
            invariant
                self.wf(),
                self.awaiting is None,
                old(self).awaiting is None,
                self.start_a@ == old(self).start_a@,
                self.start_b@ == old(self).start_b@,
                self.graph@ == old(self).graph@,
            decreases (if self.in_b {
                0int
            } else {
                1int
            }), self.queue@.len() - self.front,
        {
            if self.front >= self.queue.len() {
                if self.in_b {
                    proof {
                        lemma_not_found(
                            self.graph@,
                            views(self.ancestors@),
                            views(self.visited@),
                            self.queue@,
                            self.front as int,
                            self.start_a@,
                            self.start_b@,
                        );
                    }
                    return LcaStep::NotFound;
                }
                self.switch_to_b();
            } else if !self.in_b {
                match self.take_for_a() {
                    Some(h) => {
                        return LcaStep::NeedParents(h);
                    },
                    None => {},
                }
            } else {
                match self.take_for_b() {
                    LcaStep::NotFound => {},
                    found_or_asked => {
                        return found_or_asked;
                    },
                }
            }
        }
    }

    /// Gives the parents of the commit the search waits for (none when it
    /// could not be read as a commit); they join the queue in order.  When
    /// the search waits for nothing, nothing changes.
    pub fn supply_parents(&mut self, parents: Vec<String>)
        requires
            old(self).wf(),
        ensures
            final(self).wf(),
            final(self).a() == old(self).a(),
            final(self).b() == old(self).b(),
            old(self).awaiting() matches Some(h) ==> final(self).graph() == old(self).graph().insert(
                h,
                views(parents@),
            ),
            old(self).awaiting() is None ==> final(self).graph() == old(self).graph(),
            final(self).awaiting() is None,
    {
        let h = match &self.awaiting {
            Some(h) => h.clone(),
            None => {
                return ;
            },
        };
        let ghost g = self.graph@;
        let ghost ps = views(parents@);
        let ghost g2 = g.insert(h@, ps);
        let ghost anc = views(self.ancestors@);
        let ghost vis = views(self.visited@);
        let ghost in_b = self.in_b;
        let ghost set = if in_b {
            vis
        } else {
            anc
        };
        assert(set.contains(h@));
        assert(!g.dom().contains(h@));
        let ghost origin = self.origin();
        assert(reaches(g, origin, h@));
        proof {
            lemma_reaches_grow(g, h@, ps, origin, h@);
        }
        let ghost old_queue = self.queue@;
        let ghost old_front = self.front as int;
        assert forall|i: int| old_front <= i < old_queue.len() implies reaches(
            g2,
            origin,
            #[trigger] old_queue[i]@,
        ) by {
            lemma_reaches_grow(g, h@, ps, origin, old_queue[i]@);
        }
        assert forall|i: int| 0 <= i < self.ancestors@.len() implies reaches(
            g2,
            self.start_a@,
            #[trigger] self.ancestors@[i]@,
        ) by {
            lemma_reaches_grow(g, h@, ps, self.start_a@, self.ancestors@[i]@);
        }
        assert forall|i: int| 0 <= i < self.visited@.len() implies reaches(
            g2,
            self.start_b@,
            #[trigger] self.visited@[i]@,
        ) by {
            lemma_reaches_grow(g, h@, ps, self.start_b@, self.visited@[i]@);
        }
        let ghost lab = self.labels@;
        let ghost dep = self.depth@;
        let ghost sb0 = self.start_b@;
        assert(in_b ==> levels_ok(g, vis, old_queue, old_front, lab, dep, sb0, Some(h@)));
        self.graph = Ghost(g2);
        self.awaiting = None;
        let ghost sa = self.start_a@;
        let ghost sb = self.start_b@;
        let ghost anc_v = self.ancestors@;
        let ghost vis_v = self.visited@;
        let mut i: usize = 0;
        while i < parents.len()
            invariant
                self.graph@ == g2,
                self.labels@ == lab,
                self.depth@ == dep,
                self.ancestors@ == anc_v,
                self.visited@ == vis_v,
                forall|k: int| 0 <= k < anc_v.len() ==> reaches(g2, sa, #[trigger] anc_v[k]@),
                forall|k: int| 0 <= k < vis_v.len() ==> reaches(g2, sb, #[trigger] vis_v[k]@),
                views(self.ancestors@) == anc,
                views(self.visited@) == vis,
                self.in_b == in_b,
                self.start_a@ == sa,
                self.start_b@ == sb,
                self.awaiting is None,
                g2 == g.insert(h@, ps),
                ps == views(parents@),
                origin == self.origin(),
                reaches(g2, origin, h@),
                g2.dom().contains(h@),
                g2[h@] == ps,
                self.front == old_front,
                0 <= old_front <= old_queue.len(),
                self.queue@.len() == old_queue.len() + i,
                i <= parents@.len(),
                forall|k: int| 0 <= k < old_queue.len() ==> self.queue@[k] == old_queue[k],
                forall|k: int|
                    old_front <= k < self.queue@.len() ==> reaches(g2, origin, #[trigger] self.queue@[k]@),
                forall|k: int| 0 <= k < i ==> pending_in(self.queue@, old_front, #[trigger] ps[k]),
                forall|p: Seq<char>|
                    pending_in(old_queue, old_front, p) ==> #[trigger] pending_in(
                        self.queue@,
                        old_front,
                        p,
                    ),
                forall|k: int| 0 <= k < i ==> views(self.queue@)[old_queue.len() + k] == #[trigger] ps[k],
            decreases parents@.len() - i,
        {
            assert(ps[i as int] == parents@[i as int]@);
            assert(ps.contains(parents@[i as int]@));
            proof {
                lemma_reaches_step(g2, origin, h@, parents@[i as int]@);
            }
            let ghost before = self.queue@;
            let p = parents[i].clone();
            self.queue.push(p);
            proof {
                assert(views(self.queue@)[old_queue.len() + i] == self.queue@[old_queue.len() + i]@);
                assert forall|k: int| 0 <= k < i + 1 implies views(self.queue@)[old_queue.len() + k]
                    == #[trigger] ps[k] by {
                    if k < i {
                        assert(views(before)[old_queue.len() + k] == ps[k]);
                        assert(self.queue@[old_queue.len() + k] == before[old_queue.len() + k]);
                    }
                }
                lemma_pending_new(before, old_front, p);
                assert forall|k: int| 0 <= k < i implies pending_in(
                    self.queue@,
                    old_front,
                    #[trigger] ps[k],
                ) by {
                    lemma_pending_push(before, old_front, p, ps[k]);
                }
                assert forall|x: Seq<char>| pending_in(old_queue, old_front, x) implies #[trigger] pending_in(
                    self.queue@,
                    old_front,
                    x,
                ) by {
                    lemma_pending_push(before, old_front, p, x);
                }
            }
            i = i + 1;
        }
        let ghost q2 = self.queue@;
        let ghost lab2 = lab + Seq::new(ps.len(), |k: int| dep[h@] + 1);
        self.labels = Ghost(lab2);
        proof {
            if in_b {
                assert(levels_ok(g, vis, old_queue, old_front, lab, dep, sb, Some(h@)));
                assert forall|k: int| 0 <= k < old_queue.len() implies q2[k] == old_queue[k]
                    && lab2[k] == lab[k] by {}
                assert forall|k: int| old_queue.len() <= k < q2.len() implies lab2[k] == dep[h@] + 1 by {}
                lemma_levels_supply(g, vis, old_queue, old_front, lab, dep, sb, h@, ps, q2, lab2);
            }
        }
        assert forall|k: Seq<char>| #[trigger] g2.dom().contains(k) implies anc.contains(k)
            || vis.contains(k) by {
            if k != h@ {
                assert(g.dom().contains(k));
            }
        }
        assert(frontier_closed(g2, set, None, q2, old_front)) by {
            assert forall|x: Seq<char>| #[trigger] set.contains(x) && None::<Seq<char>> != Some(x) implies g2.dom().contains(
                x,
            ) && forall|p: Seq<char>| #[trigger] g2[x].contains(p) ==> set.contains(p)
                || pending_in(q2, old_front, p) by {
                if x == h@ {
                    assert forall|p: Seq<char>| #[trigger] g2[x].contains(p) implies set.contains(p)
                        || pending_in(q2, old_front, p) by {
                        let k = choose|k: int| 0 <= k < ps.len() && ps[k] == p;
                        assert(pending_in(q2, old_front, ps[k]));
                    }
                } else {
                    assert(Some(h@) != Some(x));
                    assert(g.dom().contains(x));
                    assert(g2[x] == g[x]);
                }
            }
        }
        if self.in_b {
            assert(closed_under(g2, anc)) by {
                assert forall|x: Seq<char>| #[trigger] anc.contains(x) implies g2.dom().contains(x)
                    && forall|p: Seq<char>| #[trigger] g2[x].contains(p) ==> anc.contains(p) by {
                    assert(g.dom().contains(x));
                    assert(x != h@);
                    assert(g2[x] == g[x]);
                }
            }
        }
        assert(self.wf());
    }
}

} // verus!
