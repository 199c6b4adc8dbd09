//! Merging a leaf into the current branch: the three-way decision for every
//! path, and the merge commit.
use vstd::prelude::*;
use crate::acl::{acl_allows, AclConfig, BrassConfig};
use crate::flat::{flat_get, FlatTree};
use crate::object::{Commit, FileMode, Signature, Tree, TreeEntry, TreeEntryModel};
use crate::path::{paths_equal, same_path};
use crate::text::{append_str, chars_eq, chars_of, string_of};

verus! {

/// The outcome of merging a leaf.
#[derive(Debug, Clone, PartialEq, Eq)]
pub enum LeafMergeResult {
    /// The merge commit's hash.
    Success(String),
    /// The user may not write a path that the leaf changed.
    PermissionDenied { user: String, forbidden_path: String },
    /// Both sides changed a path differently.
    ConflictInLeaf {
        path: String,
        base_hash: Option<String>,
        target_hash: Option<String>,
        leaf_hash: Option<String>,
    },
}

/// The characters of an optional string.
pub open spec fn opt_view(o: Option<String>) -> Option<Seq<char>> {
    match o {
        Some(s) => Some(s@),
        None => None,
    }
}

/// What a merge does with one path, given its hash in the common ancestor
/// (`b`), in the target (`t`) and in the leaf (`l`).
pub enum PathDecision {
    /// The leaf changed a path that the user may not write.
    Deny,
    /// Target and leaf changed the path differently.
    Conflict,
    /// The merged tree records this hash for the path (nothing when `None`).
    Keep(Option<Seq<char>>),
}

/// The three-way decision: a change in the leaf needs write access; equal
/// sides agree; a side equal to the ancestor yields to the other; anything
/// else conflicts.
pub open spec fn decide_path(
    rules: Seq<crate::acl::AccessRule>,
    user: Seq<char>,
    path: Seq<char>,
    b: Option<Seq<char>>,
    t: Option<Seq<char>>,
    l: Option<Seq<char>>,
) -> PathDecision {
    if l != b && !acl_allows(rules, user, path) {
        PathDecision::Deny
    } else if t == l {
        PathDecision::Keep(t)
    } else if b == t {
        PathDecision::Keep(l)
    } else if b == l {
        PathDecision::Keep(t)
    } else {
        PathDecision::Conflict
    }
}

/// What merging the paths in order gives.
pub enum MergePlan {
    /// The merged tree's entries.
    Entries(Seq<TreeEntryModel>),
    /// Writing this path is not allowed.
    Denied(Seq<char>),
    /// This path conflicts, with its three hashes.
    Conflict(Seq<char>, Option<Seq<char>>, Option<Seq<char>>, Option<Seq<char>>),
}

/// The entry a kept hash gives.
pub open spec fn kept_entries(path: Seq<char>, h: Option<Seq<char>>) -> Seq<TreeEntryModel> {
    match h {
        Some(x) => seq![TreeEntryModel { mode: FileMode::Regular, name: path, hash: x }],
        None => Seq::empty(),
    }
}

/// Entries before the rest of a plan.
pub open spec fn prepend_plan(es: Seq<TreeEntryModel>, p: MergePlan) -> MergePlan {
    match p {
        MergePlan::Entries(rest) => MergePlan::Entries(es + rest),
        other => other,
    }
}

/// Merging the paths in `order`: the first path that is denied or
/// conflicts decides the outcome; otherwise every kept hash becomes a
/// regular-file entry, in order.
pub open spec fn plan_merge(
    order: Seq<Seq<char>>,
    base: Seq<(Seq<char>, Seq<char>)>,
    target: Seq<(Seq<char>, Seq<char>)>,
    leaf: Seq<(Seq<char>, Seq<char>)>,
    rules: Seq<crate::acl::AccessRule>,
    user: Seq<char>,
) -> MergePlan
    decreases order.len(),
{
    if order.len() == 0 {
        MergePlan::Entries(Seq::empty())
    } else {
        let p = order[0];
        let b = flat_get(base, p);
        let t = flat_get(target, p);
        let l = flat_get(leaf, p);
        match decide_path(rules, user, p, b, t, l) {
            PathDecision::Deny => MergePlan::Denied(p),
            PathDecision::Conflict => MergePlan::Conflict(p, b, t, l),
            PathDecision::Keep(h) => prepend_plan(
                kept_entries(p, h),
                plan_merge(order.drop_first(), base, target, leaf, rules, user),
            ),
        }
    }
}

/// The files of a tree as regular-file entries, path by path in `order`.
pub open spec fn entries_along(
    order: Seq<Seq<char>>,
    files: Seq<(Seq<char>, Seq<char>)>,
) -> Seq<TreeEntryModel>
    decreases order.len(),
{
    if order.len() == 0 {
        Seq::empty()
    } else {
        kept_entries(order[0], flat_get(files, order[0])) + entries_along(order.drop_first(), files)
    }
}

/// Merging a leaf that changed nothing since the common ancestor always
/// succeeds and keeps the target's files.
pub proof fn lemma_merge_unchanged_leaf(
    order: Seq<Seq<char>>,
    base: Seq<(Seq<char>, Seq<char>)>,
    target: Seq<(Seq<char>, Seq<char>)>,
    rules: Seq<crate::acl::AccessRule>,
    user: Seq<char>,
)
    ensures
        plan_merge(order, base, target, base, rules, user) == MergePlan::Entries(
            entries_along(order, target),
        ),
    decreases order.len(),
{
    if order.len() > 0 {
        lemma_merge_unchanged_leaf(order.drop_first(), base, target, rules, user);
    }
}

/// Merging into a target that changed nothing since the common ancestor
/// gives the leaf's files, when the user may write every path that the leaf
/// changed.
pub proof fn lemma_merge_unchanged_target(
    order: Seq<Seq<char>>,
    base: Seq<(Seq<char>, Seq<char>)>,
    leaf: Seq<(Seq<char>, Seq<char>)>,
    rules: Seq<crate::acl::AccessRule>,
    user: Seq<char>,
)
    requires
        forall|i: int|
            0 <= i < order.len() && flat_get(leaf, #[trigger] order[i]) != flat_get(base, order[i])
                ==> acl_allows(rules, user, order[i]),
    ensures
        plan_merge(order, base, base, leaf, rules, user) == MergePlan::Entries(
            entries_along(order, leaf),
        ),
    decreases order.len(),
{
    if order.len() > 0 {
        assert forall|i: int|
            0 <= i < order.drop_first().len() && flat_get(leaf, #[trigger] order.drop_first()[i])
                != flat_get(base, order.drop_first()[i]) implies acl_allows(
            rules,
            user,
            order.drop_first()[i],
        ) by {
            assert(order.drop_first()[i] == order[i + 1]);
        }
        lemma_merge_unchanged_target(order.drop_first(), base, leaf, rules, user);
    }
}

/// A refused merge names its reason truthfully: a denied path is one of the
/// merged paths that the leaf changed and the user may not write; a
/// conflicting path is one where the ancestor, the target and the leaf all
/// record different hashes.
pub proof fn lemma_merge_refusals(
    order: Seq<Seq<char>>,
    base: Seq<(Seq<char>, Seq<char>)>,
    target: Seq<(Seq<char>, Seq<char>)>,
    leaf: Seq<(Seq<char>, Seq<char>)>,
    rules: Seq<crate::acl::AccessRule>,
    user: Seq<char>,
)
    ensures
        plan_merge(order, base, target, leaf, rules, user) matches MergePlan::Denied(p) ==> {
            &&& order.contains(p)
            &&& flat_get(leaf, p) != flat_get(base, p)
            &&& !acl_allows(rules, user, p)
        },
        plan_merge(order, base, target, leaf, rules, user) matches MergePlan::Conflict(p, b, t, l)
            ==> {
            &&& order.contains(p)
            &&& b == flat_get(base, p) && t == flat_get(target, p) && l == flat_get(leaf, p)
            &&& b != t && b != l && t != l
        },
    decreases order.len(),
{
    if order.len() > 0 {
        lemma_merge_refusals(order.drop_first(), base, target, leaf, rules, user);
        let rest = plan_merge(order.drop_first(), base, target, leaf, rules, user);
        match rest {
            MergePlan::Denied(p) => {
                assert(order.drop_first().contains(p));
                let j = choose|j: int| 0 <= j < order.drop_first().len() && order.drop_first()[j] == p;
                assert(order[j + 1] == p);
            },
            MergePlan::Conflict(p, b, t, l) => {
                let j = choose|j: int| 0 <= j < order.drop_first().len() && order.drop_first()[j] == p;
                assert(order[j + 1] == p);
            },
            _ => {},
        }
    }
}

/// The exec outcome of merging trees.
#[derive(Debug, Clone, PartialEq, Eq)]
pub enum MergeOutcome {
    Merged(Tree),
    Denied(String),
    Conflict {
        path: String,
        base_hash: Option<String>,
        target_hash: Option<String>,
        leaf_hash: Option<String>,
    },
}

impl View for MergeOutcome {
    type V = MergePlan;

    open spec fn view(&self) -> MergePlan {
        match self {
            MergeOutcome::Merged(t) => MergePlan::Entries(t@),
            MergeOutcome::Denied(p) => MergePlan::Denied(p@),
            MergeOutcome::Conflict { path, base_hash, target_hash, leaf_hash } => MergePlan::Conflict(
                path@,
                opt_view(*base_hash),
                opt_view(*target_hash),
                opt_view(*leaf_hash),
            ),
        }
    }
}

/// Whether two optional strings are equal.
pub fn opt_eq(a: &Option<String>, b: &Option<String>) -> (r: bool)
    ensures
        r == (opt_view(*a) == opt_view(*b)),
{
    match (a, b) {
        (Some(x), Some(y)) => chars_eq(&chars_of(x.as_str()), &chars_of(y.as_str())),
        (None, None) => true,
        _ => false,
    }
}

fn opt_clone(a: &Option<String>) -> (r: Option<String>)
    ensures
        opt_view(r) == opt_view(*a),
{
    match a {
        Some(x) => Some(x.clone()),
        None => None,
    }
}

/// Merges the files of the leaf into the target, path by path in `order`
/// (see `plan_merge`); `base` holds the files of their common ancestor.
pub fn merge_trees(
    order: &Vec<String>,
    base: &FlatTree,
    target: &FlatTree,
    leaf: &FlatTree,
    acl: &AclConfig,
    user: &str,
) -> (r: MergeOutcome)
    ensures
        r@ == plan_merge(
            order@.map_values(|s: String| s@),
            base@,
            target@,
            leaf@,
            acl.rules@,
            user@,
        ),
{
    let ghost ord = order@.map_values(|s: String| s@);
    let ghost whole = plan_merge(ord, base@, target@, leaf@, acl.rules@, user@);
    let mut entries: Vec<TreeEntry> = Vec::new();
    let mut i: usize = 0;
    assert(ord.skip(0) =~= ord);
    assert(entries@.map_values(|e: TreeEntry| e@) =~= Seq::<TreeEntryModel>::empty());
    assert(prepend_plan(Seq::empty(), whole) =~= whole) by {
        match whole {
            MergePlan::Entries(es) => {
                assert(Seq::<TreeEntryModel>::empty() + es =~= es);
            },
            _ => {},
        }
    }
    while i < order.len()
        invariant
            ord == order@.map_values(|s: String| s@),
            whole == plan_merge(ord, base@, target@, leaf@, acl.rules@, user@),
            i <= ord.len(),
            ord.len() == order@.len(),
            whole == prepend_plan(
                entries@.map_values(|e: TreeEntry| e@),
                plan_merge(ord.skip(i as int), base@, target@, leaf@, acl.rules@, user@),
            ),
        decreases ord.len() - i,
    {
        let path = &order[i];
        let ghost rest = ord.skip(i as int);
        assert(rest[0] == path@);
        assert(rest.drop_first() =~= ord.skip(i + 1));
        let b = base.get(path.as_str());
        let t = target.get(path.as_str());
        let l = leaf.get(path.as_str());
        assert(opt_view(b) == flat_get(base@, path@));
        assert(opt_view(t) == flat_get(target@, path@));
        assert(opt_view(l) == flat_get(leaf@, path@));
        let ghost acc = entries@.map_values(|e: TreeEntry| e@);
        if !opt_eq(&l, &b) && !acl.can_write(user, path.as_str()) {
            return MergeOutcome::Denied(path.clone());
        }
        let kept: Option<String> = if opt_eq(&t, &l) {
            opt_clone(&t)
        } else if opt_eq(&b, &t) {
            opt_clone(&l)
        } else if opt_eq(&b, &l) {
            opt_clone(&t)
        } else {
            return MergeOutcome::Conflict {
                path: path.clone(),
                base_hash: b,
                target_hash: t,
                leaf_hash: l,
            };
        };
        let ghost tail = plan_merge(ord.skip(i + 1), base@, target@, leaf@, acl.rules@, user@);
        assert(plan_merge(rest, base@, target@, leaf@, acl.rules@, user@) == prepend_plan(
            kept_entries(path@, opt_view(kept)),
            tail,
        ));
        match kept {
            Some(h) => {
                let e = TreeEntry { mode: FileMode::Regular, name: path.clone(), hash: h };
                entries.push(e);
                assert(entries@.map_values(|e: TreeEntry| e@) =~= acc + kept_entries(
                    path@,
                    opt_view(Some(h)),
                ));
            },
            None => {
                assert(acc + kept_entries(path@, None) =~= acc);
            },
        }
        assert(whole == prepend_plan(entries@.map_values(|e: TreeEntry| e@), tail)) by {
            match tail {
                MergePlan::Entries(es) => {
                    assert(acc + (kept_entries(path@, opt_view(kept)) + es) =~= (acc
                        + kept_entries(path@, opt_view(kept))) + es);
                },
                _ => {},
            }
        }
        i = i + 1;
    }
    assert(ord.skip(i as int) =~= Seq::<Seq<char>>::empty());
    assert(entries@.map_values(|e: TreeEntry| e@) + Seq::<TreeEntryModel>::empty()
        =~= entries@.map_values(|e: TreeEntry| e@));
    MergeOutcome::Merged(Tree { entries })
}

// ---------------------------------------------------------------------------
// The paths to merge
// ---------------------------------------------------------------------------

/// Some path in `acc` is the same path as `p`.
pub open spec fn contains_path(acc: Seq<Seq<char>>, p: Seq<char>) -> bool {
    exists|j: int| 0 <= j < acc.len() && same_path(#[trigger] acc[j], p)
}

/// `acc` followed by those of `ks` that are new, each only once, as a set of
/// paths collects them.
pub open spec fn add_new_paths(acc: Seq<Seq<char>>, ks: Seq<Seq<char>>) -> Seq<Seq<char>>
    decreases ks.len(),
{
    if ks.len() == 0 {
        acc
    } else {
        let prev = add_new_paths(acc, ks.drop_last());
        if contains_path(prev, ks.last()) {
            prev
        } else {
            prev.push(ks.last())
        }
    }
}

/// The paths of the three trees: those of the ancestor, then new ones of
/// the target, then new ones of the leaf.
pub open spec fn union_of(
    base: Seq<(Seq<char>, Seq<char>)>,
    target: Seq<(Seq<char>, Seq<char>)>,
    leaf: Seq<(Seq<char>, Seq<char>)>,
) -> Seq<Seq<char>> {
    let k = |e: (Seq<char>, Seq<char>)| e.0;
    add_new_paths(
        add_new_paths(add_new_paths(Seq::empty(), base.map_values(k)), target.map_values(k)),
        leaf.map_values(k),
    )
}

fn has_path(acc: &Vec<String>, p: &str) -> (r: bool)
    ensures
        r == contains_path(acc@.map_values(|s: String| s@), p@),
{
    let ghost av = acc@.map_values(|s: String| s@);
    let mut j: usize = 0;
    while j < acc.len()
        invariant
            av == acc@.map_values(|s: String| s@),
            j <= acc@.len(),
            forall|k: int| 0 <= k < j ==> !same_path(#[trigger] av[k], p@),
        decreases acc@.len() - j,
    {
        assert(av[j as int] == acc@[j as int]@);
        if paths_equal(acc[j].as_str(), p) {
            return true;
        }
        j = j + 1;
    }
    false
}

fn add_new(acc: &mut Vec<String>, ks: &Vec<String>)
    ensures
        final(acc)@.map_values(|s: String| s@) == add_new_paths(
            old(acc)@.map_values(|s: String| s@),
            ks@.map_values(|s: String| s@),
        ),
{
    let ghost start = acc@.map_values(|s: String| s@);
    let ghost kv = ks@.map_values(|s: String| s@);
    let mut i: usize = 0;
    assert(kv.take(0) =~= Seq::<Seq<char>>::empty());
    while i < ks.len()
        invariant
            start == old(acc)@.map_values(|s: String| s@),
            kv == ks@.map_values(|s: String| s@),
            i <= ks@.len(),
            acc@.map_values(|s: String| s@) == add_new_paths(start, kv.take(i as int)),
        decreases ks@.len() - i,
    {
        let ghost before = acc@.map_values(|s: String| s@);
        assert(kv.take(i + 1).drop_last() =~= kv.take(i as int));
        assert(kv.take(i + 1).last() == ks@[i as int]@);
        if !has_path(acc, ks[i].as_str()) {
            acc.push(ks[i].clone());
            assert(acc@.map_values(|s: String| s@) =~= before.push(ks@[i as int]@));
        }
        i = i + 1;
    }
    assert(kv.take(kv.len() as int) =~= kv);
}

/// The paths to merge: each path of the three trees once (see `union_of`).
pub fn union_paths(base: &FlatTree, target: &FlatTree, leaf: &FlatTree) -> (r: Vec<String>)
    ensures
        r@.map_values(|s: String| s@) == union_of(base@, target@, leaf@),
{
    let mut acc: Vec<String> = Vec::new();
    assert(acc@.map_values(|s: String| s@) =~= Seq::<Seq<char>>::empty());
    add_new(&mut acc, &base.paths());
    add_new(&mut acc, &target.paths());
    add_new(&mut acc, &leaf.paths());
    acc
}

/// No two of the paths are the same path.
pub open spec fn distinct_path_seq(ps: Seq<Seq<char>>) -> bool {
    forall|i: int, j: int|
        0 <= i < ps.len() && 0 <= j < ps.len() && i != j ==> !same_path(
            #[trigger] ps[i],
            #[trigger] ps[j],
        )
}

/// Some entry of a tree's files records the same path as `p`.
pub open spec fn records(es: Seq<(Seq<char>, Seq<char>)>, p: Seq<char>) -> bool {
    exists|i: int| 0 <= i < es.len() && same_path(#[trigger] es[i].0, p)
}

proof fn lemma_contains_path_last(ks: Seq<Seq<char>>, p: Seq<char>)
    requires
        ks.len() > 0,
    ensures
        contains_path(ks, p) <==> (contains_path(ks.drop_last(), p) || same_path(ks.last(), p)),
{
    if contains_path(ks, p) {
        let j = choose|j: int| 0 <= j < ks.len() && same_path(#[trigger] ks[j], p);
        if j < ks.len() - 1 {
            assert(ks.drop_last()[j] == ks[j]);
        }
    }
    if contains_path(ks.drop_last(), p) {
        let j = choose|j: int|
            0 <= j < ks.drop_last().len() && same_path(#[trigger] ks.drop_last()[j], p);
        assert(ks[j] == ks.drop_last()[j]);
    }
    if same_path(ks.last(), p) {
        assert(same_path(ks[ks.len() - 1], p));
    }
}

proof fn lemma_contains_path_push(s: Seq<Seq<char>>, k: Seq<char>, p: Seq<char>)
    ensures
        contains_path(s.push(k), p) <==> (contains_path(s, p) || same_path(k, p)),
{
    lemma_contains_path_last(s.push(k), p);
    assert(s.push(k).drop_last() =~= s);
}

/// Adding new paths keeps the earlier ones in place, covers exactly the
/// paths of both, and repeats none.
proof fn lemma_add_new_paths(acc: Seq<Seq<char>>, ks: Seq<Seq<char>>)
    ensures
        acc.len() <= add_new_paths(acc, ks).len(),
        forall|j: int| 0 <= j < acc.len() ==> #[trigger] add_new_paths(acc, ks)[j] == acc[j],
        forall|p: Seq<char>|
            #[trigger] contains_path(add_new_paths(acc, ks), p) <==> (contains_path(acc, p)
                || contains_path(ks, p)),
        distinct_path_seq(acc) ==> distinct_path_seq(add_new_paths(acc, ks)),
    decreases ks.len(),
{
    if ks.len() == 0 {
        assert forall|p: Seq<char>| !contains_path(ks, p) by {}
    } else {
        let init = ks.drop_last();
        let k = ks.last();
        let prev = add_new_paths(acc, init);
        lemma_add_new_paths(acc, init);
        let r = add_new_paths(acc, ks);
        assert forall|p: Seq<char>| #[trigger] contains_path(r, p) <==> (contains_path(acc, p)
            || contains_path(ks, p)) by {
            lemma_contains_path_last(ks, p);
            if contains_path(prev, k) {
                if same_path(k, p) {
                    let j = choose|j: int| 0 <= j < prev.len() && same_path(#[trigger] prev[j], k);
                    assert(same_path(prev[j], p));
                }
            } else {
                lemma_contains_path_push(prev, k, p);
            }
        }
        if !contains_path(prev, k) {
            assert forall|j: int| 0 <= j < acc.len() implies #[trigger] r[j] == acc[j] by {
                assert(r[j] == prev[j]);
            }
            if distinct_path_seq(acc) {
                assert forall|i: int, j: int|
                    0 <= i < r.len() && 0 <= j < r.len() && i != j implies !same_path(
                    #[trigger] r[i],
                    #[trigger] r[j],
                ) by {
                    if i < prev.len() && j < prev.len() {
                        assert(r[i] == prev[i] && r[j] == prev[j]);
                    } else if i == prev.len() {
                        assert(r[i] == k && r[j] == prev[j]);
                        if same_path(prev[j], k) {
                            assert(contains_path(prev, k));
                        }
                    } else {
                        assert(r[j] == k && r[i] == prev[i]);
                        if same_path(prev[i], k) {
                            assert(contains_path(prev, k));
                        }
                    }
                }
            }
        }
    }
}

proof fn lemma_records_keys(es: Seq<(Seq<char>, Seq<char>)>, p: Seq<char>)
    ensures
        records(es, p) <==> contains_path(es.map_values(|e: (Seq<char>, Seq<char>)| e.0), p),
{
    let ks = es.map_values(|e: (Seq<char>, Seq<char>)| e.0);
    if records(es, p) {
        let i = choose|i: int| 0 <= i < es.len() && same_path(#[trigger] es[i].0, p);
        assert(ks[i] == es[i].0);
    }
    if contains_path(ks, p) {
        let i = choose|i: int| 0 <= i < ks.len() && same_path(#[trigger] ks[i], p);
        assert(ks[i] == es[i].0);
    }
}

/// The paths to merge are every path that one of the three trees records,
/// each once.
pub proof fn lemma_union_paths_exact(
    base: Seq<(Seq<char>, Seq<char>)>,
    target: Seq<(Seq<char>, Seq<char>)>,
    leaf: Seq<(Seq<char>, Seq<char>)>,
)
    ensures
        forall|p: Seq<char>|
            #[trigger] contains_path(union_of(base, target, leaf), p) <==> (records(base, p)
                || records(target, p) || records(leaf, p)),
        distinct_path_seq(union_of(base, target, leaf)),
{
    let k = |e: (Seq<char>, Seq<char>)| e.0;
    let e0 = Seq::<Seq<char>>::empty();
    let u1 = add_new_paths(e0, base.map_values(k));
    let u2 = add_new_paths(u1, target.map_values(k));
    lemma_add_new_paths(e0, base.map_values(k));
    lemma_add_new_paths(u1, target.map_values(k));
    lemma_add_new_paths(u2, leaf.map_values(k));
    assert(union_of(base, target, leaf) == add_new_paths(u2, leaf.map_values(k)));
    assert forall|p: Seq<char>| #[trigger] contains_path(union_of(base, target, leaf), p) <==> (
    records(base, p) || records(target, p) || records(leaf, p)) by {
        lemma_records_keys(base, p);
        lemma_records_keys(target, p);
        lemma_records_keys(leaf, p);
        assert(!contains_path(e0, p));
    }
}

/// A merged tree lists each path at most once, and only paths it was asked
/// to merge, when those are distinct paths.
pub proof fn lemma_merge_entries_distinct(
    order: Seq<Seq<char>>,
    base: Seq<(Seq<char>, Seq<char>)>,
    target: Seq<(Seq<char>, Seq<char>)>,
    leaf: Seq<(Seq<char>, Seq<char>)>,
    rules: Seq<crate::acl::AccessRule>,
    user: Seq<char>,
)
    requires
        distinct_path_seq(order),
    ensures
        plan_merge(order, base, target, leaf, rules, user) matches MergePlan::Entries(es) ==> {
            &&& distinct_path_seq(es.map_values(|e: TreeEntryModel| e.name))
            &&& forall|i: int| 0 <= i < es.len() ==> order.contains(#[trigger] es[i].name)
        },
    decreases order.len(),
{
    if order.len() > 0 {
        let rest = order.drop_first();
        assert(distinct_path_seq(rest)) by {
            assert forall|i: int, j: int|
                0 <= i < rest.len() && 0 <= j < rest.len() && i != j implies !same_path(
                #[trigger] rest[i],
                #[trigger] rest[j],
            ) by {
                assert(rest[i] == order[i + 1] && rest[j] == order[j + 1]);
            }
        }
        lemma_merge_entries_distinct(rest, base, target, leaf, rules, user);
        let p = order[0];
        let b = flat_get(base, p);
        let t = flat_get(target, p);
        let l = flat_get(leaf, p);
        match decide_path(rules, user, p, b, t, l) {
            PathDecision::Keep(h) => {
                match plan_merge(rest, base, target, leaf, rules, user) {
                    MergePlan::Entries(tail) => {
                        let es = kept_entries(p, h) + tail;
                        let names = es.map_values(|e: TreeEntryModel| e.name);
                        let tnames = tail.map_values(|e: TreeEntryModel| e.name);
                        assert forall|i: int| 0 <= i < es.len() implies order.contains(
                            #[trigger] es[i].name,
                        ) by {
                            if i < kept_entries(p, h).len() {
                                assert(es[i].name == p);
                                assert(order[0] == p);
                            } else {
                                let k = i - kept_entries(p, h).len();
                                assert(es[i] == tail[k]);
                                assert(rest.contains(tail[k].name));
                                let j = choose|j: int| 0 <= j < rest.len() && rest[j] == tail[k].name;
                                assert(order[j + 1] == rest[j]);
                            }
                        }
                        assert forall|i: int, j: int|
                            0 <= i < names.len() && 0 <= j < names.len() && i != j implies !same_path(
                            #[trigger] names[i],
                            #[trigger] names[j],
                        ) by {
                            let n = kept_entries(p, h).len() as int;
                            if i >= n && j >= n {
                                assert(names[i] == tnames[i - n] && names[j] == tnames[j - n]);
                            } else if i < n {
                                assert(names[i] == p);
                                assert(names[j] == tail[j - n].name);
                                assert(rest.contains(tail[j - n].name));
                                let m = choose|m: int| 0 <= m < rest.len() && rest[m] == tail[j - n].name;
                                assert(order[m + 1] == rest[m]);
                                assert(!same_path(order[0], order[m + 1]));
                            } else {
                                assert(names[j] == p);
                                assert(names[i] == tail[i - n].name);
                                assert(rest.contains(tail[i - n].name));
                                let m = choose|m: int| 0 <= m < rest.len() && rest[m] == tail[i - n].name;
                                assert(order[m + 1] == rest[m]);
                                assert(!same_path(order[m + 1], order[0]));
                            }
                        }
                    },
                    _ => {},
                }
            },
            _ => {},
        }
    }
}

/// A list of tree entries records `h` for `p`: a regular entry with that
/// hash when `h` is `Some`, no entry named `p` when it is `None`.
pub open spec fn records_hash(es: Seq<TreeEntryModel>, p: Seq<char>, h: Option<Seq<char>>) -> bool {
    match h {
        Some(x) => es.contains(TreeEntryModel { mode: FileMode::Regular, name: p, hash: x }),
        None => forall|i: int| 0 <= i < es.len() ==> (#[trigger] es[i]).name != p,
    }
}

/// What a merged tree records for each merged path: what the target and
/// the leaf both record, when they agree (the same new hash kept, or the
/// file gone when both deleted it); the leaf's hash when only the leaf
/// changed the path; the target's hash when only the target changed it.
pub proof fn lemma_merge_path_result(
    order: Seq<Seq<char>>,
    base: Seq<(Seq<char>, Seq<char>)>,
    target: Seq<(Seq<char>, Seq<char>)>,
    leaf: Seq<(Seq<char>, Seq<char>)>,
    rules: Seq<crate::acl::AccessRule>,
    user: Seq<char>,
    k: int,
)
    requires
        distinct_path_seq(order),
        0 <= k < order.len(),
    ensures
        plan_merge(order, base, target, leaf, rules, user) matches MergePlan::Entries(es) ==> {
            let p = order[k];
            let b = flat_get(base, p);
            let t = flat_get(target, p);
            let l = flat_get(leaf, p);
            &&& t == l ==> records_hash(es, p, t)
            &&& b == t ==> records_hash(es, p, l)
            &&& b == l ==> records_hash(es, p, t)
        },
    decreases order.len(),
{
    let rest = order.drop_first();
    assert(distinct_path_seq(rest)) by {
        assert forall|i: int, j: int|
            0 <= i < rest.len() && 0 <= j < rest.len() && i != j implies !same_path(
            #[trigger] rest[i],
            #[trigger] rest[j],
        ) by {
            assert(rest[i] == order[i + 1] && rest[j] == order[j + 1]);
        }
    }
    let p0 = order[0];
    let b0 = flat_get(base, p0);
    let t0 = flat_get(target, p0);
    let l0 = flat_get(leaf, p0);
    match decide_path(rules, user, p0, b0, t0, l0) {
        PathDecision::Keep(h0) => {
            match plan_merge(rest, base, target, leaf, rules, user) {
                MergePlan::Entries(tail) => {
                    let es = kept_entries(p0, h0) + tail;
                    lemma_merge_entries_distinct(rest, base, target, leaf, rules, user);
                    let p = order[k];
                    let b = flat_get(base, p);
                    let t = flat_get(target, p);
                    let l = flat_get(leaf, p);
                    if k == 0 {
                        assert forall|i: int| 0 <= i < tail.len() implies (#[trigger] tail[i]).name
                            != p0 by {
                            assert(rest.contains(tail[i].name));
                            let m = choose|m: int| 0 <= m < rest.len() && rest[m] == tail[i].name;
                            assert(order[m + 1] == rest[m]);
                            assert(!same_path(order[0], order[m + 1]));
                        }
                        assert forall|h: Option<Seq<char>>| h == h0 implies records_hash(es, p0, h) by {
                            match h {
                                Some(x) => {
                                    assert(es[0] == TreeEntryModel {
                                        mode: FileMode::Regular,
                                        name: p0,
                                        hash: x,
                                    });
                                },
                                None => {
                                    assert forall|i: int| 0 <= i < es.len() implies (
                                    #[trigger] es[i]).name != p0 by {
                                        assert(es[i] == tail[i]);
                                    }
                                },
                            }
                        }
                    } else {
                        lemma_merge_path_result(rest, base, target, leaf, rules, user, k - 1);
                        assert(rest[k - 1] == p);
                        assert(!same_path(order[0], order[k]));
                        let n = kept_entries(p0, h0).len() as int;
                        assert forall|h: Option<Seq<char>>| records_hash(tail, p, h) implies records_hash(
                            es,
                            p,
                            h,
                        ) by {
                            match h {
                                Some(x) => {
                                    let e = TreeEntryModel { mode: FileMode::Regular, name: p, hash: x };
                                    let j = choose|j: int| 0 <= j < tail.len() && tail[j] == e;
                                    assert(es[n + j] == tail[j]);
                                },
                                None => {
                                    assert forall|i: int| 0 <= i < es.len() implies (
                                    #[trigger] es[i]).name != p by {
                                        if i >= n {
                                            assert(es[i] == tail[i - n]);
                                        } else {
                                            assert(es[i].name == p0);
                                        }
                                    }
                                },
                            }
                        }
                    }
                },
                _ => {},
            }
        },
        _ => {},
    }
}

/// `Merge leaf '<name>' into target`
pub open spec fn merge_message(leaf_name: Seq<char>) -> Seq<char> {
    seq!['M', 'e', 'r', 'g', 'e', ' ', 'l', 'e', 'a', 'f', ' ', '\''] + leaf_name + seq![
        '\'',
        ' ',
        'i',
        'n',
        't',
        'o',
        ' ',
        't',
        'a',
        'r',
        'g',
        'e',
        't',
    ]
}

/// The commit that records a merge: the merged tree, the target and the leaf
/// as parents, the configured user as author and committer at `when`, and
/// the message `Merge leaf '<name>' into target`.
pub fn merge_commit(
    tree_hash: String,
    target_commit: String,
    leaf_commit: String,
    config: &BrassConfig,
    leaf_name: &str,
    when: std::time::SystemTime,
) -> (c: Commit)
    ensures
        c.tree_hash@ == tree_hash@,
        c.parent_hashes@.map_values(|s: String| s@) == seq![target_commit@, leaf_commit@],
        c.author.name@ == config.user_name@,
        c.author.email@ == config.user_email@,
        c.author.timestamp == when,
        c.committer.name@ == config.user_name@,
        c.committer.email@ == config.user_email@,
        c.committer.timestamp == when,
        c.message@ == merge_message(leaf_name@),
{
    let mut msg: Vec<char> = vec!['M', 'e', 'r', 'g', 'e', ' ', 'l', 'e', 'a', 'f', ' ', '\''];
    append_str(&mut msg, leaf_name);
    let tail = vec!['\'', ' ', 'i', 'n', 't', 'o', ' ', 't', 'a', 'r', 'g', 'e', 't'];
    crate::text::append_chars(&mut msg, &tail);
    assert(msg@ =~= merge_message(leaf_name@));
    let ghost tv = target_commit@;
    let ghost lv = leaf_commit@;
    let mut parents: Vec<String> = Vec::new();
    parents.push(target_commit);
    parents.push(leaf_commit);
    assert(parents@.map_values(|s: String| s@) =~= seq![tv, lv]);
    Commit {
        tree_hash,
        parent_hashes: parents,
        author: Signature {
            name: config.user_name.clone(),
            email: config.user_email.clone(),
            timestamp: when,
        },
        committer: Signature {
            name: config.user_name.clone(),
            email: config.user_email.clone(),
            timestamp: when,
        },
        message: string_of(&msg),
    }
}

} // verus!
