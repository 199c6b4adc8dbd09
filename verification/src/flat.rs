//! The files of a commit's tree, flattened: a map from paths to blob hashes
//! where paths are compared as paths (by their components).
use vstd::prelude::*;
use crate::path::{paths_equal, same_path};

verus! {

/// The index of the first entry whose path is the same path as `p`.
pub open spec fn find_path(es: Seq<(Seq<char>, Seq<char>)>, p: Seq<char>) -> Option<int>
    decreases es.len(),
{
    if es.len() == 0 {
        None
    } else {
        match find_path(es.drop_last(), p) {
            Some(i) => Some(i),
            None => if same_path(es.last().0, p) {
                Some(es.len() - 1)
            } else {
                None
            },
        }
    }
}

/// The hash recorded for a path.
pub open spec fn flat_get(es: Seq<(Seq<char>, Seq<char>)>, p: Seq<char>) -> Option<Seq<char>> {
    match find_path(es, p) {
        Some(i) => Some(es[i].1),
        None => None,
    }
}

/// No two entries name the same path.
pub open spec fn distinct_paths(es: Seq<(Seq<char>, Seq<char>)>) -> bool {
    forall|i: int, j: int|
        0 <= i < es.len() && 0 <= j < es.len() && i != j ==> !same_path(
            #[trigger] es[i].0,
            #[trigger] es[j].0,
        )
}

/// A map from paths to hashes; it keeps the path as first inserted.
pub struct FlatTree {
    entries: Vec<(String, String)>,
}

impl View for FlatTree {
    type V = Seq<(Seq<char>, Seq<char>)>;

    closed spec fn view(&self) -> Seq<(Seq<char>, Seq<char>)> {
        self.entries@.map_values(|e: (String, String)| (e.0@, e.1@))
    }
}

proof fn lemma_find_path_bounds(es: Seq<(Seq<char>, Seq<char>)>, p: Seq<char>)
    ensures
        find_path(es, p) matches Some(i) ==> 0 <= i < es.len() && same_path(es[i].0, p),
        find_path(es, p) is None ==> forall|j: int|
            0 <= j < es.len() ==> !same_path(#[trigger] es[j].0, p),
    decreases es.len(),
{
    if es.len() > 0 {
        lemma_find_path_bounds(es.drop_last(), p);
        assert forall|j: int| 0 <= j < es.len() - 1 implies es.drop_last()[j] == es[j] by {}
    }
}

/// `find_path` gives the only entry with that path when paths are distinct.
proof fn lemma_find_path_unique(es: Seq<(Seq<char>, Seq<char>)>, p: Seq<char>, k: int)
    requires
        distinct_paths(es),
        0 <= k < es.len(),
        same_path(es[k].0, p),
    ensures
        find_path(es, p) == Some(k),
    decreases es.len(),
{
    lemma_find_path_bounds(es, p);
    if k < es.len() - 1 {
        let init = es.drop_last();
        assert(init[k] == es[k]);
        assert(distinct_paths(init)) by {
            assert forall|i: int, j: int|
                0 <= i < init.len() && 0 <= j < init.len() && i != j implies !same_path(
                #[trigger] init[i].0,
                #[trigger] init[j].0,
            ) by {
                assert(init[i] == es[i] && init[j] == es[j]);
            }
        }
        lemma_find_path_unique(init, p, k);
    } else {
        lemma_find_path_bounds(es.drop_last(), p);
        if let Some(i) = find_path(es.drop_last(), p) {
            assert(es.drop_last()[i] == es[i]);
            assert(same_path(es[i].0, es[k].0));
        }
    }
}

impl FlatTree {
    /// The map's invariant: no two entries share a path.
    pub closed spec fn wf(&self) -> bool {
        distinct_paths(self@)
    }

    /// An empty map.
    pub fn new() -> (r: FlatTree)
        ensures
            r@ == Seq::<(Seq<char>, Seq<char>)>::empty(),
            r.wf(),
    {
        let r = FlatTree { entries: Vec::new() };
        assert(r@ =~= Seq::<(Seq<char>, Seq<char>)>::empty());
        r
    }

    /// The position of `path` among the entries.
    fn position(&self, path: &str) -> (r: Option<usize>)
        ensures
            r matches Some(i) ==> find_path(self@, path@) == Some(i as int),
            r is None ==> find_path(self@, path@) is None,
    {
        let mut i: usize = 0;
        let ghost es = self@;
        while i < self.entries.len()
            invariant
                es == self@,
                es.len() == self.entries@.len(),
                i <= es.len(),
                find_path(es.take(i as int), path@) is None,
            decreases es.len() - i,
        {
            assert(es[i as int] == (self.entries@[i as int].0@, self.entries@[i as int].1@));
            let ghost pre = es.take(i as int);
            assert(es.take(i + 1).drop_last() =~= pre);
            assert(es.take(i + 1).last() == es[i as int]);
            if paths_equal(self.entries[i].0.as_str(), path) {
                proof {
                    lemma_find_path_bounds(es, path@);
                    lemma_find_path_prefix(es, i as int + 1, path@);
                }
                return Some(i);
            }
            i = i + 1;
        }
        assert(es.take(es.len() as int) =~= es);
        None
    }

    /// The hash recorded for `path`.
    pub fn get(&self, path: &str) -> (r: Option<String>)
        ensures
            r matches Some(h) ==> flat_get(self@, path@) == Some(h@),
            r is None ==> flat_get(self@, path@) is None,
    {
        match self.position(path) {
            Some(i) => {
                proof {
                    lemma_find_path_bounds(self@, path@);
                }
                assert(self@[i as int].1 == self.entries@[i as int].1@);
                Some(self.entries[i].1.clone())
            },
            None => None,
        }
    }

    /// Records `hash` for `path`: an entry with the same path gets the new
    /// hash and keeps its path; otherwise the pair is added at the end.
    pub fn insert(&mut self, path: String, hash: String)
        ensures
            old(self).wf() ==> final(self).wf(),
            find_path(old(self)@, path@) matches Some(i) ==> final(self)@ == old(self)@.update(
                i,
                (old(self)@[i].0, hash@),
            ),
            find_path(old(self)@, path@) is None ==> final(self)@ == old(self)@.push(
                (path@, hash@),
            ),
    {
        let ghost es = self@;
        proof {
            lemma_find_path_bounds(es, path@);
        }
        match self.position(path.as_str()) {
            Some(i) => {
                let key = self.entries[i].0.clone();
                self.entries.set(i, (key, hash));
                assert(self@ =~= es.update(i as int, (es[i as int].0, hash@)));
                assert forall|a: int, b: int|
                    distinct_paths(es) && 0 <= a < self@.len() && 0 <= b < self@.len() && a != b
                        implies !same_path(#[trigger] self@[a].0, #[trigger] self@[b].0) by {
                    assert(self@[a].0 == es[a].0 && self@[b].0 == es[b].0);
                }
            },
            None => {
                let ghost hv = hash@;
                let ghost pv = path@;
                self.entries.push((path, hash));
                assert(self@ =~= es.push((pv, hv)));
                assert forall|a: int, b: int|
                    distinct_paths(es) && 0 <= a < self@.len() && 0 <= b < self@.len() && a != b
                        implies !same_path(#[trigger] self@[a].0, #[trigger] self@[b].0) by {
                    if a < es.len() && b < es.len() {
                        assert(self@[a] == es[a] && self@[b] == es[b]);
                    } else if a == es.len() {
                        assert(self@[b] == es[b]);
                        assert(!same_path(es[b].0, pv));
                    } else {
                        assert(self@[a] == es[a]);
                        assert(!same_path(es[a].0, pv));
                    }
                }
            },
        }
    }

    /// The recorded paths, in order.
    pub fn paths(&self) -> (r: Vec<String>)
        ensures
            r@.map_values(|s: String| s@) == self@.map_values(|e: (Seq<char>, Seq<char>)| e.0),
    {
        let mut r: Vec<String> = Vec::new();
        let mut i: usize = 0;
        while i < self.entries.len()
            invariant
                i <= self.entries@.len(),
                r@.map_values(|s: String| s@) == self@.take(i as int).map_values(
                    |e: (Seq<char>, Seq<char>)| e.0,
                ),
            decreases self.entries@.len() - i,
        {
            let ghost before = r@.map_values(|s: String| s@);
            let k = self.entries[i].0.clone();
            let ghost kv = k@;
            r.push(k);
            assert(self@[i as int].0 == self.entries@[i as int].0@);
            assert(kv == self@[i as int].0);
            assert(r@.map_values(|s: String| s@) =~= before.push(kv));
            assert(self@.take(i + 1).map_values(|e: (Seq<char>, Seq<char>)| e.0) =~= self@.take(
                i as int,
            ).map_values(|e: (Seq<char>, Seq<char>)| e.0).push(self@[i as int].0));
            assert(r@.map_values(|s: String| s@) =~= self@.take(i + 1).map_values(
                |e: (Seq<char>, Seq<char>)| e.0,
            ));
            i = i + 1;
        }
        assert(self@.take(self@.len() as int) =~= self@);
        r
    }

    /// The number of entries.
    pub fn len(&self) -> (n: usize)
        ensures
            n == self@.len(),
    {
        self.entries.len()
    }
}

/// A prefix of the entries where the path first appears at its last position.
proof fn lemma_find_path_prefix(es: Seq<(Seq<char>, Seq<char>)>, n: int, p: Seq<char>)
    requires
        0 < n <= es.len(),
        find_path(es.take(n - 1), p) is None,
        same_path(es[n - 1].0, p),
    ensures
        find_path(es, p) == Some(n - 1),
    decreases es.len(),
{
    if n < es.len() {
        assert(es.drop_last().take(n - 1) =~= es.take(n - 1));
        assert(es.drop_last()[n - 1] == es[n - 1]);
        lemma_find_path_prefix(es.drop_last(), n, p);
    } else {
        assert(es.take(n - 1) =~= es.drop_last());
    }
}


/// Reading a path after recording a hash for it gives that hash.
pub proof fn lemma_insert_then_get(es: Seq<(Seq<char>, Seq<char>)>, p: Seq<char>, h: Seq<char>)
    requires
        distinct_paths(es),
    ensures
        find_path(es, p) matches Some(i) ==> flat_get(es.update(i, (es[i].0, h)), p) == Some(h),
        find_path(es, p) is None ==> flat_get(es.push((p, h)), p) == Some(h),
{
    lemma_find_path_bounds(es, p);
    match find_path(es, p) {
        Some(i) => {
            let es2 = es.update(i, (es[i].0, h));
            assert(distinct_paths(es2)) by {
                assert forall|a: int, b: int|
                    0 <= a < es2.len() && 0 <= b < es2.len() && a != b implies !same_path(
                    #[trigger] es2[a].0,
                    #[trigger] es2[b].0,
                ) by {
                    assert(es2[a].0 == es[a].0 && es2[b].0 == es[b].0);
                }
            }
            assert(same_path(es2[i].0, p));
            lemma_find_path_unique(es2, p, i);
        },
        None => {
            let es2 = es.push((p, h));
            let n = es.len() as int;
            assert(es2.drop_last() =~= es);
            assert(es2.last() == (p, h));
            assert(find_path(es2, p) == Some(n));
        },
    }
}

} // verus!
