//! Decisions about the work tree: staging files, building a commit from the
//! index, and the status of files.
use vstd::prelude::*;
use crate::acl::{acl_allows, AclConfig};
use crate::flat::{flat_get, FlatTree};
use crate::ignore::{any_matches, set_default, set_patterns, BrassIgnore};
use crate::index::{Index, IndexEntry, IndexEntryModel};
use crate::object::{
    object_id, BrassObject, Blob, Commit, FileMode, ObjectModel, Signature, Tree, TreeEntry,
    TreeEntryModel,
};
use crate::path::{paths_equal, same_path};
use crate::text::{chars_eq, chars_of};

verus! {

/// The position of the first path in `ps` that is the same path as `p`.
pub open spec fn find_first_path(ps: Seq<Seq<char>>, p: Seq<char>) -> Option<int>
    decreases ps.len(),
{
    if ps.len() == 0 {
        None
    } else {
        match find_first_path(ps.drop_last(), p) {
            Some(i) => Some(i),
            None => if same_path(ps.last(), p) {
                Some(ps.len() - 1)
            } else {
                None
            },
        }
    }
}

/// The paths of index entries.
pub open spec fn entry_paths(es: Seq<IndexEntryModel>) -> Seq<Seq<char>> {
    es.map_values(|e: IndexEntryModel| e.path)
}

proof fn lemma_find_first_step(ps: Seq<Seq<char>>, i: int, p: Seq<char>)
    requires
        0 <= i < ps.len(),
        find_first_path(ps.take(i), p) is None,
    ensures
        find_first_path(ps.take(i + 1), p) == (if same_path(ps[i], p) {
            Some(i)
        } else {
            None::<int>
        }),
{
    assert(ps.take(i + 1).drop_last() =~= ps.take(i));
    assert(ps.take(i + 1).last() == ps[i]);
}

proof fn lemma_find_first_extend(ps: Seq<Seq<char>>, n: int, p: Seq<char>)
    requires
        0 <= n <= ps.len(),
        find_first_path(ps.take(n), p) matches Some(k),
    ensures
        find_first_path(ps, p) == find_first_path(ps.take(n), p),
    decreases ps.len() - n,
{
    if n < ps.len() {
        assert(ps.take(n + 1).drop_last() =~= ps.take(n));
        lemma_find_first_extend(ps, n + 1, p);
    } else {
        assert(ps.take(n) =~= ps);
    }
}

/// The position of the first index entry for `path`.
fn position_in(index: &Index, path: &str) -> (r: Option<usize>)
    ensures
        r matches Some(i) ==> find_first_path(entry_paths(index@), path@) == Some(i as int) && i
            < index.entries@.len(),
        r is None ==> find_first_path(entry_paths(index@), path@) is None,
{
    let ghost ps = entry_paths(index@);
    let mut i: usize = 0;
    assert(ps.take(0) =~= Seq::<Seq<char>>::empty());
    while i < index.entries.len()
        invariant
            ps == entry_paths(index@),
            ps.len() == index.entries@.len(),
            i <= ps.len(),
            find_first_path(ps.take(i as int), path@) is None,
        decreases ps.len() - i,
    {
        assert(ps[i as int] == index.entries@[i as int].path@);
        proof {
            lemma_find_first_step(ps, i as int, path@);
        }
        if paths_equal(index.entries[i].path.as_str(), path) {
            proof {
                lemma_find_first_extend(ps, i + 1, path@);
            }
            return Some(i);
        }
        i = i + 1;
    }
    assert(ps.take(ps.len() as int) =~= ps);
    None
}

/// The recorded entries after staging `e`: it replaces the first entry for
/// the same path, or is appended.
pub open spec fn staged_with(es: Seq<IndexEntryModel>, e: IndexEntryModel) -> Seq<IndexEntryModel> {
    match find_first_path(entry_paths(es), e.path) {
        Some(i) => es.update(i, e),
        None => es.push(e),
    }
}

impl Index {
    /// Stages an entry: it replaces the first entry for the same path, or is
    /// appended when the path is not staged yet.
    pub fn stage(&mut self, entry: IndexEntry)
        ensures
            final(self)@ == staged_with(old(self)@, entry@),
            find_first_path(entry_paths(old(self)@), entry.path@) matches Some(i)
                ==> final(self).entries@ == old(self).entries@.update(i, entry),
            find_first_path(entry_paths(old(self)@), entry.path@) is None
                ==> final(self).entries@ == old(self).entries@.push(entry),
    {
        let ghost before = self@;
        let ghost ev = entry@;
        match position_in(self, entry.path.as_str()) {
            Some(i) => {
                self.entries.set(i, entry);
                assert(self@ =~= before.update(i as int, ev));
            },
            None => {
                self.entries.push(entry);
                assert(self@ =~= before.push(ev));
            },
        }
    }

    /// The entry staged for `path`, if any.
    pub fn find(&self, path: &str) -> (r: Option<&IndexEntry>)
        ensures
            find_first_path(entry_paths(self@), path@) matches Some(i) ==> r == Some(
                &self.entries@[i],
            ),
            find_first_path(entry_paths(self@), path@) is None ==> r is None,
    {
        match position_in(self, path) {
            Some(i) => Some(&self.entries[i]),
            None => None,
        }
    }
}

impl Tree {
    /// The tree a commit records for an index: one entry per staged file,
    /// in order, named by the file's path.
    pub fn from_index(index: &Index) -> (t: Tree)
        ensures
            t@ == index@.map_values(
                |e: IndexEntryModel| TreeEntryModel { mode: e.mode, name: e.path, hash: e.hash },
            ),
    {
        let ghost want = index@.map_values(
            |e: IndexEntryModel| TreeEntryModel { mode: e.mode, name: e.path, hash: e.hash },
        );
        let mut entries: Vec<TreeEntry> = Vec::new();
        let mut i: usize = 0;
        while i < index.entries.len()
            invariant
                want == index@.map_values(
                    |e: IndexEntryModel| TreeEntryModel { mode: e.mode, name: e.path, hash: e.hash },
                ),
                i <= index.entries@.len(),
                entries@.map_values(|e: TreeEntry| e@) == want.take(i as int),
            decreases index.entries@.len() - i,
        {
            let e = &index.entries[i];
            let te = TreeEntry { mode: e.mode, name: e.path.clone(), hash: e.hash.clone() };
            let ghost before = entries@.map_values(|e: TreeEntry| e@);
            let ghost tv = te@;
            entries.push(te);
            assert(want[i as int] == tv);
            assert(entries@.map_values(|e: TreeEntry| e@) =~= before.push(tv));
            assert(want.take(i + 1) =~= want.take(i as int).push(want[i as int]));
            i = i + 1;
        }
        assert(want.take(want.len() as int) =~= want);
        Tree { entries }
    }
}

impl Commit {
    /// A new commit of a tree: the current head (if any) as its parent, the
    /// author also as committer.
    pub fn new_on(tree_hash: String, head: Option<String>, author: Signature, message: String) -> (c: Commit)
        ensures
            c.tree_hash == tree_hash,
            c.parent_hashes@ == match head {
                Some(h) => seq![h],
                None => Seq::<String>::empty(),
            },
            c.author == author,
            c.committer == author,
            c.message == message,
    {
        let mut parents: Vec<String> = Vec::new();
        match head {
            Some(h) => {
                parents.push(h);
                assert(parents@ =~= seq![h]);
            },
            None => {
                assert(parents@ =~= Seq::<String>::empty());
            },
        }
        let committer = author.clone();
        Commit { tree_hash, parent_hashes: parents, author, committer, message }
    }
}

/// What adding a file comes to before its contents are read.
#[derive(Debug, Clone, Copy, PartialEq, Eq, Structural)]
pub enum AddCheck {
    /// The path is ignored: nothing is staged.
    Ignored,
    /// The user may not write the path.
    Denied,
    /// The file is to be read and staged.
    Allowed,
}

/// Whether a path may be added: ignored paths are skipped, paths the user
/// may not write are refused.  Which paths are ignored is stated for a set
/// of globs with the default options, as the library builds.
pub fn check_add(ignore: &BrassIgnore, acl: &AclConfig, user: &str, path: &str) -> (r: AddCheck)
    ensures
        set_default(ignore.glob_set) ==> (r == AddCheck::Ignored <==> any_matches(
            set_patterns(ignore.glob_set),
            path@,
        )),
        r == AddCheck::Denied ==> !acl_allows(acl.rules@, user@, path@),
        r == AddCheck::Allowed ==> acl_allows(acl.rules@, user@, path@),
{
    if ignore.is_ignored(path) {
        AddCheck::Ignored
    } else if !acl.can_write(user, path) {
        AddCheck::Denied
    } else {
        AddCheck::Allowed
    }
}

/// The mode recorded for a file: read-only files are regular, others
/// executable.
pub fn mode_for_permissions(readonly: bool) -> (m: FileMode)
    ensures
        m == (if readonly {
            FileMode::Regular
        } else {
            FileMode::Executable
        }),
{
    if readonly {
        FileMode::Regular
    } else {
        FileMode::Executable
    }
}

/// How a path differs between the index and the head commit.
#[derive(Debug, Clone, Copy, PartialEq, Eq, Structural)]
pub enum ChangeKind {
    /// Staged with a hash other than the head's, or new.
    Staged,
    /// In the head commit but no longer staged.
    DeletedStaged,
}

impl ChangeKind {
    /// The label under which the status lists the change.
    pub fn label(&self) -> (s: &'static str)
        ensures
            *self == ChangeKind::Staged ==> s@ == seq!['s', 't', 'a', 'g', 'e', 'd'],
            *self == ChangeKind::DeletedStaged ==> s@ == seq![
                'd', 'e', 'l', 'e', 't', 'e', 'd', ' ', '(', 's', 't', 'a', 'g', 'e', 'd', ')',
            ],
    {
        proof {
            reveal_strlit("staged");
            reveal_strlit("deleted (staged)");
        }
        match self {
            ChangeKind::Staged => "staged",
            ChangeKind::DeletedStaged => "deleted (staged)",
        }
    }
}

/// The staged entries whose hash differs from the head's.
pub open spec fn staged_part(
    es: Seq<IndexEntryModel>,
    head: Seq<(Seq<char>, Seq<char>)>,
) -> Seq<(Seq<char>, ChangeKind)> {
    es.filter(|e: IndexEntryModel| flat_get(head, e.path) != Some(e.hash)).map_values(
        |e: IndexEntryModel| (e.path, ChangeKind::Staged),
    )
}

/// The staged changes, built entry by entry in index order: no entries list
/// nothing; an added entry is listed, as staged, exactly when HEAD records
/// no hash or another hash for its path.
pub proof fn lemma_staged_part_step(
    es: Seq<IndexEntryModel>,
    head: Seq<(Seq<char>, Seq<char>)>,
    e: IndexEntryModel,
)
    ensures
        staged_part(Seq::<IndexEntryModel>::empty(), head) == Seq::<(Seq<char>, ChangeKind)>::empty(),
        staged_part(es.push(e), head) == staged_part(es, head) + (if flat_get(head, e.path) == Some(
            e.hash,
        ) {
            Seq::<(Seq<char>, ChangeKind)>::empty()
        } else {
            seq![(e.path, ChangeKind::Staged)]
        }),
{
    let pred = |x: IndexEntryModel| flat_get(head, x.path) != Some(x.hash);
    let f = |x: IndexEntryModel| (x.path, ChangeKind::Staged);
    reveal_with_fuel(Seq::<IndexEntryModel>::filter, 1);
    assert(Seq::<IndexEntryModel>::empty().filter(pred) =~= Seq::<IndexEntryModel>::empty());
    assert(Seq::<IndexEntryModel>::empty().filter(pred).map_values(f) =~= Seq::<
        (Seq<char>, ChangeKind),
    >::empty());
    assert(es.push(e).drop_last() =~= es);
    let before = es.filter(pred);
    if pred(e) {
        assert(es.push(e).filter(pred) == before.push(e));
        assert(before.push(e).map_values(f) =~= before.map_values(f) + seq![f(e)]);
    } else {
        assert(es.push(e).filter(pred) == before);
        assert(before.map_values(f) + Seq::<(Seq<char>, ChangeKind)>::empty() =~= before.map_values(f));
    }
}

/// Some entry is staged for the same path as `p`.
pub open spec fn is_staged(es: Seq<IndexEntryModel>, p: Seq<char>) -> bool {
    exists|i: int| 0 <= i < es.len() && same_path(#[trigger] es[i].path, p)
}

/// The head's files that are no longer staged.
pub open spec fn deleted_part(
    es: Seq<IndexEntryModel>,
    head: Seq<(Seq<char>, Seq<char>)>,
) -> Seq<(Seq<char>, ChangeKind)> {
    head.filter(|h: (Seq<char>, Seq<char>)| !is_staged(es, h.0)).map_values(
        |h: (Seq<char>, Seq<char>)| (h.0, ChangeKind::DeletedStaged),
    )
}

fn staged_somewhere(index: &Index, p: &str) -> (r: bool)
    ensures
        r == is_staged(index@, p@),
{
    let mut i: usize = 0;
    while i < index.entries.len()
        invariant
            i <= index.entries@.len(),
            forall|j: int| 0 <= j < i ==> !same_path(#[trigger] index@[j].path, p@),
        decreases index.entries@.len() - i,
    {
        assert(index@[i as int].path == index.entries@[i as int].path@);
        if paths_equal(index.entries[i].path.as_str(), p) {
            return true;
        }
        i = i + 1;
    }
    false
}

/// The changes between the head commit's files and the index: first the
/// staged entries whose hash differs from the head's, in index order, then
/// the head's files that are no longer staged, in the head's order.
pub fn staged_changes(index: &Index, head: &FlatTree) -> (r: Vec<(String, ChangeKind)>)
    ensures
        r@.map_values(|c: (String, ChangeKind)| (c.0@, c.1)) == staged_part(index@, head@)
            + deleted_part(index@, head@),
{
    let ghost es = index@;
    let ghost sp = |e: IndexEntryModel| flat_get(head@, e.path) != Some(e.hash);
    let ghost sm = |e: IndexEntryModel| (e.path, ChangeKind::Staged);
    let ghost cv = |c: (String, ChangeKind)| (c.0@, c.1);
    let mut r: Vec<(String, ChangeKind)> = Vec::new();
    let mut i: usize = 0;
    assert(es.take(0).filter(sp) =~= Seq::<IndexEntryModel>::empty()) by {
        reveal_with_fuel(Seq::<IndexEntryModel>::filter, 1);
    }
    assert(r@.map_values(cv) =~= Seq::<(Seq<char>, ChangeKind)>::empty());
    while i < index.entries.len()
        invariant
            es == index@,
            sp == (|e: IndexEntryModel| flat_get(head@, e.path) != Some(e.hash)),
            sm == (|e: IndexEntryModel| (e.path, ChangeKind::Staged)),
            cv == (|c: (String, ChangeKind)| (c.0@, c.1)),
            i <= es.len(),
            es.len() == index.entries@.len(),
            r@.map_values(cv) == es.take(i as int).filter(sp).map_values(sm),
        decreases es.len() - i,
    {
        let e = &index.entries[i];
        assert(es[i as int] == e@);
        let ghost pre = es.take(i as int).filter(sp);
        assert(es.take(i + 1).drop_last() =~= es.take(i as int));
        assert(es.take(i + 1).last() == e@);
        reveal_with_fuel(Seq::<IndexEntryModel>::filter, 1);
        let h = head.get(e.path.as_str());
        let same = match &h {
            Some(x) => chars_eq(&chars_of(x.as_str()), &chars_of(e.hash.as_str())),
            None => false,
        };
        assert(same == (flat_get(head@, e@.path) == Some(e@.hash)));
        let ghost before = r@.map_values(cv);
        if !same {
            r.push((e.path.clone(), ChangeKind::Staged));
            assert(r@.map_values(cv) =~= before.push(sm(e@)));
            assert(pre.push(e@).map_values(sm) =~= pre.map_values(sm).push(sm(e@)));
        }
        i = i + 1;
    }
    assert(es.take(es.len() as int) =~= es);
    let ghost first = r@.map_values(cv);
    let paths = head.paths();
    let ghost hv = head@;
    let ghost dp = |h: (Seq<char>, Seq<char>)| !is_staged(es, h.0);
    let ghost dm = |h: (Seq<char>, Seq<char>)| (h.0, ChangeKind::DeletedStaged);
    let mut k: usize = 0;
    assert(hv.take(0).filter(dp) =~= Seq::<(Seq<char>, Seq<char>)>::empty()) by {
        reveal_with_fuel(Seq::<(Seq<char>, Seq<char>)>::filter, 1);
    }
    assert(first =~= first + hv.take(0).filter(dp).map_values(dm));
    assert(paths@.len() == hv.len()) by {
        assert(paths@.map_values(|s: String| s@).len() == paths@.len());
    }
    while k < paths.len()
        invariant
            es == index@,
            hv == head@,
            paths@.map_values(|s: String| s@) == hv.map_values(|e: (Seq<char>, Seq<char>)| e.0),
            paths@.len() == hv.len(),
            dp == (|h: (Seq<char>, Seq<char>)| !is_staged(es, h.0)),
            dm == (|h: (Seq<char>, Seq<char>)| (h.0, ChangeKind::DeletedStaged)),
            cv == (|c: (String, ChangeKind)| (c.0@, c.1)),
            k <= hv.len(),
            r@.map_values(cv) == first + hv.take(k as int).filter(dp).map_values(dm),
        decreases hv.len() - k,
    {
        let p = &paths[k];
        assert(paths@.map_values(|s: String| s@)[k as int] == p@);
        assert(hv[k as int].0 == p@);
        let ghost pre = hv.take(k as int).filter(dp);
        assert(hv.take(k + 1).drop_last() =~= hv.take(k as int));
        assert(hv.take(k + 1).last() == hv[k as int]);
        reveal_with_fuel(Seq::<(Seq<char>, Seq<char>)>::filter, 1);
        let ghost before = r@.map_values(cv);
        if !staged_somewhere(index, p.as_str()) {
            r.push((p.clone(), ChangeKind::DeletedStaged));
            assert(r@.map_values(cv) =~= before.push(dm(hv[k as int])));
            assert(pre.push(hv[k as int]).map_values(dm) =~= pre.map_values(dm).push(
                dm(hv[k as int]),
            ));
            assert(first + pre.push(hv[k as int]).map_values(dm) =~= before.push(
                dm(hv[k as int]),
            ));
        }
        k = k + 1;
    }
    assert(hv.take(hv.len() as int) =~= hv);
    r
}

/// The status of a file in the work tree.
#[derive(Debug, Clone, Copy, PartialEq, Eq, Structural)]
pub enum FileStatus {
    /// Staged, with the same contents.
    Unchanged,
    /// Staged, with other contents.
    Modified,
    /// Not staged.
    Untracked,
}

/// The status of a work-tree file with contents `data`: untracked when no
/// entry is staged for its path, modified when the identifier of its blob
/// differs from the staged hash.
pub open spec fn file_status(es: Seq<IndexEntryModel>, path: Seq<char>, data: Seq<u8>) -> FileStatus {
    match find_first_path(entry_paths(es), path) {
        Some(i) => if object_id(ObjectModel::Blob(data)) != es[i].hash {
            FileStatus::Modified
        } else {
            FileStatus::Unchanged
        },
        None => FileStatus::Untracked,
    }
}

/// Classifies a work-tree file.
pub fn classify_file(index: &Index, path: &str, data: Vec<u8>) -> (r: FileStatus)
    ensures
        r == file_status(index@, path@, data@),
{
    match position_in(index, path) {
        None => FileStatus::Untracked,
        Some(i) => {
            let ghost dv = data@;
            let obj = BrassObject::Blob(Blob { data });
            assert(obj@ == ObjectModel::Blob(dv));
            let (id, _) = obj.serialize();
            assert(index@[i as int].hash == index.entries@[i as int].hash@);
            if chars_eq(&chars_of(id.as_str()), &chars_of(index.entries[i].hash.as_str())) {
                FileStatus::Unchanged
            } else {
                FileStatus::Modified
            }
        },
    }
}


proof fn lemma_find_first_char(ps: Seq<Seq<char>>, p: Seq<char>)
    ensures
        find_first_path(ps, p) matches Some(i) ==> 0 <= i < ps.len() && same_path(ps[i], p)
            && forall|j: int| 0 <= j < i ==> !same_path(#[trigger] ps[j], p),
        find_first_path(ps, p) is None ==> forall|j: int|
            0 <= j < ps.len() ==> !same_path(#[trigger] ps[j], p),
    decreases ps.len(),
{
    if ps.len() > 0 {
        lemma_find_first_char(ps.drop_last(), p);
        assert forall|j: int| 0 <= j < ps.len() - 1 implies ps.drop_last()[j] == ps[j] by {}
    }
}

proof fn lemma_find_first_at(ps: Seq<Seq<char>>, p: Seq<char>, i: int)
    requires
        0 <= i < ps.len(),
        same_path(ps[i], p),
        forall|j: int| 0 <= j < i ==> !same_path(#[trigger] ps[j], p),
    ensures
        find_first_path(ps, p) == Some(i),
    decreases ps.len(),
{
    if i < ps.len() - 1 {
        let init = ps.drop_last();
        assert(init[i] == ps[i]);
        assert forall|j: int| 0 <= j < i implies !same_path(#[trigger] init[j], p) by {
            assert(init[j] == ps[j]);
        }
        lemma_find_first_at(init, p, i);
    } else {
        lemma_find_first_char(ps.drop_last(), p);
        assert forall|j: int| 0 <= j < ps.len() - 1 implies !same_path(#[trigger] ps.drop_last()[j], p) by {
            assert(ps.drop_last()[j] == ps[j]);
        }
    }
}

/// Finding a path right after staging an entry for it gives that entry.
pub proof fn lemma_stage_then_find(es: Seq<IndexEntryModel>, e: IndexEntryModel)
    ensures
        find_first_path(entry_paths(es), e.path) matches Some(i) ==> ({
            let es2 = es.update(i, e);
            find_first_path(entry_paths(es2), e.path) == Some(i) && es2[i] == e
        }),
        find_first_path(entry_paths(es), e.path) is None ==> ({
            let es2 = es.push(e);
            find_first_path(entry_paths(es2), e.path) == Some(es.len() as int) && es2[es.len() as int]
                == e
        }),
{
    let ps = entry_paths(es);
    lemma_find_first_char(ps, e.path);
    match find_first_path(ps, e.path) {
        Some(i) => {
            let es2 = es.update(i, e);
            let ps2 = entry_paths(es2);
            assert(ps2[i] == e.path);
            assert forall|j: int| 0 <= j < i implies !same_path(#[trigger] ps2[j], e.path) by {
                assert(ps2[j] == ps[j]);
            }
            lemma_find_first_at(ps2, e.path, i);
        },
        None => {
            let es2 = es.push(e);
            let ps2 = entry_paths(es2);
            let n = es.len() as int;
            assert(ps2[n] == e.path);
            assert forall|j: int| 0 <= j < n implies !same_path(#[trigger] ps2[j], e.path) by {
                assert(ps2[j] == ps[j]);
            }
            lemma_find_first_at(ps2, e.path, n);
        },
    }
}

/// A file staged with the identifier of its contents' blob shows as
/// unchanged while it keeps those contents, and as modified once its
/// contents get another identifier.
pub proof fn lemma_staged_file_status(es: Seq<IndexEntryModel>, e: IndexEntryModel, data: Seq<u8>)
    requires
        e.hash == object_id(ObjectModel::Blob(data)),
    ensures
        file_status(staged_with(es, e), e.path, data) == FileStatus::Unchanged,
        forall|other: Seq<u8>|
            object_id(ObjectModel::Blob(other)) != e.hash ==> #[trigger] file_status(
                staged_with(es, e),
                e.path,
                other,
            ) == FileStatus::Modified,
{
    lemma_stage_then_find(es, e);
}

} // verus!
