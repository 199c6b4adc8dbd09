use brass_control::acl::{AccessLevel, AccessRule, AclConfig};
use brass_control::flat::FlatTree;
use brass_control::ignore::BrassIgnore;
use brass_control::index::{Index, IndexEntry};
use brass_control::object::{Blob, BrassObject, Commit, FileMode, Signature, Tree, TreeEntry};
use brass_control::worktree::{
    check_add, classify_file, mode_for_permissions, staged_changes, AddCheck, ChangeKind, FileStatus,
};
use std::time::SystemTime;

fn ie(path: &str, hash: &str, mode: FileMode) -> IndexEntry {
    IndexEntry {
        path: path.to_string(),
        hash: hash.to_string(),
        mode,
        modified_at: SystemTime::now(),
        file_size: 1,
    }
}

#[test]
fn builtin_rules_ignore_the_repository_directory() {
    let ig = BrassIgnore::from_rules(None);
    assert_eq!(
        ig.raw_patterns,
        vec![".brass_control/**", "**/.brass_control/**", ".brass_control_ignore"]
    );
    assert!(ig.is_ignored(".brass_control/objects/ab/cd"));
    assert!(ig.is_ignored("sub/.brass_control/HEAD"));
    assert!(ig.is_ignored(".brass_control_ignore"));
    assert!(!ig.is_ignored("src/main.rs"));
}

#[test]
fn ignore_file_rules_are_normalized() {
    let text = "# comment\n\n  target/  \n*.log\n/build/out\n";
    let ig = BrassIgnore::from_rules(Some(text));
    assert_eq!(
        ig.raw_patterns,
        vec![
            ".brass_control/**",
            "**/.brass_control/**",
            ".brass_control_ignore",
            "target/",
            "*.log",
            "/build/out",
        ]
    );
    assert!(ig.is_ignored("target/debug/app"));
    assert!(ig.is_ignored("deep/dir/run.log"));
    assert!(ig.is_ignored("build/out"));
    assert!(!ig.is_ignored("src/lib.rs"));
    assert!(!ig.is_ignored("other/build/out"));
}

#[test]
fn ignore_rules_that_do_not_parse_are_dropped() {
    let ig = BrassIgnore::from_rules(Some("a[\nkeep.txt\n"));
    assert_eq!(ig.raw_patterns.len(), 4);
    assert_eq!(ig.raw_patterns[3], "keep.txt");
    assert!(ig.is_ignored("x/keep.txt"));
}

#[test]
fn default_ignore_covers_the_repository_directory() {
    let ig = BrassIgnore::default();
    assert_eq!(ig.raw_patterns, vec![".brass_control/**"]);
    assert!(ig.is_ignored(".brass_control/HEAD"));
    assert!(ig.is_ignored("a/.brass_control/index"));
    assert!(!ig.is_ignored("README.md"));
}

#[test]
fn adding_checks_ignore_then_access() {
    let ig = BrassIgnore::from_rules(Some("*.tmp\n"));
    let acl = AclConfig {
        rules: vec![AccessRule {
            user: "ann".to_string(),
            path_pattern: "docs/**".to_string(),
            access: AccessLevel::ReadOnly,
        }],
    };
    assert_eq!(check_add(&ig, &acl, "ann", "docs/x.tmp"), AddCheck::Ignored);
    assert_eq!(check_add(&ig, &acl, "ann", "docs/x.md"), AddCheck::Denied);
    assert_eq!(check_add(&ig, &acl, "bob", "docs/x.md"), AddCheck::Allowed);
    assert_eq!(check_add(&ig, &acl, "ann", "src/a.rs"), AddCheck::Allowed);
}

#[test]
fn modes_follow_permissions() {
    assert_eq!(mode_for_permissions(true), FileMode::Regular);
    assert_eq!(mode_for_permissions(false), FileMode::Executable);
}

#[test]
fn staging_replaces_the_same_path() {
    let mut idx = Index::new();
    idx.stage(ie("a", "h1", FileMode::Regular));
    idx.stage(ie("b", "h2", FileMode::Regular));
    idx.stage(ie("a/", "h3", FileMode::Executable));
    assert_eq!(idx.entries.len(), 2);
    assert_eq!(idx.entries[0].path, "a/");
    assert_eq!(idx.entries[0].hash, "h3");
    assert_eq!(idx.find("a").map(|e| e.hash.clone()), Some("h3".to_string()));
    assert_eq!(idx.find("b").map(|e| e.hash.clone()), Some("h2".to_string()));
    assert!(idx.find("c").is_none());
}

#[test]
fn tree_of_index_lists_staged_files() {
    let idx = Index { entries: vec![ie("a", "h1", FileMode::Regular), ie("b/c", "h2", FileMode::Executable)] };
    let t = Tree::from_index(&idx);
    assert_eq!(
        t,
        Tree {
            entries: vec![
                TreeEntry { mode: FileMode::Regular, name: "a".to_string(), hash: "h1".to_string() },
                TreeEntry { mode: FileMode::Executable, name: "b/c".to_string(), hash: "h2".to_string() },
            ]
        }
    );
}

#[test]
fn new_commit_has_head_as_parent() {
    let author = Signature { name: "A".to_string(), email: "a@b".to_string(), timestamp: SystemTime::now() };
    let c = Commit::new_on("t".to_string(), Some("p".to_string()), author.clone(), "m".to_string());
    assert_eq!(c.parent_hashes, vec!["p".to_string()]);
    assert_eq!(c.author, author);
    assert_eq!(c.committer, author);
    let first = Commit::new_on("t".to_string(), None, author, "m".to_string());
    assert!(first.parent_hashes.is_empty());
}

#[test]
fn status_lists_staged_then_deleted() {
    let idx = Index { entries: vec![ie("a", "h1", FileMode::Regular), ie("b", "h2", FileMode::Regular)] };
    let mut head = FlatTree::new();
    head.insert("a".to_string(), "h1".to_string());
    head.insert("c".to_string(), "h3".to_string());
    assert_eq!(
        staged_changes(&idx, &head),
        vec![("b".to_string(), ChangeKind::Staged), ("c".to_string(), ChangeKind::DeletedStaged)]
    );
    assert_eq!(ChangeKind::Staged.label(), "staged");
    assert_eq!(ChangeKind::DeletedStaged.label(), "deleted (staged)");
}

#[test]
fn work_tree_files_are_classified_by_blob_id() {
    let (id, _) = BrassObject::Blob(Blob { data: b"hello".to_vec() }).serialize();
    let idx = Index { entries: vec![ie("a.txt", &id, FileMode::Regular)] };
    assert_eq!(classify_file(&idx, "a.txt", b"hello".to_vec()), FileStatus::Unchanged);
    assert_eq!(classify_file(&idx, "a.txt", b"bye".to_vec()), FileStatus::Modified);
    assert_eq!(classify_file(&idx, "z.txt", b"hello".to_vec()), FileStatus::Untracked);
}

#[test]
fn staging_a_file_by_its_blob_id_makes_it_unchanged() {
    let mut idx = Index::new();
    idx.stage(ie("a.txt", "old", FileMode::Regular));
    let (id, _) = BrassObject::Blob(Blob { data: b"v2".to_vec() }).serialize();
    idx.stage(ie("./a.txt", &id, FileMode::Regular));
    assert_eq!(idx.entries.len(), 2);
    idx.stage(ie("a.txt/", &id, FileMode::Regular));
    assert_eq!(idx.entries.len(), 2);
    assert_eq!(classify_file(&idx, "a.txt", b"v2".to_vec()), FileStatus::Unchanged);
    assert_eq!(classify_file(&idx, "a.txt", b"v3".to_vec()), FileStatus::Modified);
}
