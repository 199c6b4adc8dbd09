use brass_control::acl::{AccessLevel, AccessRule, AclConfig, BrassConfig};
use brass_control::flat::FlatTree;
use brass_control::merge::{merge_commit, merge_trees, opt_eq, union_paths, LeafMergeResult, MergeOutcome};
use brass_control::object::{FileMode, Tree, TreeEntry};
use std::time::SystemTime;

fn flat(pairs: &[(&str, &str)]) -> FlatTree {
    let mut f = FlatTree::new();
    for (p, h) in pairs {
        f.insert(p.to_string(), h.to_string());
    }
    f
}

fn regular(name: &str, hash: &str) -> TreeEntry {
    TreeEntry { mode: FileMode::Regular, name: name.to_string(), hash: hash.to_string() }
}

fn rule(user: &str, pattern: &str, access: AccessLevel) -> AccessRule {
    AccessRule { user: user.to_string(), path_pattern: pattern.to_string(), access }
}

#[test]
fn default_config_values() {
    let c = BrassConfig::default();
    assert_eq!(c.user_name, "Anonymous");
    assert_eq!(c.user_email, "user@localhost");
    assert_eq!(c.default_branch, "main");
    assert!(!c.is_admin);
    assert!(AclConfig::default().rules.is_empty());
}

#[test]
fn empty_acl_allows_every_write() {
    let acl = AclConfig::default();
    assert!(acl.can_write("ann", "docs/a"));
    assert!(acl.can_write("", ""));
}

#[test]
fn read_only_rule_denies_its_user_below_its_prefix() {
    let acl = AclConfig { rules: vec![rule("ann", "docs/**", AccessLevel::ReadOnly)] };
    assert!(!acl.can_write("ann", "docs/readme"));
    assert!(!acl.can_write("ann", "docs"));
    assert!(acl.can_write("ann", "src/main.rs"));
    assert!(acl.can_write("bob", "docs/readme"));
}

#[test]
fn star_rule_applies_to_everyone() {
    let acl = AclConfig { rules: vec![rule("*", "vendor/*", AccessLevel::ReadOnly)] };
    assert!(!acl.can_write("ann", "vendor/lib.rs"));
    assert!(!acl.can_write("bob", "vendorx"));
    assert!(acl.can_write("bob", "src/vendor"));
}

#[test]
fn read_write_rule_denies_nothing() {
    let acl = AclConfig {
        rules: vec![rule("ann", "docs/**", AccessLevel::ReadWrite), rule("bob", "", AccessLevel::ReadOnly)],
    };
    assert!(acl.can_write("ann", "docs/a"));
    assert!(!acl.can_write("bob", "anything"));
}

#[test]
fn flat_tree_keeps_one_entry_per_path() {
    let mut f = FlatTree::new();
    f.insert("a/b".to_string(), "h1".to_string());
    f.insert("c".to_string(), "h2".to_string());
    f.insert("a//b".to_string(), "h3".to_string());
    assert_eq!(f.len(), 2);
    assert_eq!(f.get("a/b"), Some("h3".to_string()));
    assert_eq!(f.get("a/./b"), Some("h3".to_string()));
    assert_eq!(f.get("c"), Some("h2".to_string()));
    assert_eq!(f.get("d"), None);
    assert_eq!(f.paths(), vec!["a/b".to_string(), "c".to_string()]);
}

#[test]
fn union_lists_each_path_once_in_tree_order() {
    let base = flat(&[("f", "1"), ("g", "2")]);
    let target = flat(&[("g", "2"), ("t", "3")]);
    let leaf = flat(&[("n", "4"), ("f", "1"), ("./t", "3")]);
    assert_eq!(
        union_paths(&base, &target, &leaf),
        vec!["f".to_string(), "g".to_string(), "t".to_string(), "n".to_string(), "./t".to_string()]
    );
}

#[test]
fn merge_takes_each_sides_changes() {
    let base = flat(&[("f", "h1"), ("g", "h2"), ("gone", "h0")]);
    let target = flat(&[("f", "h1x"), ("g", "h2"), ("gone", "h0")]);
    let leaf = flat(&[("f", "h1"), ("g", "h2y"), ("n", "h3")]);
    let order = union_paths(&base, &target, &leaf);
    let r = merge_trees(&order, &base, &target, &leaf, &AclConfig::default(), "ann");
    assert_eq!(
        r,
        MergeOutcome::Merged(Tree {
            entries: vec![regular("f", "h1x"), regular("g", "h2y"), regular("n", "h3")]
        })
    );
}

#[test]
fn merge_of_unchanged_leaf_keeps_target_files() {
    let base = flat(&[("f", "h1"), ("g", "h2")]);
    let target = flat(&[("f", "h9"), ("t", "h3")]);
    let order = union_paths(&base, &target, &base);
    let acl = AclConfig { rules: vec![rule("*", "", AccessLevel::ReadOnly)] };
    let r = merge_trees(&order, &base, &target, &base, &acl, "ann");
    assert_eq!(r, MergeOutcome::Merged(Tree { entries: vec![regular("f", "h9"), regular("t", "h3")] }));
}

#[test]
fn merge_into_unchanged_target_takes_leaf_files() {
    let base = flat(&[("f", "h1"), ("g", "h2")]);
    let leaf = flat(&[("f", "h5"), ("n", "h6")]);
    let order = union_paths(&base, &base, &leaf);
    let r = merge_trees(&order, &base, &base, &leaf, &AclConfig::default(), "ann");
    assert_eq!(r, MergeOutcome::Merged(Tree { entries: vec![regular("f", "h5"), regular("n", "h6")] }));
}

#[test]
fn merge_conflict_reports_all_three_hashes() {
    let base = flat(&[("a", "same"), ("f", "h1")]);
    let target = flat(&[("a", "same"), ("f", "h2")]);
    let leaf = flat(&[("a", "same"), ("f", "h3")]);
    let order = union_paths(&base, &target, &leaf);
    let r = merge_trees(&order, &base, &target, &leaf, &AclConfig::default(), "ann");
    assert_eq!(
        r,
        MergeOutcome::Conflict {
            path: "f".to_string(),
            base_hash: Some("h1".to_string()),
            target_hash: Some("h2".to_string()),
            leaf_hash: Some("h3".to_string()),
        }
    );
}

#[test]
fn merge_conflict_when_added_on_both_sides() {
    let base = FlatTree::new();
    let target = flat(&[("f", "h2")]);
    let leaf = flat(&[("f", "h3")]);
    let order = union_paths(&base, &target, &leaf);
    let r = merge_trees(&order, &base, &target, &leaf, &AclConfig::default(), "ann");
    assert_eq!(
        r,
        MergeOutcome::Conflict {
            path: "f".to_string(),
            base_hash: None,
            target_hash: Some("h2".to_string()),
            leaf_hash: Some("h3".to_string()),
        }
    );
}

#[test]
fn merge_denies_leaf_change_on_read_only_path() {
    let base = flat(&[("docs/a", "h1"), ("src/b", "h2")]);
    let target = flat(&[("docs/a", "h1"), ("src/b", "h2")]);
    let leaf = flat(&[("docs/a", "h1x"), ("src/b", "h2")]);
    let acl = AclConfig { rules: vec![rule("ann", "docs/**", AccessLevel::ReadOnly)] };
    let order = union_paths(&base, &target, &leaf);
    assert_eq!(
        merge_trees(&order, &base, &target, &leaf, &acl, "ann"),
        MergeOutcome::Denied("docs/a".to_string())
    );
    assert_eq!(
        merge_trees(&order, &base, &target, &leaf, &acl, "bob"),
        MergeOutcome::Merged(Tree { entries: vec![regular("docs/a", "h1x"), regular("src/b", "h2")] })
    );
}

#[test]
fn merge_drops_files_deleted_on_one_side() {
    let base = flat(&[("f", "h1"), ("g", "h2")]);
    let target = flat(&[("g", "h2")]);
    let leaf = flat(&[("f", "h1")]);
    let order = union_paths(&base, &target, &leaf);
    assert_eq!(
        merge_trees(&order, &base, &target, &leaf, &AclConfig::default(), "ann"),
        MergeOutcome::Merged(Tree { entries: vec![] })
    );
}

#[test]
fn merge_commit_records_both_parents() {
    let cfg = BrassConfig {
        user_name: "ann".to_string(),
        user_email: "ann@x".to_string(),
        default_branch: "main".to_string(),
        is_admin: false,
    };
    let when = SystemTime::now();
    let c = merge_commit("tree1".to_string(), "t".to_string(), "l".to_string(), &cfg, "fix", when);
    assert_eq!(c.tree_hash, "tree1");
    assert_eq!(c.parent_hashes, vec!["t".to_string(), "l".to_string()]);
    assert_eq!(c.author.name, "ann");
    assert_eq!(c.committer.email, "ann@x");
    assert_eq!(c.author.timestamp, when);
    assert_eq!(c.message, "Merge leaf 'fix' into target");
}

#[test]
fn optional_hashes_compare_by_value() {
    assert!(opt_eq(&None, &None));
    assert!(opt_eq(&Some("a".to_string()), &Some("a".to_string())));
    assert!(!opt_eq(&Some("a".to_string()), &None));
    assert!(!opt_eq(&Some("a".to_string()), &Some("b".to_string())));
}

#[test]
fn leaf_merge_results_are_plain_values() {
    let r = LeafMergeResult::PermissionDenied { user: "ann".to_string(), forbidden_path: "docs/a".to_string() };
    assert_eq!(r.clone(), r);
    assert_ne!(r, LeafMergeResult::Success("h".to_string()));
}
