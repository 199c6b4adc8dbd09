use brass_control::index::{Index, IndexEntry, IndexError};
use brass_control::object::FileMode;
use brass_control::path::{join_path, paths_equal};
use brass_control::refs::{
    hash_file_content, head_ref_content, parse_hash_file, parse_head, HeadTarget, RefKind,
};
use std::time::SystemTime;

fn ie(path: &str, hash: &str, mode: FileMode, size: u64) -> IndexEntry {
    IndexEntry {
        path: path.to_string(),
        hash: hash.to_string(),
        mode,
        modified_at: SystemTime::now(),
        file_size: size,
    }
}

#[test]
fn index_file_lines_are_mode_hash_path() {
    let idx = Index {
        entries: vec![
            ie("a.txt", "h1", FileMode::Regular, 5),
            ie("bin/run", "h2", FileMode::Executable, 7),
            ie("lib", "h3", FileMode::Directory, 0),
        ],
    };
    assert_eq!(
        idx.serialize(),
        b"100644\th1\ta.txt\n100755\th2\tbin/run\n040000\th3\tlib\n".to_vec()
    );
}

#[test]
fn index_file_reads_back_without_sizes() {
    let idx = Index {
        entries: vec![ie("a.txt", "h1", FileMode::Regular, 5), ie("x y", "h2", FileMode::Executable, 9)],
    };
    let back = Index::parse(&idx.serialize()).unwrap();
    assert_eq!(back.entries.len(), 2);
    assert_eq!(back.entries[0].path, "a.txt");
    assert_eq!(back.entries[0].hash, "h1");
    assert_eq!(back.entries[0].mode, FileMode::Regular);
    assert_eq!(back.entries[0].file_size, 0);
    assert_eq!(back.entries[1].path, "x y");
    assert_eq!(back.entries[1].mode, FileMode::Executable);
}

#[test]
fn index_reading_skips_malformed_lines() {
    let back = Index::parse(b"040000\th\td\nonly\ttwo\n\nunknown\th4\tf\ta\tb\nzzz\th5\tg\n").unwrap();
    assert_eq!(back.entries.len(), 2);
    assert_eq!(back.entries[0].mode, FileMode::Directory);
    assert_eq!(back.entries[0].path, "d");
    assert_eq!(back.entries[1].mode, FileMode::Regular);
    assert_eq!(back.entries[1].hash, "h5");
}

#[test]
fn index_reading_rejects_invalid_utf8() {
    assert_eq!(Index::parse(b"100644\th\t\xff\n").map(|i| i.entries.len()), Err(IndexError::InvalidUtf8));
}

#[test]
fn empty_index_file_is_an_empty_index() {
    assert!(Index::parse(b"").unwrap().entries.is_empty());
    assert!(Index::new().entries.is_empty());
    assert!(Index::new().serialize().is_empty());
}

#[test]
fn ref_paths_live_under_refs() {
    assert_eq!(RefKind::Branch("main".to_string()).to_path_suffix(), "refs/heads/main");
    assert_eq!(
        RefKind::Leaf { user: "ann".to_string(), name: "fix".to_string() }.to_path_suffix(),
        "refs/leaves/ann/fix"
    );
}

#[test]
fn absolute_leaf_name_replaces_the_prefix() {
    assert_eq!(
        RefKind::Leaf { user: "ann".to_string(), name: "/tmp/x".to_string() }.to_path_suffix(),
        "/tmp/x"
    );
}

#[test]
fn head_names_a_ref_or_a_commit() {
    assert_eq!(parse_head("ref: refs/heads/main\n"), HeadTarget::Ref("refs/heads/main".to_string()));
    assert_eq!(parse_head("  abc123 \n"), HeadTarget::Detached("abc123".to_string()));
    assert_eq!(parse_head("ref:refs/x"), HeadTarget::Detached("ref:refs/x".to_string()));
}

#[test]
fn head_ref_text_reads_back() {
    let text = head_ref_content("refs/leaves/ann/fix");
    assert_eq!(text, "ref: refs/leaves/ann/fix\n");
    assert_eq!(parse_head(&text), HeadTarget::Ref("refs/leaves/ann/fix".to_string()));
}

#[test]
fn detached_head_text_reads_back() {
    let text = hash_file_content("0123abcd");
    assert_eq!(parse_head(&text), HeadTarget::Detached("0123abcd".to_string()));
}

#[test]
fn hash_files_hold_one_line() {
    let text = hash_file_content("0123abcd");
    assert_eq!(text, "0123abcd\n");
    assert_eq!(parse_hash_file(&text), "0123abcd");
    assert_eq!(parse_hash_file("\t x \r\n"), "x");
}

#[test]
fn joining_paths_as_unix_does() {
    assert_eq!(join_path("refs", "heads"), "refs/heads");
    assert_eq!(join_path("a/", "b"), "a/b");
    assert_eq!(join_path("", "b"), "b");
    assert_eq!(join_path("a", "/b"), "/b");
    assert_eq!(join_path("a", ""), "a/");
}

#[test]
fn paths_compare_by_components() {
    assert!(paths_equal("a//b", "a/b"));
    assert!(paths_equal("a/./b", "a/b"));
    assert!(paths_equal("a/b/", "a/b"));
    assert!(!paths_equal("./a", "a"));
    assert!(!paths_equal("/a", "a"));
    assert!(!paths_equal("a/../b", "b"));
    assert!(!paths_equal("a", "b"));
}
