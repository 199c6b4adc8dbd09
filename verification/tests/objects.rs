use brass_control::object::{
    object_location, Blob, BrassObject, Commit, FileMode, ObjectError, Signature, StoreError, Tree,
    TreeEntry,
};
use std::io::Write;
use std::time::SystemTime;

fn sig(name: &str, email: &str) -> Signature {
    Signature { name: name.to_string(), email: email.to_string(), timestamp: SystemTime::now() }
}

fn entry(mode: FileMode, name: &str, hash: &str) -> TreeEntry {
    TreeEntry { mode, name: name.to_string(), hash: hash.to_string() }
}

#[test]
fn blob_serialize_gives_header_and_sha256_id() {
    let (id, bytes) = BrassObject::Blob(Blob { data: b"hello".to_vec() }).serialize();
    assert_eq!(bytes, b"blob 5\0hello".to_vec());
    assert_eq!(id, "8aec4e4876f854f688d0ebfc8f37598f38e5fd6903cccc850ca36591175aeb60");
}

#[test]
fn empty_blob_has_known_id() {
    let (id, bytes) = BrassObject::Blob(Blob { data: Vec::new() }).serialize();
    assert_eq!(bytes, b"blob 0\0".to_vec());
    assert_eq!(id, "473a0f4c3be8a93681a267e3b1e9a7dcda1185436fe141f7749120a303721813");
    assert_eq!(id.len(), 64);
}

#[test]
fn tree_payload_lines_name_mode_then_hash() {
    let t = Tree {
        entries: vec![
            entry(FileMode::Regular, "a.txt", "abc"),
            entry(FileMode::Executable, "run.sh", "def"),
            entry(FileMode::Directory, "src", "123"),
        ],
    };
    assert_eq!(
        t.serialize_payload(),
        b"Regular a.txt\0abc\nExecutable run.sh\0def\nDirectory src\x00123\n".to_vec()
    );
}

#[test]
fn tree_object_has_known_id() {
    let t = Tree { entries: vec![entry(FileMode::Regular, "a.txt", "abc")] };
    let (id, bytes) = BrassObject::Tree(t).serialize();
    assert_eq!(bytes, b"tree 18\0Regular a.txt\0abc\n".to_vec());
    assert_eq!(id, "b2d7508165691789077c9604982a97c9eefeddc965d900baf33da6105fe75fb6");
}

#[test]
fn tree_payload_reads_back() {
    let t = Tree {
        entries: vec![
            entry(FileMode::Regular, "a.txt", "h1"),
            entry(FileMode::Executable, "b", "h2"),
            entry(FileMode::Directory, "dir", "h3"),
        ],
    };
    let back = Tree::deserialize_payload(&t.serialize_payload()).unwrap();
    assert_eq!(back, t);
}

#[test]
fn tree_payload_reading_skips_and_defaults() {
    let payload = b"no separator here\n\nWeird x\0h1\nRegular\0 h2 \nExecutable e f\0h3\n";
    let t = Tree::deserialize_payload(payload).unwrap();
    assert_eq!(
        t.entries,
        vec![
            entry(FileMode::Directory, "x", "h1"),
            entry(FileMode::Regular, "", "h2"),
            entry(FileMode::Executable, "e", "h3"),
        ]
    );
}

#[test]
fn tree_payload_with_two_nuls_is_skipped() {
    let t = Tree::deserialize_payload(b"Regular a\0b\0c\nRegular d\0e\n").unwrap();
    assert_eq!(t.entries, vec![entry(FileMode::Regular, "d", "e")]);
}

#[test]
fn tree_payload_with_invalid_utf8_fails() {
    let r = Tree::deserialize_payload(b"Regular a\0\xff\xfe\n");
    assert_eq!(r, Err(ObjectError::InvalidUtf8));
}

#[test]
fn commit_payload_format() {
    let c = Commit {
        tree_hash: "t1".to_string(),
        parent_hashes: vec!["p1".to_string(), "p2".to_string()],
        author: sig("Ann", "ann@x"),
        committer: sig("Bob", "bob@y"),
        message: "Hello".to_string(),
    };
    assert_eq!(
        c.serialize_payload(),
        "tree t1\nparent p1\nparent p2\nauthor Ann <ann@x>\ncommitter Bob <bob@y>\n\nHello\n"
    );
}

#[test]
fn commit_payload_reads_back() {
    let c = Commit {
        tree_hash: "t1".to_string(),
        parent_hashes: vec!["p1".to_string()],
        author: sig("Ann Lee", "ann@x"),
        committer: sig("Bob", "bob@y"),
        message: "Fix it\n\nwith details".to_string(),
    };
    let back = Commit::deserialize_payload(c.serialize_payload().as_bytes()).unwrap();
    assert_eq!(back.tree_hash, c.tree_hash);
    assert_eq!(back.parent_hashes, c.parent_hashes);
    assert_eq!(back.author.name, "Ann Lee");
    assert_eq!(back.author.email, "ann@x");
    assert_eq!(back.committer.name, "Bob");
    assert_eq!(back.committer.email, "bob@y");
    assert_eq!(back.message, c.message);
    assert_eq!(back.author.timestamp, back.committer.timestamp);
}

#[test]
fn commit_reading_ignores_unknown_lines_and_trims_message() {
    let payload = b"tree t\nfoo bar\nauthor NoEmail\ncommitter C <c@d>>\n\n  body  \n\n";
    let c = Commit::deserialize_payload(payload).unwrap();
    assert_eq!(c.tree_hash, "t");
    assert!(c.parent_hashes.is_empty());
    assert_eq!(c.author.name, "");
    assert_eq!(c.author.email, "");
    assert_eq!(c.committer.name, "C");
    assert_eq!(c.committer.email, "c@d");
    assert_eq!(c.message, "body");
}

#[test]
fn commit_reading_replaces_invalid_utf8() {
    let c = Commit::deserialize_payload(b"tree \xff\n").unwrap();
    assert_eq!(c.tree_hash, "\u{FFFD}");
}

#[test]
fn objects_parse_back_from_their_bytes() {
    let objs = vec![
        BrassObject::Blob(Blob { data: b"\0binary\0".to_vec() }),
        BrassObject::Tree(Tree { entries: vec![entry(FileMode::Regular, "f", "h")] }),
    ];
    for o in objs {
        let (_, bytes) = o.serialize();
        assert_eq!(BrassObject::parse(&bytes).unwrap(), o);
    }
    let c = Commit {
        tree_hash: "t".to_string(),
        parent_hashes: vec![],
        author: sig("A", "a@b"),
        committer: sig("A", "a@b"),
        message: "m".to_string(),
    };
    let (_, bytes) = BrassObject::Commit(c).serialize();
    match BrassObject::parse(&bytes).unwrap() {
        BrassObject::Commit(back) => {
            assert_eq!(back.tree_hash, "t");
            assert_eq!(back.message, "m");
            assert_eq!(back.author.name, "A");
        }
        other => panic!("expected a commit, got {:?}", other),
    }
}

#[test]
fn parse_without_nul_is_missing_header() {
    assert_eq!(BrassObject::parse(b"blob 5 hello"), Err(ObjectError::MissingHeader));
}

#[test]
fn parse_with_blank_header_is_missing_type() {
    assert_eq!(BrassObject::parse(b"  \0data"), Err(ObjectError::MissingType));
}

#[test]
fn parse_with_other_kind_is_unknown_type() {
    assert_eq!(BrassObject::parse(b"tag 3\0abc"), Err(ObjectError::UnknownType));
}

#[test]
fn parse_tree_with_invalid_line_fails() {
    assert_eq!(BrassObject::parse(b"tree 3\0\xff\xfe\n"), Err(ObjectError::InvalidUtf8));
}

#[test]
fn stored_objects_decompress_to_the_same_object() {
    let o = BrassObject::Blob(Blob { data: b"hello hello hello hello".to_vec() });
    let (id, stored) = o.encode_for_store().unwrap();
    let (id2, raw) = o.serialize();
    assert_eq!(id, id2);
    assert_ne!(stored, raw);
    assert_eq!(BrassObject::decode_from_store(&stored).unwrap(), o);
}

#[test]
fn stored_bytes_that_are_not_zlib_are_corrupt() {
    assert_eq!(BrassObject::decode_from_store(b"not zlib at all"), Err(StoreError::Corrupt));
}

#[test]
fn stored_bytes_of_a_bad_object_report_its_error() {
    let mut enc = flate2::write::ZlibEncoder::new(Vec::new(), flate2::Compression::default());
    enc.write_all(b"no header here").unwrap();
    let z = enc.finish().unwrap();
    assert_eq!(
        BrassObject::decode_from_store(&z),
        Err(StoreError::Object(ObjectError::MissingHeader))
    );
}

#[test]
fn object_location_cuts_after_two_bytes() {
    let (id, _) = BrassObject::Blob(Blob { data: b"hello".to_vec() }).serialize();
    let (dir, file) = object_location(&id).unwrap();
    assert_eq!(dir, "8a");
    assert_eq!(file, "ec4e4876f854f688d0ebfc8f37598f38e5fd6903cccc850ca36591175aeb60");
    assert_eq!(object_location("ab"), Some(("ab".to_string(), String::new())));
}

#[test]
fn object_location_of_short_or_split_ids() {
    assert_eq!(object_location("a"), None);
    assert_eq!(object_location(""), None);
    assert_eq!(object_location("éab"), Some(("é".to_string(), "ab".to_string())));
    assert_eq!(object_location("a€b"), None);
}
