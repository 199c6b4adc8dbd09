//! References: branch and leaf names, the `HEAD` file and reference files.
use vstd::prelude::*;
use crate::object_laws::{lemma_trim_line, trimmed};
use crate::path::{join_path, path_join};
use crate::text::{
    append_str, chars_of, has_prefix, is_ws, string_of, strip_prefix, strip_prefix_chars,
    trim, trim_chars,
};

verus! {

/// A reference: a branch, or a user's leaf.
#[derive(Debug, Clone, PartialEq, Eq)]
pub enum RefKind {
    Branch(String),
    Leaf { user: String, name: String },
}

/// `refs/heads`
pub open spec fn heads_dir() -> Seq<char> {
    seq!['r', 'e', 'f', 's', '/', 'h', 'e', 'a', 'd', 's']
}

/// `refs/leaves`
pub open spec fn leaves_dir() -> Seq<char> {
    seq!['r', 'e', 'f', 's', '/', 'l', 'e', 'a', 'v', 'e', 's']
}

/// Where a reference lives below the repository directory.
pub open spec fn ref_path(r: RefKind) -> Seq<char> {
    match r {
        RefKind::Branch(name) => path_join(heads_dir(), name@),
        RefKind::Leaf { user, name } => path_join(path_join(leaves_dir(), user@), name@),
    }
}

impl RefKind {
    /// The reference's path below the repository directory:
    /// `refs/heads/<name>` for a branch, `refs/leaves/<user>/<name>` for a
    /// leaf, joined as paths are.
    pub fn to_path_suffix(&self) -> (p: String)
        ensures
            p@ == ref_path(*self),
    {
        match self {
            RefKind::Branch(name) => {
                let base = join_path("refs", "heads");
                proof {
                    reveal_strlit("refs");
                    reveal_strlit("heads");
                }
                assert(base@ =~= heads_dir());
                join_path(base.as_str(), name.as_str())
            },
            RefKind::Leaf { user, name } => {
                let base = join_path("refs", "leaves");
                proof {
                    reveal_strlit("refs");
                    reveal_strlit("leaves");
                }
                assert(base@ =~= leaves_dir());
                let with_user = join_path(base.as_str(), user.as_str());
                join_path(with_user.as_str(), name.as_str())
            },
        }
    }
}

/// What `HEAD` points at: a reference file, or a commit directly.
#[derive(Debug, Clone, PartialEq, Eq)]
pub enum HeadTarget {
    Ref(String),
    Detached(String),
}

/// The model of a `HEAD` target.
pub enum HeadModel {
    Ref(Seq<char>),
    Detached(Seq<char>),
}

impl View for HeadTarget {
    type V = HeadModel;

    open spec fn view(&self) -> HeadModel {
        match self {
            HeadTarget::Ref(p) => HeadModel::Ref(p@),
            HeadTarget::Detached(h) => HeadModel::Detached(h@),
        }
    }
}

/// `ref: `
pub open spec fn lit_ref() -> Seq<char> {
    seq!['r', 'e', 'f', ':', ' ']
}

/// What the text of `HEAD` says: trimmed, a text starting with `ref: `
/// names a reference file by the rest, any other text is a commit hash.
pub open spec fn head_target(content: Seq<char>) -> HeadModel {
    let t = trim(content);
    match strip_prefix(t, lit_ref()) {
        Some(p) => HeadModel::Ref(p),
        None => HeadModel::Detached(t),
    }
}

/// Reads the text of `HEAD`.
pub fn parse_head(content: &str) -> (r: HeadTarget)
    ensures
        r@ == head_target(content@),
{
    let t = trim_chars(&chars_of(content));
    let lit = vec!['r', 'e', 'f', ':', ' '];
    assert(lit@ =~= lit_ref());
    match strip_prefix_chars(&t, &lit) {
        Some(p) => HeadTarget::Ref(string_of(&p)),
        None => HeadTarget::Detached(string_of(&t)),
    }
}

/// The text of `HEAD` that points at a reference file: `ref: <path>\n`.
pub fn head_ref_content(path: &str) -> (s: String)
    ensures
        s@ == lit_ref() + path@ + seq!['\n'],
{
    let mut v = vec!['r', 'e', 'f', ':', ' '];
    append_str(&mut v, path);
    v.push('\n');
    string_of(&v)
}

/// The text of a file holding a commit hash: `<hash>\n`.
pub fn hash_file_content(hash: &str) -> (s: String)
    ensures
        s@ == hash@ + seq!['\n'],
{
    let mut v = chars_of(hash);
    v.push('\n');
    string_of(&v)
}

/// The commit hash a reference file holds: its trimmed text.
pub fn parse_hash_file(content: &str) -> (h: String)
    ensures
        h@ == trim(content@),
{
    string_of(&trim_chars(&chars_of(content)))
}

/// A hash written to a reference file reads back, when it has no whitespace
/// at its ends.
pub proof fn lemma_hash_file_roundtrip(h: Seq<char>)
    requires
        trimmed(h),
    ensures
        trim(h + seq!['\n']) == h,
{
    lemma_trim_line(h);
}

/// `HEAD` written to point at a reference reads back as that reference, when
/// the reference's path is not empty and does not end with whitespace.
pub proof fn lemma_head_ref_roundtrip(p: Seq<char>)
    requires
        p.len() > 0,
        !is_ws(p.last()),
    ensures
        head_target(lit_ref() + p + seq!['\n']) == HeadModel::Ref(p),
{
    let s = lit_ref() + p;
    assert(s[0] == 'r');
    assert(s.last() == p.last());
    assert(trimmed(s));
    lemma_trim_line(s);
    assert(lit_ref() + p + seq!['\n'] =~= s + seq!['\n']);
    assert(s.take(5) =~= lit_ref());
    assert(s.skip(5) =~= p);
}

/// `HEAD` holding a commit hash directly reads back as that hash, when the
/// hash has no whitespace at its ends and does not start with `ref: `.
pub proof fn lemma_head_detached_roundtrip(h: Seq<char>)
    requires
        trimmed(h),
        !has_prefix(h, lit_ref()),
    ensures
        head_target(h + seq!['\n']) == HeadModel::Detached(h),
{
    lemma_trim_line(h);
}

} // verus!
