//! Repository objects (blobs, trees and commits) and their byte formats.
use vstd::prelude::*;
use vstd::utf8::*;
use crate::codec::{deflate, inflate, sha256, sha256_of, zlib_deflate, zlib_inflate};
use crate::text::{
    append_bytes, bytes_of, decimal, head_to, tail_from, decimal_chars, hex_lower, hex_string,
    append_chars, append_str, byte_lines, char_lines, chars_eq, chars_of, decode_utf8_lossy,
    decode_utf8_strict, encode_chars, lines_of_bytes, lines_of_chars, split_chars, split_on,
    split_once, split_once_chars, split_whitespace, string_of, strip_prefix, strip_prefix_chars,
    trim, trim_chars, trim_end_matches, trim_end_matching, lossy_utf8, words, hex_digit,
};
use crate::utf8_facts::lemma_encode_scalar_bytes;

verus! {

/// `std::time::SystemTime`, carried through signatures and index entries
/// without being looked into.
#[verifier::external_type_specification]
#[verifier::external_body]
pub struct ExSystemTime(std::time::SystemTime);

/// The current system time.
///
/// Trusted: calls `SystemTime::now`; the clock decides the result, so nothing
/// is stated of it.
#[verifier::external_body]
pub(crate) fn now() -> std::time::SystemTime {
    std::time::SystemTime::now()
}

/// The kind of a file recorded in a tree or in the index.
#[derive(Debug, Clone, Copy, PartialEq, Eq, Structural)]
pub enum FileMode {
    Regular,
    Executable,
    Directory,
}

/// The name of a mode as `{:?}` writes it.
pub open spec fn mode_name(m: FileMode) -> Seq<char> {
    match m {
        FileMode::Regular => seq!['R', 'e', 'g', 'u', 'l', 'a', 'r'],
        FileMode::Executable => seq!['E', 'x', 'e', 'c', 'u', 't', 'a', 'b', 'l', 'e'],
        FileMode::Directory => seq!['D', 'i', 'r', 'e', 'c', 't', 'o', 'r', 'y'],
    }
}

/// The characters of a mode's name.
pub fn mode_name_chars(m: FileMode) -> (v: Vec<char>)
    ensures
        v@ == mode_name(m),
{
    match m {
        FileMode::Regular => vec!['R', 'e', 'g', 'u', 'l', 'a', 'r'],
        FileMode::Executable => vec!['E', 'x', 'e', 'c', 'u', 't', 'a', 'b', 'l', 'e'],
        FileMode::Directory => vec!['D', 'i', 'r', 'e', 'c', 't', 'o', 'r', 'y'],
    }
}

/// Why the bytes of an object could not be read back.
#[derive(Debug, Clone, Copy, PartialEq, Eq, Structural)]
pub enum ObjectError {
    /// A line of a tree payload is not valid UTF-8.
    InvalidUtf8,
    /// The object has no NUL byte ending its header.
    MissingHeader,
    /// The header names no object kind.
    MissingType,
    /// The header names an unknown object kind.
    UnknownType,
}

/// File contents.
#[derive(Debug, Clone, PartialEq, Eq)]
pub struct Blob {
    pub data: Vec<u8>,
}

/// The mathematical content of a tree entry.
#[verifier::ext_equal]
pub struct TreeEntryModel {
    pub mode: FileMode,
    pub name: Seq<char>,
    pub hash: Seq<char>,
}

/// One named entry of a tree.
#[derive(Debug, Clone, PartialEq, Eq)]
pub struct TreeEntry {
    pub mode: FileMode,
    pub name: String,
    pub hash: String,
}

impl View for TreeEntry {
    type V = TreeEntryModel;

    open spec fn view(&self) -> TreeEntryModel {
        TreeEntryModel { mode: self.mode, name: self.name@, hash: self.hash@ }
    }
}

/// A directory snapshot: a list of entries.
#[derive(Debug, Clone, PartialEq, Eq)]
pub struct Tree {
    pub entries: Vec<TreeEntry>,
}

impl View for Tree {
    type V = Seq<TreeEntryModel>;

    open spec fn view(&self) -> Seq<TreeEntryModel> {
        self.entries@.map_values(|e: TreeEntry| e@)
    }
}

/// The text of an entry's line before its line feed:
/// `<mode> <name>\0<hash>`.
pub open spec fn entry_body(e: TreeEntryModel) -> Seq<char> {
    mode_name(e.mode) + seq![' '] + e.name + seq!['\0'] + e.hash
}

/// An entry's line, ended by a line feed.
pub open spec fn entry_line(e: TreeEntryModel) -> Seq<char> {
    entry_body(e) + seq!['\n']
}

/// The text of a tree: one line per entry, in order.
pub open spec fn tree_text(es: Seq<TreeEntryModel>) -> Seq<char> {
    es.map_values(|e: TreeEntryModel| entry_line(e)).flatten()
}

/// The payload of a tree object: the UTF-8 encoding of its text.
pub open spec fn tree_payload(es: Seq<TreeEntryModel>) -> Seq<u8> {
    encode_utf8(tree_text(es))
}

/// The mode named by the first header word: `Regular` and `Executable` by
/// their names, anything else (or nothing) is `Directory`.
pub open spec fn parse_mode(ws: Seq<Seq<char>>) -> FileMode {
    if ws.len() > 0 && ws[0] == mode_name(FileMode::Regular) {
        FileMode::Regular
    } else if ws.len() > 0 && ws[0] == mode_name(FileMode::Executable) {
        FileMode::Executable
    } else {
        FileMode::Directory
    }
}

/// The entry that one line of a tree payload describes, if any: a non-empty
/// line split at NUL into exactly two parts; the first part's words give the
/// mode and the name (empty when missing), the second part trimmed gives the
/// hash.
pub open spec fn parse_tree_line(line: Seq<char>) -> Option<TreeEntryModel> {
    if line.len() == 0 {
        None
    } else {
        let parts = split_on(line, '\0');
        if parts.len() == 2 {
            let ws = words(parts[0]);
            Some(
                TreeEntryModel {
                    mode: parse_mode(ws),
                    name: if ws.len() > 1 {
                        ws[1]
                    } else {
                        Seq::empty()
                    },
                    hash: trim(parts[1]),
                },
            )
        } else {
            None
        }
    }
}

/// The entries that a sequence of lines describes, in order.
pub open spec fn parse_tree_lines(ls: Seq<Seq<char>>) -> Seq<TreeEntryModel>
    decreases ls.len(),
{
    if ls.len() == 0 {
        Seq::empty()
    } else {
        let rest = parse_tree_lines(ls.drop_last());
        match parse_tree_line(ls.last()) {
            Some(e) => rest.push(e),
            None => rest,
        }
    }
}

/// Every line is valid UTF-8.
pub open spec fn all_utf8(ls: Seq<Seq<u8>>) -> bool {
    forall|i: int| 0 <= i < ls.len() ==> valid_utf8(#[trigger] ls[i])
}

/// The decoded lines.
pub open spec fn decode_lines(ls: Seq<Seq<u8>>) -> Seq<Seq<char>> {
    ls.map_values(|l: Seq<u8>| decode_utf8(l))
}

/// The entries a tree payload describes, or `None` when one of its lines is
/// not valid UTF-8.
pub open spec fn parse_tree_payload(p: Seq<u8>) -> Option<Seq<TreeEntryModel>> {
    let bl = byte_lines(p);
    if all_utf8(bl) {
        Some(parse_tree_lines(decode_lines(bl)))
    } else {
        None
    }
}

/// The words of a header part as owned strings.
fn string_at(ws: &Vec<Vec<char>>, i: usize) -> (s: String)
    requires
        i < ws@.len(),
    ensures
        s@ == ws@[i as int]@,
{
    string_of(&ws[i])
}

impl TreeEntry {
    /// The entry that one line of a tree payload describes, if any.
    pub fn from_line(line: &Vec<char>) -> (r: Option<TreeEntry>)
        ensures
            r matches Some(e) ==> parse_tree_line(line@) == Some(e@),
            r is None ==> parse_tree_line(line@) is None,
    {
        if line.len() == 0 {
            return None;
        }
        let parts = split_chars(line, '\0');
        let ghost ps = parts@.map_values(|p: Vec<char>| p@);
        assert(ps.len() == parts@.len());
        if parts.len() != 2 {
            return None;
        }
        assert(ps[0] == parts@[0]@);
        assert(ps[1] == parts@[1]@);
        let ws = split_whitespace(&parts[0]);
        let ghost wv = ws@.map_values(|p: Vec<char>| p@);
        assert(wv.len() == ws@.len());
        let regular = mode_name_chars(FileMode::Regular);
        let executable = mode_name_chars(FileMode::Executable);
        let mode = if ws.len() > 0 && chars_eq(&ws[0], &regular) {
            FileMode::Regular
        } else if ws.len() > 0 && chars_eq(&ws[0], &executable) {
            FileMode::Executable
        } else {
            FileMode::Directory
        };
        proof {
            if ws@.len() > 0 {
                assert(wv[0] == ws@[0]@);
            }
        }
        let name = if ws.len() > 1 {
            assert(wv[1] == ws@[1]@);
            string_at(&ws, 1)
        } else {
            String::new()
        };
        let hash = string_of(&trim_chars(&parts[1]));
        Some(TreeEntry { mode, name, hash })
    }
}

impl Tree {
    /// The tree's payload: for each entry the line `<mode> <name>\0<hash>\n`,
    /// encoded as UTF-8.
    pub fn serialize_payload(&self) -> (buf: Vec<u8>)
        ensures
            buf@ == tree_payload(self@),
    {
        let mut text: Vec<char> = Vec::new();
        let mut i: usize = 0;
        let ghost es = self@;
        assert(es.take(0).map_values(|e: TreeEntryModel| entry_line(e)) =~= Seq::<
            Seq<char>,
        >::empty());
        while i < self.entries.len()
            invariant
                es == self@,
                i <= self.entries@.len(),
                text@ == es.take(i as int).map_values(|e: TreeEntryModel| entry_line(e)).flatten(),
            decreases self.entries@.len() - i,
        {
            let entry = &self.entries[i];
            let ghost before = text@;
            let mut line = mode_name_chars(entry.mode);
            line.push(' ');
            append_str(&mut line, entry.name.as_str());
            line.push('\0');
            append_str(&mut line, entry.hash.as_str());
            line.push('\n');
            assert(es[i as int] == entry@);
            assert(line@ =~= entry_line(entry@));
            append_chars(&mut text, &line);
            let ghost prefix = es.take(i as int).map_values(|e: TreeEntryModel| entry_line(e));
            assert(es.take(i + 1).map_values(|e: TreeEntryModel| entry_line(e)) =~= prefix.push(
                entry_line(es[i as int]),
            ));
            proof { prefix.lemma_flatten_push(entry_line(es[i as int])); }
            i = i + 1;
        }
        assert(es.take(es.len() as int) =~= es);
        encode_chars(&text)
    }

    /// Reads a tree payload back: its lines, each decoded as UTF-8; empty
    /// lines and lines that do not split at NUL into two parts are skipped.
    /// Fails when a line is not valid UTF-8.
    pub fn deserialize_payload(payload: &[u8]) -> (r: Result<Tree, ObjectError>)
        ensures
            r matches Ok(t) ==> parse_tree_payload(payload@) == Some(t@),
            r matches Err(e) ==> parse_tree_payload(payload@) is None && e
                == ObjectError::InvalidUtf8,
    {
        let lines = lines_of_bytes(payload);
        let ghost bl = byte_lines(payload@);
        assert(lines@.map_values(|p: Vec<u8>| p@) == bl);
        assert(bl.len() == lines@.len());
        let mut entries: Vec<TreeEntry> = Vec::new();
        let mut i: usize = 0;
        assert(decode_lines(bl.take(0)) =~= Seq::<Seq<char>>::empty());
        assert(entries@.map_values(|e: TreeEntry| e@) =~= Seq::<TreeEntryModel>::empty());
        while i < lines.len()
            invariant
                bl == byte_lines(payload@),
                lines@.map_values(|p: Vec<u8>| p@) == bl,
                bl.len() == lines@.len(),
                i <= lines@.len(),
                all_utf8(bl.take(i as int)),
                entries@.map_values(|e: TreeEntry| e@) == parse_tree_lines(
                    decode_lines(bl.take(i as int)),
                ),
            decreases lines@.len() - i,
        {
            assert(bl[i as int] == lines@[i as int]@);
            let decoded = decode_utf8_strict(lines[i].as_slice());
            match decoded {
                None => {
                    assert(!valid_utf8(bl[i as int]));
                    assert(!all_utf8(bl));
                    return Err(ObjectError::InvalidUtf8);
                },
                Some(s) => {
                    let cs = chars_of(s.as_str());
                    let ghost dl = decode_lines(bl.take(i as int));
                    assert(decode_lines(bl.take(i + 1)) =~= dl.push(cs@));
                    assert(decode_lines(bl.take(i + 1)).drop_last() =~= dl);
                    assert(all_utf8(bl.take(i + 1)));
                    let ghost old_entries = entries@.map_values(|e: TreeEntry| e@);
                    match TreeEntry::from_line(&cs) {
                        Some(e) => {
                            entries.push(e);
                            assert(entries@.map_values(|e: TreeEntry| e@) =~= old_entries.push(
                                e@,
                            ));
                        },
                        None => {},
                    }
                },
            }
            i = i + 1;
        }
        assert(bl.take(bl.len() as int) =~= bl);
        Ok(Tree { entries })
    }
}

// ---------------------------------------------------------------------------
// Commits
// ---------------------------------------------------------------------------

/// A person and the moment of an action.
#[derive(Debug, PartialEq, Eq)]
pub struct Signature {
    pub name: String,
    pub email: String,
    pub timestamp: std::time::SystemTime,
}

impl Clone for Signature {
    fn clone(&self) -> (r: Signature)
        ensures
            r == *self,
    {
        Signature { name: self.name.clone(), email: self.email.clone(), timestamp: self.timestamp }
    }
}

/// A commit: a tree, its parents, who wrote it, and why.
#[derive(Debug, Clone, PartialEq, Eq)]
pub struct Commit {
    pub tree_hash: String,
    pub parent_hashes: Vec<String>,
    pub author: Signature,
    pub committer: Signature,
    pub message: String,
}

/// The recorded part of a signature: name and e-mail address.
#[verifier::ext_equal]
pub struct SignatureModel {
    pub name: Seq<char>,
    pub email: Seq<char>,
}

/// The recorded part of a commit; the timestamps of its signatures are not
/// written to the payload.
#[verifier::ext_equal]
pub struct CommitModel {
    pub tree_hash: Seq<char>,
    pub parents: Seq<Seq<char>>,
    pub author: SignatureModel,
    pub committer: SignatureModel,
    pub message: Seq<char>,
}

impl View for Signature {
    type V = SignatureModel;

    open spec fn view(&self) -> SignatureModel {
        SignatureModel { name: self.name@, email: self.email@ }
    }
}

impl View for Commit {
    type V = CommitModel;

    open spec fn view(&self) -> CommitModel {
        CommitModel {
            tree_hash: self.tree_hash@,
            parents: self.parent_hashes@.map_values(|p: String| p@),
            author: self.author@,
            committer: self.committer@,
            message: self.message@,
        }
    }
}

/// `tree `
pub open spec fn lit_tree() -> Seq<char> {
    seq!['t', 'r', 'e', 'e', ' ']
}

/// `parent `
pub open spec fn lit_parent() -> Seq<char> {
    seq!['p', 'a', 'r', 'e', 'n', 't', ' ']
}

/// `author `
pub open spec fn lit_author() -> Seq<char> {
    seq!['a', 'u', 't', 'h', 'o', 'r', ' ']
}

/// `committer `
pub open spec fn lit_committer() -> Seq<char> {
    seq!['c', 'o', 'm', 'm', 'i', 't', 't', 'e', 'r', ' ']
}

/// ` <`, which separates a name from an address.
pub open spec fn lit_open() -> Seq<char> {
    seq![' ', '<']
}

/// A parent's line.
pub open spec fn parent_line(p: Seq<char>) -> Seq<char> {
    lit_parent() + p + seq!['\n']
}

/// A signature's line: `<prefix><name> <<email>>\n`.
pub open spec fn sig_line(prefix: Seq<char>, s: SignatureModel) -> Seq<char> {
    prefix + s.name + lit_open() + s.email + seq!['>', '\n']
}

/// The payload text of a commit.
pub open spec fn commit_text(c: CommitModel) -> Seq<char> {
    lit_tree() + c.tree_hash + seq!['\n'] + c.parents.map_values(|p: Seq<char>| parent_line(p)).flatten()
        + sig_line(lit_author(), c.author) + sig_line(lit_committer(), c.committer) + seq!['\n']
        + c.message + seq!['\n']
}

/// What has been read of a commit payload after some of its lines.
#[verifier::ext_equal]
pub struct CommitScan {
    pub tree_hash: Seq<char>,
    pub parents: Seq<Seq<char>>,
    pub author: SignatureModel,
    pub committer: SignatureModel,
    pub message: Seq<char>,
    pub in_message: bool,
}

/// Nothing read yet.
pub open spec fn scan_init() -> CommitScan {
    CommitScan {
        tree_hash: Seq::empty(),
        parents: Seq::empty(),
        author: SignatureModel { name: Seq::empty(), email: Seq::empty() },
        committer: SignatureModel { name: Seq::empty(), email: Seq::empty() },
        message: Seq::empty(),
        in_message: false,
    }
}

/// A signature read from `<name> <<email>>`: split at the first ` <`, the
/// address loses its trailing `>`s; without ` <` the old signature stays.
pub open spec fn parse_sig(rest: Seq<char>, old: SignatureModel) -> SignatureModel {
    match split_once(rest, lit_open()) {
        Some((n, e)) => SignatureModel { name: n, email: trim_end_matches(e, seq!['>']) },
        None => old,
    }
}

/// Reading one line of a commit payload: after the first empty line every
/// line belongs to the message; before it, lines starting with `tree `,
/// `parent `, `author ` and `committer ` set their field and other lines
/// are ignored.
pub open spec fn scan_line(st: CommitScan, line: Seq<char>) -> CommitScan {
    if st.in_message {
        CommitScan { message: st.message + line + seq!['\n'], ..st }
    } else if line.len() == 0 {
        CommitScan { in_message: true, ..st }
    } else {
        match strip_prefix(line, lit_tree()) {
            Some(h) => CommitScan { tree_hash: h, ..st },
            None => match strip_prefix(line, lit_parent()) {
                Some(h) => CommitScan { parents: st.parents.push(h), ..st },
                None => match strip_prefix(line, lit_author()) {
                    Some(a) => CommitScan { author: parse_sig(a, st.author), ..st },
                    None => match strip_prefix(line, lit_committer()) {
                        Some(c) => CommitScan { committer: parse_sig(c, st.committer), ..st },
                        None => st,
                    },
                },
            },
        }
    }
}

/// Reading lines in order.
pub open spec fn scan_lines(st: CommitScan, ls: Seq<Seq<char>>) -> CommitScan
    decreases ls.len(),
{
    if ls.len() == 0 {
        st
    } else {
        scan_lines(scan_line(st, ls[0]), ls.drop_first())
    }
}

/// The commit that a payload text describes; the message is trimmed.
pub open spec fn parse_commit_text(text: Seq<char>) -> CommitModel {
    let st = scan_lines(scan_init(), char_lines(text));
    CommitModel {
        tree_hash: st.tree_hash,
        parents: st.parents,
        author: st.author,
        committer: st.committer,
        message: trim(st.message),
    }
}

/// The commit that a payload describes, decoding it lossily.
pub open spec fn parse_commit_payload(p: Seq<u8>) -> CommitModel {
    parse_commit_text(lossy_utf8(p))
}

/// The exec state of reading a commit payload.
struct ScanState {
    tree_hash: Vec<char>,
    parents: Vec<Vec<char>>,
    author_name: Vec<char>,
    author_email: Vec<char>,
    committer_name: Vec<char>,
    committer_email: Vec<char>,
    message: Vec<char>,
    in_message: bool,
}

impl ScanState {
    spec fn model(&self) -> CommitScan {
        CommitScan {
            tree_hash: self.tree_hash@,
            parents: self.parents@.map_values(|p: Vec<char>| p@),
            author: SignatureModel { name: self.author_name@, email: self.author_email@ },
            committer: SignatureModel { name: self.committer_name@, email: self.committer_email@ },
            message: self.message@,
            in_message: self.in_message,
        }
    }

    fn step(&mut self, line: &Vec<char>)
        ensures
            final(self).model() == scan_line(old(self).model(), line@),
    {
        let ghost st = self.model();
        if self.in_message {
            append_chars(&mut self.message, line);
            self.message.push('\n');
            assert(self.model() =~= scan_line(st, line@));
            return ;
        }
        if line.len() == 0 {
            self.in_message = true;
            assert(self.model() =~= scan_line(st, line@));
            return ;
        }
        let tree_lit = vec!['t', 'r', 'e', 'e', ' '];
        let parent_lit = vec!['p', 'a', 'r', 'e', 'n', 't', ' '];
        let author_lit = vec!['a', 'u', 't', 'h', 'o', 'r', ' '];
        let committer_lit = vec!['c', 'o', 'm', 'm', 'i', 't', 't', 'e', 'r', ' '];
        let open_lit = vec![' ', '<'];
        let close_lit = vec!['>'];
        assert(open_lit@ =~= lit_open());
        assert(close_lit@ =~= seq!['>']);
        if let Some(h) = strip_prefix_chars(line, &tree_lit) {
            self.tree_hash = h;
            assert(self.model() =~= scan_line(st, line@));
        } else if let Some(h) = strip_prefix_chars(line, &parent_lit) {
            let ghost old_ps = self.parents@.map_values(|p: Vec<char>| p@);
            self.parents.push(h);
            assert(self.parents@.map_values(|p: Vec<char>| p@) =~= old_ps.push(h@));
            assert(self.model() =~= scan_line(st, line@));
        } else if let Some(a) = strip_prefix_chars(line, &author_lit) {
            let ghost sig = parse_sig(a@, st.author);
            if let Some((n, e)) = split_once_chars(&a, &open_lit) {
                self.author_name = n;
                self.author_email = trim_end_matching(&e, &close_lit);
            }
            assert(self.author_name@ == sig.name && self.author_email@ == sig.email);
            assert(self.model() =~= scan_line(st, line@));
        } else if let Some(c) = strip_prefix_chars(line, &committer_lit) {
            let ghost sig = parse_sig(c@, st.committer);
            if let Some((n, e)) = split_once_chars(&c, &open_lit) {
                self.committer_name = n;
                self.committer_email = trim_end_matching(&e, &close_lit);
            }
            assert(self.committer_name@ == sig.name && self.committer_email@ == sig.email);
            assert(self.model() =~= scan_line(st, line@));
        } else {
            assert(self.model() =~= scan_line(st, line@));
        }
    }
}

/// Owned strings for a list of character sequences.
fn strings_of(v: &Vec<Vec<char>>) -> (r: Vec<String>)
    ensures
        r@.map_values(|s: String| s@) == v@.map_values(|p: Vec<char>| p@),
{
    let mut r: Vec<String> = Vec::new();
    let mut i: usize = 0;
    while i < v.len()
        invariant
            i <= v@.len(),
            r@.map_values(|s: String| s@) == v@.take(i as int).map_values(|p: Vec<char>| p@),
        decreases v@.len() - i,
    {
        let ghost before = r@.map_values(|s: String| s@);
        let s = string_of(&v[i]);
        r.push(s);
        assert(r@.map_values(|s: String| s@) =~= before.push(v@[i as int]@));
        assert(v@.take(i + 1).map_values(|p: Vec<char>| p@) =~= v@.take(i as int).map_values(
            |p: Vec<char>| p@,
        ).push(v@[i as int]@));
        i = i + 1;
    }
    assert(v@.take(v@.len() as int) =~= v@);
    r
}

impl Commit {
    /// The commit's payload text: `tree <hash>`, one `parent <hash>` line per
    /// parent, `author <name> <<email>>`, `committer <name> <<email>>`, an
    /// empty line and the message, each line ended by a line feed.
    pub fn serialize_payload(&self) -> (out: String)
        ensures
            out@ == commit_text(self@),
    {
        let mut t: Vec<char> = vec!['t', 'r', 'e', 'e', ' '];
        append_str(&mut t, self.tree_hash.as_str());
        t.push('\n');
        let ghost ps = self@.parents;
        let mut i: usize = 0;
        let ghost head = t@;
        assert(ps.take(0).map_values(|p: Seq<char>| parent_line(p)) =~= Seq::<Seq<char>>::empty());
        assert(head =~= head + ps.take(0).map_values(|p: Seq<char>| parent_line(p)).flatten());
        while i < self.parent_hashes.len()
            invariant
                ps == self@.parents,
                ps.len() == self.parent_hashes@.len(),
                i <= ps.len(),
                t@ == head + ps.take(i as int).map_values(|p: Seq<char>| parent_line(p)).flatten(),
            decreases ps.len() - i,
        {
            let mut line: Vec<char> = vec!['p', 'a', 'r', 'e', 'n', 't', ' '];
            append_str(&mut line, self.parent_hashes[i].as_str());
            line.push('\n');
            assert(ps[i as int] == self.parent_hashes@[i as int]@);
            assert(line@ =~= parent_line(ps[i as int]));
            let ghost prefix = ps.take(i as int).map_values(|p: Seq<char>| parent_line(p));
            append_chars(&mut t, &line);
            assert(ps.take(i + 1).map_values(|p: Seq<char>| parent_line(p)) =~= prefix.push(
                parent_line(ps[i as int]),
            ));
            proof { prefix.lemma_flatten_push(parent_line(ps[i as int])); }
            assert(t@ =~= head + ps.take(i + 1).map_values(|p: Seq<char>| parent_line(p)).flatten());
            i = i + 1;
        }
        assert(ps.take(ps.len() as int) =~= ps);
        append_str(&mut t, "author ");
        append_str(&mut t, self.author.name.as_str());
        append_str(&mut t, " <");
        append_str(&mut t, self.author.email.as_str());
        append_str(&mut t, ">\n");
        append_str(&mut t, "committer ");
        append_str(&mut t, self.committer.name.as_str());
        append_str(&mut t, " <");
        append_str(&mut t, self.committer.email.as_str());
        append_str(&mut t, ">\n");
        append_str(&mut t, "\n");
        append_str(&mut t, self.message.as_str());
        append_str(&mut t, "\n");
        proof {
            reveal_strlit("author ");
            reveal_strlit("committer ");
            reveal_strlit(" <");
            reveal_strlit(">\n");
            reveal_strlit("\n");
        }
        assert(t@ =~= commit_text(self@));
        string_of(&t)
    }

    /// Reads a commit payload back.  The bytes are decoded lossily and read
    /// line by line (see `scan_line`); the message is trimmed.  Both
    /// signatures get the same timestamp: the time of reading.
    pub fn deserialize_payload(payload: &[u8]) -> (r: Result<Commit, ObjectError>)
        ensures
            r is Ok,
            r matches Ok(c) ==> c@ == parse_commit_payload(payload@) && c.author.timestamp
                == c.committer.timestamp,
    {
        let content = decode_utf8_lossy(payload);
        let cs = chars_of(content.as_str());
        let lines = lines_of_chars(&cs);
        let ghost ls = char_lines(cs@);
        assert(lines@.map_values(|p: Vec<char>| p@) == ls);
        assert(ls.len() == lines@.len());
        let mut st = ScanState {
            tree_hash: Vec::new(),
            parents: Vec::new(),
            author_name: Vec::new(),
            author_email: Vec::new(),
            committer_name: Vec::new(),
            committer_email: Vec::new(),
            message: Vec::new(),
            in_message: false,
        };
        assert(st.model() =~= scan_init());
        assert(ls.skip(0) =~= ls);
        let mut i: usize = 0;
        while i < lines.len()
            invariant
                ls == char_lines(cs@),
                lines@.map_values(|p: Vec<char>| p@) == ls,
                ls.len() == lines@.len(),
                i <= ls.len(),
                scan_lines(scan_init(), ls) == scan_lines(st.model(), ls.skip(i as int)),
            decreases ls.len() - i,
        {
            assert(ls[i as int] == lines@[i as int]@);
            let ghost rest = ls.skip(i as int);
            assert(rest[0] == ls[i as int]);
            assert(rest.drop_first() =~= ls.skip(i + 1));
            st.step(&lines[i]);
            i = i + 1;
        }
        assert(ls.skip(i as int) =~= Seq::<Seq<char>>::empty());
        let when = now();
        let message = string_of(&trim_chars(&st.message));
        Ok(
            Commit {
                tree_hash: string_of(&st.tree_hash),
                parent_hashes: strings_of(&st.parents),
                author: Signature {
                    name: string_of(&st.author_name),
                    email: string_of(&st.author_email),
                    timestamp: when,
                },
                committer: Signature {
                    name: string_of(&st.committer_name),
                    email: string_of(&st.committer_email),
                    timestamp: when,
                },
                message,
            },
        )
    }
}


// ---------------------------------------------------------------------------
// Objects
// ---------------------------------------------------------------------------

/// A stored object.
#[derive(Debug, Clone, PartialEq, Eq)]
pub enum BrassObject {
    Blob(Blob),
    Tree(Tree),
    Commit(Commit),
}

/// The mathematical content of an object.
#[verifier::ext_equal]
pub enum ObjectModel {
    Blob(Seq<u8>),
    Tree(Seq<TreeEntryModel>),
    Commit(CommitModel),
}

impl View for BrassObject {
    type V = ObjectModel;

    open spec fn view(&self) -> ObjectModel {
        match self {
            BrassObject::Blob(b) => ObjectModel::Blob(b.data@),
            BrassObject::Tree(t) => ObjectModel::Tree(t@),
            BrassObject::Commit(c) => ObjectModel::Commit(c@),
        }
    }
}

/// `blob`
pub open spec fn lit_blob() -> Seq<char> {
    seq!['b', 'l', 'o', 'b']
}

/// `tree`
pub open spec fn lit_tree_kind() -> Seq<char> {
    seq!['t', 'r', 'e', 'e']
}

/// `commit`
pub open spec fn lit_commit() -> Seq<char> {
    seq!['c', 'o', 'm', 'm', 'i', 't']
}

/// The kind word of an object's header.
pub open spec fn kind_name(o: ObjectModel) -> Seq<char> {
    match o {
        ObjectModel::Blob(_) => lit_blob(),
        ObjectModel::Tree(_) => lit_tree_kind(),
        ObjectModel::Commit(_) => lit_commit(),
    }
}

/// An object's payload: a blob's data, a tree's lines, a commit's text.
pub open spec fn object_payload(o: ObjectModel) -> Seq<u8> {
    match o {
        ObjectModel::Blob(d) => d,
        ObjectModel::Tree(es) => tree_payload(es),
        ObjectModel::Commit(c) => encode_utf8(commit_text(c)),
    }
}

/// An object's header: `<kind> <payload length>` and a NUL.
pub open spec fn object_header(o: ObjectModel) -> Seq<char> {
    kind_name(o) + seq![' '] + decimal(object_payload(o).len()) + seq!['\0']
}

/// The stored bytes of an object: header, then payload.
pub open spec fn object_bytes(o: ObjectModel) -> Seq<u8> {
    encode_utf8(object_header(o)) + object_payload(o)
}

/// An object's identifier: the lower-case hexadecimal SHA-256 digest of its
/// stored bytes.
pub open spec fn object_id(o: ObjectModel) -> Seq<char> {
    hex_lower(sha256_of(object_bytes(o)))
}

/// The position of the first `x` in `s`.
pub open spec fn first_index<T>(s: Seq<T>, x: T) -> Option<int>
    decreases s.len(),
{
    if s.len() == 0 {
        None
    } else if s[0] == x {
        Some(0)
    } else {
        match first_index(s.drop_first(), x) {
            Some(i) => Some(i + 1),
            None => None,
        }
    }
}

/// The object that stored bytes describe: the header runs to the first NUL
/// and is decoded lossily; its first word names the kind; the payload is
/// everything after the NUL.
pub open spec fn parse_object(data: Seq<u8>) -> Result<ObjectModel, ObjectError> {
    match first_index(data, 0u8) {
        None => Err(ObjectError::MissingHeader),
        Some(i) => {
            let ws = words(lossy_utf8(data.take(i)));
            let payload = data.skip(i + 1);
            if ws.len() == 0 {
                Err(ObjectError::MissingType)
            } else if ws[0] == lit_blob() {
                Ok(ObjectModel::Blob(payload))
            } else if ws[0] == lit_tree_kind() {
                match parse_tree_payload(payload) {
                    Some(es) => Ok(ObjectModel::Tree(es)),
                    None => Err(ObjectError::InvalidUtf8),
                }
            } else if ws[0] == lit_commit() {
                Ok(ObjectModel::Commit(parse_commit_payload(payload)))
            } else {
                Err(ObjectError::UnknownType)
            }
        },
    }
}

/// The bytes of `s` from index `from` on.
fn bytes_from(s: &[u8], from: usize) -> (t: Vec<u8>)
    requires
        from <= s@.len(),
    ensures
        t@ == s@.skip(from as int),
{
    let mut t: Vec<u8> = Vec::new();
    let mut k: usize = from;
    while k < s.len()
        invariant
            from <= k <= s@.len(),
            t@ == s@.subrange(from as int, k as int),
        decreases s@.len() - k,
    {
        t.push(s[k]);
        k = k + 1;
        assert(t@ =~= s@.subrange(from as int, k as int));
    }
    assert(t@ =~= s@.skip(from as int));
    t
}

/// The bytes of `s` before index `to`.
fn bytes_to(s: &[u8], to: usize) -> (t: Vec<u8>)
    requires
        to <= s@.len(),
    ensures
        t@ == s@.take(to as int),
{
    let mut t: Vec<u8> = Vec::new();
    let mut k: usize = 0;
    while k < to
        invariant
            k <= to <= s@.len(),
            t@ == s@.take(k as int),
        decreases to - k,
    {
        t.push(s[k]);
        k = k + 1;
        assert(t@ =~= s@.take(k as int));
    }
    t
}

/// The position of the first NUL byte.
fn find_nul(s: &[u8]) -> (r: Option<usize>)
    ensures
        r matches Some(i) ==> first_index(s@, 0u8) == Some(i as int) && i < s.len(),
        r is None ==> first_index(s@, 0u8) is None,
{
    let mut i: usize = 0;
    assert(s@.skip(0) =~= s@);
    while i < s.len()
        invariant
            i <= s@.len(),
            first_index(s@, 0u8) == match first_index(s@.skip(i as int), 0u8) {
                Some(j) => Some(j + i),
                None => None,
            },
        decreases s@.len() - i,
    {
        assert(s@.skip(i as int)[0] == s@[i as int]);
        assert(s@.skip(i as int).drop_first() =~= s@.skip(i + 1));
        if s[i] == 0u8 {
            return Some(i);
        }
        i = i + 1;
    }
    None
}

impl BrassObject {
    /// The object's identifier and stored bytes: the header
    /// `<kind> <payload length>\0` followed by the payload; the identifier is
    /// the lower-case hexadecimal SHA-256 digest of those bytes.
    pub fn serialize(&self) -> (r: (String, Vec<u8>))
        ensures
            r.1@ == object_bytes(self@),
            r.0@ == object_id(self@),
            r.0@ == hex_lower(sha256_of(r.1@)),
            r.0@.len() == 64,
            first_two_bytes(r.0@) == Some(2int),
    {
        let (mut header, payload): (Vec<char>, Vec<u8>) = match self {
            BrassObject::Blob(b) => {
                let mut d: Vec<u8> = Vec::new();
                append_bytes(&mut d, b.data.as_slice());
                assert(d@ =~= b.data@);
                (vec!['b', 'l', 'o', 'b'], d)
            },
            BrassObject::Tree(t) => (vec!['t', 'r', 'e', 'e'], t.serialize_payload()),
            BrassObject::Commit(c) => {
                let text = c.serialize_payload();
                (vec!['c', 'o', 'm', 'm', 'i', 't'], bytes_of(text.as_str()))
            },
        };
        assert(header@ == kind_name(self@));
        assert(payload@ == object_payload(self@));
        header.push(' ');
        let digits = decimal_chars(payload.len());
        append_chars(&mut header, &digits);
        header.push('\0');
        assert(header@ =~= object_header(self@));
        let mut data = encode_chars(&header);
        append_bytes(&mut data, payload.as_slice());
        let digest = sha256(data.as_slice());
        let id = hex_string(digest.as_slice());
        proof {
            lemma_object_id_location(self@);
        }
        (id, data)
    }

    /// Reads stored bytes back (see `parse_object`).
    pub fn parse(data: &[u8]) -> (r: Result<BrassObject, ObjectError>)
        ensures
            r matches Ok(o) ==> parse_object(data@) == Ok::<ObjectModel, ObjectError>(o@),
            r matches Err(e) ==> parse_object(data@) == Err::<ObjectModel, ObjectError>(e),
    {
        let nul = match find_nul(data) {
            Some(i) => i,
            None => return Err(ObjectError::MissingHeader),
        };
        let head = bytes_to(data, nul);
        let header = decode_utf8_lossy(head.as_slice());
        let hc = chars_of(header.as_str());
        let ws = split_whitespace(&hc);
        let ghost wv = ws@.map_values(|p: Vec<char>| p@);
        assert(wv.len() == ws@.len());
        if ws.len() == 0 {
            return Err(ObjectError::MissingType);
        }
        assert(wv[0] == ws@[0]@);
        let payload = bytes_from(data, nul + 1);
        if chars_eq(&ws[0], &vec!['b', 'l', 'o', 'b']) {
            Ok(BrassObject::Blob(Blob { data: payload }))
        } else if chars_eq(&ws[0], &vec!['t', 'r', 'e', 'e']) {
            match Tree::deserialize_payload(payload.as_slice()) {
                Ok(t) => Ok(BrassObject::Tree(t)),
                Err(e) => Err(e),
            }
        } else if chars_eq(&ws[0], &vec!['c', 'o', 'm', 'm', 'i', 't']) {
            match Commit::deserialize_payload(payload.as_slice()) {
                Ok(c) => Ok(BrassObject::Commit(c)),
                Err(e) => Err(e),
            }
        } else {
            Err(ObjectError::UnknownType)
        }
    }
}


// ---------------------------------------------------------------------------
// Stored objects
// ---------------------------------------------------------------------------

/// Why a stored object could not be read back.
#[derive(Debug, Clone, Copy, PartialEq, Eq, Structural)]
pub enum StoreError {
    /// Compressing the object failed.
    Compression,
    /// The stored bytes are not a zlib stream.
    Corrupt,
    /// The decompressed bytes are not an object.
    Object(ObjectError),
}

/// The object that stored (compressed) bytes describe.
pub open spec fn read_stored(data: Seq<u8>) -> Result<ObjectModel, StoreError> {
    match zlib_inflate(data) {
        None => Err(StoreError::Corrupt),
        Some(b) => match parse_object(b) {
            Ok(o) => Ok(o),
            Err(e) => Err(StoreError::Object(e)),
        },
    }
}

impl BrassObject {
    /// The object's identifier and the compressed bytes under which it is
    /// stored: the zlib stream of the object's bytes, which decompresses to
    /// them.  Compressing into memory always succeeds.
    pub fn encode_for_store(&self) -> (r: Result<(String, Vec<u8>), StoreError>)
        ensures
            r is Ok,
            r matches Ok((id, c)) ==> id@ == object_id(self@) && c@ == zlib_deflate(
                object_bytes(self@),
            ) && zlib_inflate(c@) == Some(object_bytes(self@)),
    {
        let (id, data) = self.serialize();
        match deflate(data.as_slice()) {
            Some(c) => Ok((id, c)),
            None => Err(StoreError::Compression),
        }
    }

    /// Reads an object back from its compressed bytes (see `read_stored`).
    pub fn decode_from_store(data: &[u8]) -> (r: Result<BrassObject, StoreError>)
        ensures
            r matches Ok(o) ==> read_stored(data@) == Ok::<ObjectModel, StoreError>(o@),
            r matches Err(e) ==> read_stored(data@) == Err::<ObjectModel, StoreError>(e),
    {
        match inflate(data) {
            None => Err(StoreError::Corrupt),
            Some(bytes) => match BrassObject::parse(bytes.as_slice()) {
                Ok(o) => Ok(o),
                Err(e) => Err(StoreError::Object(e)),
            },
        }
    }
}


// ---------------------------------------------------------------------------
// Where objects are stored
// ---------------------------------------------------------------------------

/// The number of bytes of a character's UTF-8 encoding.
pub open spec fn utf8_width(c: char) -> nat {
    encode_scalar(c as u32).len()
}

fn utf8_width_exec(c: char) -> (w: usize)
    ensures
        w == utf8_width(c),
{
    proof {
        vstd::utf8::char_is_scalar(c);
    }
    let u = c as u32;
    if u <= 0x7F {
        1
    } else if u <= 0x7FF {
        2
    } else if u <= 0xFFFF {
        3
    } else {
        4
    }
}

/// How many leading characters of an identifier make up its first two
/// bytes; `None` when byte 2 is not at a character boundary or the
/// identifier is shorter than two bytes.
pub open spec fn first_two_bytes(s: Seq<char>) -> Option<int> {
    if s.len() >= 1 && utf8_width(s[0]) == 2 {
        Some(1)
    } else if s.len() >= 2 && utf8_width(s[0]) == 1 && utf8_width(s[1]) == 1 {
        Some(2)
    } else {
        None
    }
}

/// A hexadecimal digit is one byte wide.
proof fn lemma_hex_digit_ascii(x: u8)
    requires
        x < 16,
    ensures
        utf8_width(hex_digit(x)) == 1,
{
    let c = hex_digit(x);
    assert((c as u32) < 0x80);
    lemma_encode_scalar_bytes(c);
}

/// A lower-case hexadecimal rendering has two characters per byte, each one
/// byte wide.
pub proof fn lemma_hex_lower_ascii(d: Seq<u8>)
    ensures
        hex_lower(d).len() == 2 * d.len(),
        forall|i: int| 0 <= i < hex_lower(d).len() ==> utf8_width(#[trigger] hex_lower(d)[i]) == 1,
    decreases d.len(),
{
    if d.len() > 0 {
        let b = d.last();
        lemma_hex_lower_ascii(d.drop_last());
        lemma_hex_digit_ascii(b / 16);
        lemma_hex_digit_ascii(b % 16);
        let p = hex_lower(d.drop_last());
        let t = seq![hex_digit(b / 16), hex_digit(b % 16)];
        assert(hex_lower(d) == p + t);
        assert forall|i: int| 0 <= i < hex_lower(d).len() implies utf8_width(
            #[trigger] hex_lower(d)[i],
        ) == 1 by {
            if i < p.len() {
                assert(hex_lower(d)[i] == p[i]);
            } else {
                assert(hex_lower(d)[i] == t[i - p.len()]);
            }
        }
    }
}

/// Every object identifier is 64 characters that can be cut after the
/// first two, as the object store lays identifiers out.
proof fn lemma_object_id_location(o: ObjectModel)
    requires
        sha256_of(object_bytes(o)).len() == 32,
    ensures
        object_id(o).len() == 64,
        first_two_bytes(object_id(o)) == Some(2int),
{
    lemma_hex_lower_ascii(sha256_of(object_bytes(o)));
    assert(utf8_width(object_id(o)[0]) == 1);
    assert(utf8_width(object_id(o)[1]) == 1);
}

/// The directory and file name under which an object is stored: its
/// identifier's first two bytes, and the rest.  `None` when the identifier
/// cannot be cut after two bytes.
pub fn object_location(id: &str) -> (r: Option<(String, String)>)
    ensures
        r matches Some((dir, file)) ==> first_two_bytes(id@) matches Some(n) && dir@ == id@.take(n)
            && file@ == id@.skip(n),
        r is None ==> first_two_bytes(id@) is None,
{
    let cs = chars_of(id);
    if cs.len() >= 1 && utf8_width_exec(cs[0]) == 2 {
        return Some((string_of(&head_to(&cs, 1)), string_of(&tail_from(&cs, 1))));
    }
    if cs.len() >= 2 && utf8_width_exec(cs[0]) == 1 && utf8_width_exec(cs[1]) == 1 {
        return Some((string_of(&head_to(&cs, 2)), string_of(&tail_from(&cs, 2))));
    }
    None
}

} // verus!
