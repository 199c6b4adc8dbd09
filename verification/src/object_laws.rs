//! What reading an object gives back of writing it: for every object whose
//! fields fit the text format, parsing its stored bytes yields it again.
use vstd::prelude::*;
use vstd::utf8::*;
use crate::object::{
    first_index, kind_name, lit_blob, lit_commit, lit_tree_kind, object_bytes, object_header,
    object_payload, parse_object, read_stored, ObjectModel, ObjectError, StoreError,
    commit_text, lit_author, lit_committer, lit_open, lit_parent, lit_tree, parent_line,
    parse_commit_payload, parse_commit_text, parse_sig, scan_init, scan_line, scan_lines,
    CommitModel, CommitScan, SignatureModel, all_utf8, decode_lines, entry_body, entry_line, mode_name, parse_mode, parse_tree_line,
    parse_tree_lines, parse_tree_payload, tree_payload, tree_text, FileMode, TreeEntryModel,
};
use crate::text::{
    decimal, digit_char, lossy_utf8,
    char_lines, contains_seq, find_from, has_prefix, lemma_find_from_none_before, occurs_at,
    split_once, strip_prefix, trim_end_matches, byte_lines, is_ws, lacks, lemma_lines_acc_prefix, lemma_split_acc_prefix,
    lemma_split_acc_whole, lemma_words_acc_run, lines_acc, no_ws, split_on, strip_last, trim,
    trim_end, trim_start, word_if_any, words,
};
use crate::codec::zlib_inflate;
use crate::utf8_facts::{lemma_encode_ascii, lemma_encode_concat, lemma_encode_lacks, lemma_encode_last};

verus! {

broadcast use {encode_utf8_valid_utf8, encode_utf8_decode_utf8};

/// `s` has no whitespace at either end.
pub open spec fn trimmed(s: Seq<char>) -> bool {
    s.len() == 0 || (!is_ws(s[0]) && !is_ws(s.last()))
}

/// Trimming a sequence without whitespace at its ends leaves it as it is.
pub proof fn lemma_trimmed(s: Seq<char>)
    requires
        trimmed(s),
    ensures
        trim(s) == s,
{
    assert(trim_start(s) == s);
    assert(trim_end(s) == s);
}

/// A tree entry that its line reads back as: a name without whitespace or
/// NUL, and a hash without NUL or line feed and without surrounding
/// whitespace.
pub open spec fn entry_fits(e: TreeEntryModel) -> bool {
    &&& no_ws(e.name)
    &&& lacks(e.name, '\0')
    &&& lacks(e.hash, '\0')
    &&& lacks(e.hash, '\n')
    &&& trimmed(e.hash)
}

/// Every entry of a tree fits its line.
pub open spec fn entries_fit(es: Seq<TreeEntryModel>) -> bool {
    forall|i: int| 0 <= i < es.len() ==> entry_fits(#[trigger] es[i])
}

proof fn lemma_mode_name_facts(m: FileMode)
    ensures
        mode_name(m).len() > 0,
        no_ws(mode_name(m)),
        lacks(mode_name(m), '\0'),
        lacks(mode_name(m), '\n'),
        parse_mode(seq![mode_name(m)] + Seq::<Seq<char>>::empty()) == m,
        forall|w: Seq<Seq<char>>| w.len() > 0 && w[0] == mode_name(m) ==> parse_mode(w) == m,
{
    let n = mode_name(m);
    assert(mode_name(FileMode::Regular).len() == 7);
    assert(mode_name(FileMode::Executable).len() == 10);
    assert(mode_name(FileMode::Directory).len() == 9);
    assert forall|i: int| 0 <= i < n.len() implies !is_ws(#[trigger] n[i]) && n[i] != '\0'
        && n[i] != '\n' by {
        match m {
            FileMode::Regular => {},
            FileMode::Executable => {},
            FileMode::Directory => {},
        }
    }
    let w0 = seq![n] + Seq::<Seq<char>>::empty();
    assert(w0[0] == n);
}

/// The body of a fitting entry: not empty, without line feed, not ending
/// with a carriage return.
proof fn lemma_entry_body_shape(e: TreeEntryModel)
    requires
        entry_fits(e),
    ensures
        entry_body(e).len() > 0,
        lacks(entry_body(e), '\n'),
        entry_body(e).last() != '\r',
{
    lemma_mode_name_facts(e.mode);
    let b = entry_body(e);
    let m = mode_name(e.mode);
    assert forall|i: int| 0 <= i < b.len() implies b[i] != '\n' by {
        if i < m.len() {
            assert(b[i] == m[i]);
        } else if i == m.len() {
            assert(b[i] == ' ');
        } else if i < m.len() + 1 + e.name.len() {
            assert(b[i] == e.name[i - m.len() - 1]);
            assert(!is_ws(e.name[i - m.len() - 1]));
        } else if i == m.len() + 1 + e.name.len() {
            assert(b[i] == '\0');
        } else {
            assert(b[i] == e.hash[i - m.len() - 2 - e.name.len()]);
        }
    }
    if e.hash.len() > 0 {
        assert(b.last() == e.hash.last());
        assert(!is_ws(e.hash.last()));
    } else {
        assert(b.last() == '\0');
    }
}

/// A fitting entry's body reads back as the entry.
proof fn lemma_parse_entry_body(e: TreeEntryModel)
    requires
        entry_fits(e),
    ensures
        parse_tree_line(entry_body(e)) == Some(e),
{
    lemma_mode_name_facts(e.mode);
    lemma_entry_body_shape(e);
    let m = mode_name(e.mode);
    let a = m + seq![' '] + e.name;
    let b = entry_body(e);
    assert(b =~= a + seq!['\0'] + e.hash);
    assert(lacks(a, '\0')) by {
        assert forall|i: int| 0 <= i < a.len() implies a[i] != '\0' by {
            if i < m.len() {
                assert(a[i] == m[i]);
            } else if i == m.len() {
                assert(a[i] == ' ');
            } else {
                assert(a[i] == e.name[i - m.len() - 1]);
            }
        }
    }
    lemma_split_acc_prefix(a, '\0', e.hash, Seq::empty());
    lemma_split_acc_whole(e.hash, '\0', Seq::empty());
    assert(Seq::<char>::empty() + a =~= a);
    assert(Seq::<char>::empty() + e.hash =~= e.hash);
    let parts = split_on(b, '\0');
    assert(parts =~= seq![a, e.hash]);
    // the words of the first part: the mode's name, then the name if any
    assert(a =~= m + (seq![' '] + e.name));
    lemma_words_acc_run(m, seq![' '] + e.name, Seq::empty());
    assert((seq![' '] + e.name).drop_first() =~= e.name);
    assert(is_ws(' '));
    lemma_words_acc_run(e.name, Seq::empty(), Seq::empty());
    assert(e.name + Seq::<char>::empty() =~= e.name);
    assert(Seq::<char>::empty() + m =~= m);
    assert(Seq::<char>::empty() + e.name =~= e.name);
    let ws = words(a);
    assert(ws =~= seq![m] + word_if_any(e.name));
    assert(ws[0] == m);
    assert(parse_mode(ws) == e.mode);
    lemma_trimmed(e.hash);
    if e.name.len() > 0 {
        assert(ws[1] == e.name);
    } else {
        assert(ws.len() == 1);
    }
    let r = parse_tree_line(b).unwrap();
    assert(r =~= e);
}

/// Encoding lines each ended by a line feed and splitting the bytes into
/// lines again gives the encoded lines.
pub proof fn lemma_encoded_lines(ls: Seq<Seq<char>>)
    requires
        forall|i: int| 0 <= i < ls.len() ==> line_value_fits(#[trigger] ls[i]),
    ensures
        byte_lines(encode_utf8(ls.map_values(|l: Seq<char>| l + seq!['\n']).flatten()))
            == ls.map_values(|l: Seq<char>| encode_utf8(l)),
    decreases ls.len(),
{
    let m = ls.map_values(|l: Seq<char>| l + seq!['\n']);
    if ls.len() == 0 {
        assert(m.flatten() =~= Seq::<char>::empty());
        assert(ls.map_values(|l: Seq<char>| encode_utf8(l)) =~= Seq::<Seq<u8>>::empty());
    } else {
        let l0 = ls[0];
        let rest = ls.drop_first();
        assert forall|i: int| 0 <= i < rest.len() implies line_value_fits(#[trigger] rest[i]) by {
            assert(rest[i] == ls[i + 1]);
        }
        lemma_encoded_lines(rest);
        let mr = rest.map_values(|l: Seq<char>| l + seq!['\n']);
        assert(m.first() == l0 + seq!['\n']);
        assert(m.drop_first() =~= mr);
        assert(m.flatten() == l0 + seq!['\n'] + mr.flatten());
        assert(line_value_fits(ls[0]));
        lemma_encode_concat(l0 + seq!['\n'], mr.flatten());
        lemma_encode_concat(l0, seq!['\n']);
        lemma_encode_ascii('\n');
        assert(('\n' as u32) as u8 == 10u8);
        let el = encode_utf8(l0);
        assert(encode_utf8(m.flatten()) =~= el + seq![10u8] + encode_utf8(mr.flatten()));
        lemma_encode_lacks(l0, '\n');
        if l0.len() > 0 {
            lemma_encode_last(l0, '\r');
            assert(('\r' as u32) as u8 == 13u8);
        } else {
            assert(el.len() == 0);
        }
        lemma_lines_acc_prefix(el, 10u8, 13u8, encode_utf8(mr.flatten()), Seq::empty());
        assert(Seq::<u8>::empty() + el =~= el);
        assert(strip_last(el, 13u8) == el);
        assert(ls.map_values(|l: Seq<char>| encode_utf8(l)) =~= seq![el] + rest.map_values(
            |l: Seq<char>| encode_utf8(l),
        ));
    }
}

/// The byte lines of a tree payload are the encoded bodies of its entries.
proof fn lemma_tree_byte_lines(es: Seq<TreeEntryModel>)
    requires
        entries_fit(es),
    ensures
        byte_lines(tree_payload(es)) == es.map_values(|e: TreeEntryModel| encode_utf8(entry_body(e))),
    decreases es.len(),
{
    let lines = es.map_values(|e: TreeEntryModel| entry_line(e));
    if es.len() == 0 {
        assert(lines =~= Seq::<Seq<char>>::empty());
        assert(tree_text(es) =~= Seq::<char>::empty());
        assert(es.map_values(|e: TreeEntryModel| encode_utf8(entry_body(e))) =~= Seq::<
            Seq<u8>,
        >::empty());
    } else {
        let e = es[0];
        let rest = es.drop_first();
        assert(entries_fit(rest)) by {
            assert forall|i: int| 0 <= i < rest.len() implies entry_fits(#[trigger] rest[i]) by {
                assert(rest[i] == es[i + 1]);
            }
        }
        lemma_tree_byte_lines(rest);
        assert(lines.first() == entry_line(e));
        assert(lines.drop_first() =~= rest.map_values(|e: TreeEntryModel| entry_line(e)));
        assert(tree_text(es) == entry_line(e) + tree_text(rest));
        let body = entry_body(e);
        lemma_entry_body_shape(e);
        lemma_encode_concat(body, seq!['\n']);
        lemma_encode_concat(entry_line(e), tree_text(rest));
        lemma_encode_ascii('\n');
        assert(('\n' as u32) as u8 == 10u8);
        let eb = encode_utf8(body);
        assert(tree_payload(es) =~= eb + seq![10u8] + tree_payload(rest));
        lemma_encode_lacks(body, '\n');
        lemma_encode_last(body, '\r');
        assert(('\r' as u32) as u8 == 13u8);
        lemma_lines_acc_prefix(eb, 10u8, 13u8, tree_payload(rest), Seq::empty());
        assert(Seq::<u8>::empty() + eb =~= eb);
        assert(strip_last(eb, 13u8) == eb);
        assert(es.map_values(|e: TreeEntryModel| encode_utf8(entry_body(e))) =~= seq![eb]
            + rest.map_values(|e: TreeEntryModel| encode_utf8(entry_body(e))));
    }
}

/// Reading the entries of a sequence of fitting bodies.
proof fn lemma_parse_bodies(es: Seq<TreeEntryModel>)
    requires
        entries_fit(es),
    ensures
        parse_tree_lines(es.map_values(|e: TreeEntryModel| entry_body(e))) == es,
    decreases es.len(),
{
    let ls = es.map_values(|e: TreeEntryModel| entry_body(e));
    if es.len() == 0 {
        assert(ls.len() == 0);
        assert(parse_tree_lines(ls) =~= es);
    } else {
        let init = es.drop_last();
        assert(entries_fit(init)) by {
            assert forall|i: int| 0 <= i < init.len() implies entry_fits(#[trigger] init[i]) by {
                assert(init[i] == es[i]);
            }
        }
        lemma_parse_bodies(init);
        assert(ls.drop_last() =~= init.map_values(|e: TreeEntryModel| entry_body(e)));
        assert(ls.last() == entry_body(es.last()));
        assert(entry_fits(es[es.len() - 1]));
        lemma_parse_entry_body(es.last());
        assert(parse_tree_lines(ls) =~= init.push(es.last()));
        assert(init.push(es.last()) =~= es);
    }
}

/// A tree whose entries fit their lines reads back from its payload.
pub proof fn lemma_tree_payload_roundtrip(es: Seq<TreeEntryModel>)
    requires
        entries_fit(es),
    ensures
        parse_tree_payload(tree_payload(es)) == Some(es),
{
    lemma_tree_byte_lines(es);
    let bl = byte_lines(tree_payload(es));
    assert(all_utf8(bl));
    assert(decode_lines(bl) =~= es.map_values(|e: TreeEntryModel| entry_body(e)));
    lemma_parse_bodies(es);
}


// ---------------------------------------------------------------------------
// Commits
// ---------------------------------------------------------------------------

/// A value that can stand alone on a header line: no line feed, and no
/// carriage return at its end.
pub open spec fn line_value_fits(v: Seq<char>) -> bool {
    lacks(v, '\n') && (v.len() == 0 || v.last() != '\r')
}

/// A signature that its line reads back as: no line feed in name or address,
/// no ` <` in the name, and no `>` at the end of the address.
pub open spec fn sig_fits(s: SignatureModel) -> bool {
    &&& lacks(s.name, '\n')
    &&& lacks(s.email, '\n')
    &&& !contains_seq(s.name, lit_open())
    &&& (s.email.len() == 0 || s.email.last() != '>')
}

/// No carriage return directly before a line feed.
pub open spec fn no_crlf(s: Seq<char>) -> bool {
    forall|i: int| 0 <= i < s.len() - 1 ==> !(#[trigger] s[i] == '\r' && s[i + 1] == '\n')
}

/// A commit that its payload reads back as.
pub open spec fn commit_fits(c: CommitModel) -> bool {
    &&& line_value_fits(c.tree_hash)
    &&& forall|i: int| 0 <= i < c.parents.len() ==> line_value_fits(#[trigger] c.parents[i])
    &&& sig_fits(c.author)
    &&& sig_fits(c.committer)
    &&& trimmed(c.message)
    &&& no_crlf(c.message)
}

/// A line without line feed, not ending with a carriage return, followed by a
/// line feed.
proof fn lemma_char_line(a: Seq<char>, rest: Seq<char>)
    requires
        line_value_fits(a),
    ensures
        char_lines(a + seq!['\n'] + rest) == seq![a] + char_lines(rest),
{
    lemma_lines_acc_prefix(a, '\n', '\r', rest, Seq::empty());
    assert(Seq::<char>::empty() + a =~= a);
}

/// The body of a parent's line.
pub open spec fn parent_body(p: Seq<char>) -> Seq<char> {
    lit_parent() + p
}

proof fn lemma_prefixed_fits(lit: Seq<char>, v: Seq<char>)
    requires
        line_value_fits(v),
        lacks(lit, '\n'),
        lit.len() > 0,
        lit.last() != '\r',
    ensures
        line_value_fits(lit + v),
{
    let s = lit + v;
    assert forall|i: int| 0 <= i < s.len() implies s[i] != '\n' by {
        if i < lit.len() {
            assert(s[i] == lit[i]);
        } else {
            assert(s[i] == v[i - lit.len()]);
        }
    }
    if v.len() > 0 {
        assert(s.last() == v.last());
    } else {
        assert(s.last() == lit.last());
    }
}

/// The lines of the parent section.
proof fn lemma_parent_lines(ps: Seq<Seq<char>>, rest: Seq<char>)
    requires
        forall|i: int| 0 <= i < ps.len() ==> line_value_fits(#[trigger] ps[i]),
    ensures
        char_lines(ps.map_values(|p: Seq<char>| parent_line(p)).flatten() + rest) == ps.map_values(
            |p: Seq<char>| parent_body(p),
        ) + char_lines(rest),
    decreases ps.len(),
{
    let lines = ps.map_values(|p: Seq<char>| parent_line(p));
    if ps.len() == 0 {
        assert(lines.flatten() =~= Seq::<char>::empty());
        assert(lines.flatten() + rest =~= rest);
        assert(ps.map_values(|p: Seq<char>| parent_body(p)) + char_lines(rest) =~= char_lines(
            rest,
        ));
    } else {
        let p0 = ps[0];
        let tail = ps.drop_first();
        assert forall|i: int| 0 <= i < tail.len() implies line_value_fits(#[trigger] tail[i]) by {
            assert(tail[i] == ps[i + 1]);
        }
        lemma_parent_lines(tail, rest);
        assert(lines.first() == parent_line(p0));
        assert(lines.drop_first() =~= tail.map_values(|p: Seq<char>| parent_line(p)));
        assert(lines.flatten() == parent_line(p0) + tail.map_values(
            |p: Seq<char>| parent_line(p),
        ).flatten());
        let r2 = tail.map_values(|p: Seq<char>| parent_line(p)).flatten() + rest;
        assert(lines.flatten() + rest =~= parent_body(p0) + seq!['\n'] + r2);
        assert(line_value_fits(ps[0]));
        lemma_prefixed_fits(lit_parent(), p0);
        lemma_char_line(parent_body(p0), r2);
        assert(ps.map_values(|p: Seq<char>| parent_body(p)) =~= seq![parent_body(p0)]
            + tail.map_values(|p: Seq<char>| parent_body(p)));
    }
}

/// Reading lines in two parts.
proof fn lemma_scan_concat(st: CommitScan, a: Seq<Seq<char>>, b: Seq<Seq<char>>)
    ensures
        scan_lines(st, a + b) == scan_lines(scan_lines(st, a), b),
    decreases a.len(),
{
    if a.len() == 0 {
        assert(a + b =~= b);
    } else {
        assert((a + b)[0] == a[0]);
        assert((a + b).drop_first() =~= a.drop_first() + b);
        lemma_scan_concat(scan_line(st, a[0]), a.drop_first(), b);
    }
}

/// A line that does not start like a given literal is not stripped of it.
proof fn lemma_no_strip(line: Seq<char>, lit: Seq<char>)
    requires
        line.len() > 0,
        lit.len() > 0,
        line[0] != lit[0],
    ensures
        strip_prefix(line, lit) is None,
{
    if has_prefix(line, lit) {
        assert(line.take(lit.len() as int)[0] == line[0]);
    }
}

/// A literal followed by a value is stripped of the literal.
proof fn lemma_strip_lit(lit: Seq<char>, v: Seq<char>)
    ensures
        strip_prefix(lit + v, lit) == Some(v),
{
    assert((lit + v).take(lit.len() as int) =~= lit);
    assert((lit + v).skip(lit.len() as int) =~= v);
}

/// Reading parent lines before the message adds the parents in order.
proof fn lemma_scan_parents(st: CommitScan, ps: Seq<Seq<char>>)
    requires
        !st.in_message,
    ensures
        scan_lines(st, ps.map_values(|p: Seq<char>| parent_body(p))) == (CommitScan {
            parents: st.parents + ps,
            ..st
        }),
    decreases ps.len(),
{
    let ls = ps.map_values(|p: Seq<char>| parent_body(p));
    if ps.len() == 0 {
        assert(st.parents + ps =~= st.parents);
        assert(scan_lines(st, ls) =~= (CommitScan { parents: st.parents + ps, ..st }));
    } else {
        let p0 = ps[0];
        let line = parent_body(p0);
        assert(ls[0] == line);
        assert(line[0] == 'p');
        lemma_no_strip(line, lit_tree());
        lemma_strip_lit(lit_parent(), p0);
        let st1 = CommitScan { parents: st.parents.push(p0), ..st };
        assert(scan_line(st, line) == st1);
        assert(ls.drop_first() =~= ps.drop_first().map_values(|p: Seq<char>| parent_body(p)));
        lemma_scan_parents(st1, ps.drop_first());
        assert(st.parents.push(p0) + ps.drop_first() =~= st.parents + ps);
        assert(scan_lines(st, ls) =~= (CommitScan { parents: st.parents + ps, ..st }));
    }
}

/// The body of a signature's line.
pub open spec fn sig_body(prefix: Seq<char>, s: SignatureModel) -> Seq<char> {
    prefix + s.name + lit_open() + s.email + seq!['>']
}

/// A fitting signature reads back from what follows its line's prefix.
proof fn lemma_parse_sig(s: SignatureModel, old: SignatureModel)
    requires
        sig_fits(s),
    ensures
        parse_sig(s.name + lit_open() + s.email + seq!['>'], old) == s,
{
    let n = s.name;
    let pat = lit_open();
    let rest = n + pat + s.email + seq!['>'];
    assert forall|k: int| 0 <= k < n.len() implies !occurs_at(rest, pat, k) by {
        if occurs_at(rest, pat, k) {
            if k + 2 <= n.len() {
                assert(rest.subrange(k, k + 2) =~= n.subrange(k, k + 2));
                assert(occurs_at(n, pat, k));
            } else {
                assert(rest[k + 1] == ' ');
                assert(rest.subrange(k, k + 2)[1] == rest[k + 1]);
                assert(pat[1] == '<');
            }
        }
    }
    assert(rest.subrange(n.len() as int, n.len() + 2int) =~= pat);
    assert(occurs_at(rest, pat, n.len() as int));
    lemma_find_from_none_before(rest, pat, n.len() as int, 0);
    assert(find_from(rest, pat, 0) == Some(n.len() as int));
    assert(rest.take(n.len() as int) =~= n);
    let e2 = s.email + seq!['>'];
    assert(rest.skip(n.len() + 2int) =~= e2);
    assert(split_once(rest, pat) == Some((n, e2)));
    assert(e2.skip(e2.len() - 1) =~= seq!['>']);
    assert(e2.take(e2.len() - 1) =~= s.email);
    assert(trim_end_matches(e2, seq!['>']) == trim_end_matches(s.email, seq!['>']));
    if s.email.len() > 0 {
        assert(s.email.skip(s.email.len() - 1)[0] == s.email.last());
    }
    assert(trim_end_matches(s.email, seq!['>']) == s.email);
    assert(parse_sig(rest, old) =~= s);
}

/// Reading lines after the message started appends each line and a line
/// feed to the message.
proof fn lemma_scan_message(st: CommitScan, ls: Seq<Seq<char>>)
    requires
        st.in_message,
    ensures
        scan_lines(st, ls) == (CommitScan {
            message: st.message + ls.map_values(|l: Seq<char>| l + seq!['\n']).flatten(),
            ..st
        }),
    decreases ls.len(),
{
    let m = ls.map_values(|l: Seq<char>| l + seq!['\n']);
    if ls.len() == 0 {
        assert(m.flatten() =~= Seq::<char>::empty());
        assert(st.message + m.flatten() =~= st.message);
        assert(scan_lines(st, ls) =~= (CommitScan { message: st.message + m.flatten(), ..st }));
    } else {
        let st1 = scan_line(st, ls[0]);
        assert(st1 == (CommitScan { message: st.message + ls[0] + seq!['\n'], ..st }));
        lemma_scan_message(st1, ls.drop_first());
        assert(m.first() == ls[0] + seq!['\n']);
        assert(m.drop_first() =~= ls.drop_first().map_values(|l: Seq<char>| l + seq!['\n']));
        assert(m.flatten() == ls[0] + seq!['\n'] + ls.drop_first().map_values(
            |l: Seq<char>| l + seq!['\n'],
        ).flatten());
        assert(st.message + ls[0] + seq!['\n'] + ls.drop_first().map_values(
            |l: Seq<char>| l + seq!['\n'],
        ).flatten() =~= st.message + m.flatten());
        assert(scan_lines(st, ls) =~= (CommitScan { message: st.message + m.flatten(), ..st }));
    }
}

/// Splitting text into lines and ending each with a line feed gives the text
/// back, when the text ends with a line feed and has no carriage return
/// before a line feed.
proof fn lemma_rejoin_lines(s: Seq<char>, cur: Seq<char>)
    requires
        s.len() > 0,
        s.last() == '\n',
        no_crlf(cur + s),
    ensures
        lines_acc(s, '\n', '\r', cur).map_values(|l: Seq<char>| l + seq!['\n']).flatten() == cur
            + s,
    decreases s.len(),
{
    let t = s.drop_first();
    let all = cur + s;
    if s[0] == '\n' {
        if cur.len() > 0 {
            assert(all[cur.len() - 1] == cur.last());
            assert(all[cur.len() as int] == '\n');
            assert(cur.last() != '\r');
        }
        assert(strip_last(cur, '\r') == cur);
        let rest = lines_acc(t, '\n', '\r', Seq::empty());
        let ls = seq![cur] + rest;
        assert(lines_acc(s, '\n', '\r', cur) == ls);
        let m = ls.map_values(|l: Seq<char>| l + seq!['\n']);
        assert(m.first() == cur + seq!['\n']);
        assert(m.drop_first() =~= rest.map_values(|l: Seq<char>| l + seq!['\n']));
        if t.len() == 0 {
            assert(rest.len() == 0);
            assert(m.drop_first().flatten() =~= Seq::<char>::empty());
            assert(s =~= seq!['\n']);
            assert(m.flatten() =~= cur + s);
        } else {
            assert(t.last() == s.last());
            assert(no_crlf(Seq::<char>::empty() + t)) by {
                assert forall|i: int| 0 <= i < (Seq::<char>::empty() + t).len() - 1 implies !(#[trigger] (Seq::<char>::empty() + t)[i] == '\r' && (Seq::<char>::empty() + t)[i + 1] == '\n') by {
                    assert((Seq::<char>::empty() + t)[i] == all[cur.len() + 1 + i]);
                    assert((Seq::<char>::empty() + t)[i + 1] == all[cur.len() + 1 + i + 1]);
                }
            }
            lemma_rejoin_lines(t, Seq::empty());
            assert(Seq::<char>::empty() + t =~= t);
            assert(m.flatten() =~= cur + seq!['\n'] + t);
            assert(cur + seq!['\n'] + t =~= cur + s);
        }
    } else {
        assert(s.len() > 1);
        assert(cur.push(s[0]) + t =~= all);
        lemma_rejoin_lines(t, cur.push(s[0]));
    }
}

/// A trimmed text followed by a line feed trims back to the text.
pub proof fn lemma_trim_line(m: Seq<char>)
    requires
        trimmed(m),
    ensures
        trim(m + seq!['\n']) == m,
{
    let s = m + seq!['\n'];
    assert(is_ws('\n'));
    if m.len() == 0 {
        assert(s.drop_first() =~= Seq::<char>::empty());
        assert(trim_start(s) == trim_start(Seq::<char>::empty()));
        assert(trim_start(Seq::<char>::empty()) =~= Seq::<char>::empty());
        assert(trim_end(Seq::<char>::empty()) =~= m);
    } else {
        assert(s[0] == m[0]);
        assert(trim_start(s) == s);
        assert(s.drop_last() =~= m);
        assert(trim_end(s) == trim_end(m));
        assert(trim_end(m) == m);
    }
}

/// A commit whose fields fit the format reads back from its payload text.
pub proof fn lemma_commit_text_roundtrip(c: CommitModel)
    requires
        commit_fits(c),
    ensures
        parse_commit_text(commit_text(c)) == c,
{
    let th = c.tree_hash;
    let ps = c.parents;
    let tl = lit_tree() + th;
    let al = sig_body(lit_author(), c.author);
    let cl = sig_body(lit_committer(), c.committer);
    let msg = c.message;
    let pp = ps.map_values(|p: Seq<char>| parent_line(p)).flatten();
    let r5 = msg + seq!['\n'];
    let r4 = Seq::<char>::empty() + seq!['\n'] + r5;
    let r3 = cl + seq!['\n'] + r4;
    let r2 = al + seq!['\n'] + r3;
    let r1 = pp + r2;
    assert(commit_text(c) =~= tl + seq!['\n'] + r1);
    // lines
    assert(lacks(lit_tree(), '\n'));
    lemma_prefixed_fits(lit_tree(), th);
    lemma_char_line(tl, r1);
    lemma_parent_lines(ps, r2);
    assert(line_value_fits(al)) by {
        let x = c.author;
        assert forall|i: int| 0 <= i < al.len() implies al[i] != '\n' by {
            let a1 = lit_author().len();
            let a2 = a1 + x.name.len();
            if i < a1 {
                assert(al[i] == lit_author()[i]);
            } else if i < a2 {
                assert(al[i] == x.name[i - a1]);
            } else if i < a2 + 2 {
                assert(al[i] == lit_open()[i - a2]);
            } else if i < a2 + 2 + x.email.len() {
                assert(al[i] == x.email[i - a2 - 2]);
            } else {
                assert(al[i] == '>');
            }
        }
        assert(al.last() == '>');
    }
    assert(line_value_fits(cl)) by {
        let x = c.committer;
        assert forall|i: int| 0 <= i < cl.len() implies cl[i] != '\n' by {
            let a1 = lit_committer().len();
            let a2 = a1 + x.name.len();
            if i < a1 {
                assert(cl[i] == lit_committer()[i]);
            } else if i < a2 {
                assert(cl[i] == x.name[i - a1]);
            } else if i < a2 + 2 {
                assert(cl[i] == lit_open()[i - a2]);
            } else if i < a2 + 2 + x.email.len() {
                assert(cl[i] == x.email[i - a2 - 2]);
            } else {
                assert(cl[i] == '>');
            }
        }
        assert(cl.last() == '>');
    }
    lemma_char_line(al, r3);
    lemma_char_line(cl, r4);
    lemma_char_line(Seq::<char>::empty(), r5);
    let pbs = ps.map_values(|p: Seq<char>| parent_body(p));
    let tail = seq![al, cl, Seq::<char>::empty()];
    let ml = char_lines(r5);
    assert(char_lines(commit_text(c)) =~= seq![tl] + pbs + tail + ml);
    // scanning
    let st0 = scan_init();
    lemma_strip_lit(lit_tree(), th);
    let st1 = scan_line(st0, tl);
    assert(st1 == (CommitScan { tree_hash: th, ..st0 }));
    lemma_scan_concat(st0, seq![tl], pbs + tail + ml);
    assert(seq![tl] + pbs + tail + ml =~= seq![tl] + (pbs + tail + ml));
    assert(seq![tl][0] == tl);
    assert(seq![tl].drop_first() =~= Seq::<Seq<char>>::empty());
    assert(scan_lines(st0, seq![tl]) == scan_lines(st1, Seq::empty()));
    lemma_scan_concat(st1, pbs, tail + ml);
    assert(pbs + tail + ml =~= pbs + (tail + ml));
    lemma_scan_parents(st1, ps);
    let st2 = CommitScan { parents: st1.parents + ps, ..st1 };
    assert(st1.parents + ps =~= ps);
    // the signatures
    assert(al[0] == 'a');
    lemma_no_strip(al, lit_tree());
    lemma_no_strip(al, lit_parent());
    assert(al =~= lit_author() + (c.author.name + lit_open() + c.author.email + seq!['>']));
    lemma_strip_lit(lit_author(), c.author.name + lit_open() + c.author.email + seq!['>']);
    lemma_parse_sig(c.author, st2.author);
    let st3 = scan_line(st2, al);
    assert(st3 == (CommitScan { author: c.author, ..st2 }));
    assert(cl[0] == 'c');
    lemma_no_strip(cl, lit_tree());
    lemma_no_strip(cl, lit_parent());
    lemma_no_strip(cl, lit_author());
    assert(cl =~= lit_committer() + (c.committer.name + lit_open() + c.committer.email + seq![
        '>',
    ]));
    lemma_strip_lit(lit_committer(), c.committer.name + lit_open() + c.committer.email + seq![
        '>',
    ]);
    lemma_parse_sig(c.committer, st3.committer);
    let st4 = scan_line(st3, cl);
    assert(st4 == (CommitScan { committer: c.committer, ..st3 }));
    let st5 = scan_line(st4, Seq::empty());
    assert(st5 == (CommitScan { in_message: true, ..st4 }));
    lemma_scan_concat(st2, tail, ml);
    assert(tail[0] == al && tail[1] == cl && tail[2] == Seq::<char>::empty());
    let t1 = tail.drop_first();
    let t2 = t1.drop_first();
    let t3 = t2.drop_first();
    assert(t1[0] == cl);
    assert(t2[0] == Seq::<char>::empty());
    assert(t3 =~= Seq::<Seq<char>>::empty());
    assert(scan_lines(st2, tail) == scan_lines(st3, t1));
    assert(scan_lines(st3, t1) == scan_lines(st4, t2));
    assert(scan_lines(st4, t2) == scan_lines(st5, t3));
    assert(scan_lines(st2, tail) == st5);
    // the message
    lemma_scan_message(st5, ml);
    assert(no_crlf(Seq::<char>::empty() + r5)) by {
        let z = Seq::<char>::empty() + r5;
        assert forall|i: int| 0 <= i < z.len() - 1 implies !(#[trigger] z[i] == '\r' && z[i + 1]
            == '\n') by {
            if i < msg.len() - 1 {
                assert(z[i] == msg[i] && z[i + 1] == msg[i + 1]);
            } else {
                assert(i == msg.len() - 1);
                assert(z[i] == msg.last());
                assert(!is_ws(msg.last()));
            }
        }
    }
    lemma_rejoin_lines(r5, Seq::empty());
    assert(Seq::<char>::empty() + r5 =~= r5);
    assert(st5.message =~= Seq::<char>::empty());
    lemma_trim_line(msg);
    let fin = scan_lines(st0, char_lines(commit_text(c)));
    assert(fin.message =~= r5);
    assert(parse_commit_text(commit_text(c)) =~= c);
}

/// A commit whose fields fit the format reads back from its payload.
pub proof fn lemma_commit_payload_roundtrip(c: CommitModel)
    requires
        commit_fits(c),
    ensures
        parse_commit_payload(encode_utf8(commit_text(c))) == c,
{
    lemma_commit_text_roundtrip(c);
}


// ---------------------------------------------------------------------------
// Objects
// ---------------------------------------------------------------------------

/// An object whose fields fit the text formats of its kind.
pub open spec fn object_fits(o: ObjectModel) -> bool {
    match o {
        ObjectModel::Blob(_) => true,
        ObjectModel::Tree(es) => entries_fit(es),
        ObjectModel::Commit(c) => commit_fits(c),
    }
}

/// The digits of a decimal rendering are ASCII digits.
proof fn lemma_decimal_digits(n: nat)
    ensures
        decimal(n).len() > 0,
        forall|i: int|
            0 <= i < decimal(n).len() ==> 48 <= (#[trigger] decimal(n)[i]) as u32 <= 57,
    decreases n,
{
    if n < 10 {
        assert(decimal(n)[0] == digit_char(n));
        assert((digit_char(n) as u32) == n + 48);
    } else {
        lemma_decimal_digits(n / 10);
        let d = decimal(n);
        let p = decimal(n / 10);
        assert(d == p.push(digit_char(n % 10)));
        assert((digit_char(n % 10) as u32) == n % 10 + 48);
        assert forall|i: int| 0 <= i < d.len() implies 48 <= (#[trigger] d[i]) as u32 <= 57 by {
            if i < p.len() {
                assert(d[i] == p[i]);
            }
        }
    }
}

/// The first `x` in `a + [x] + b`, where `a` lacks `x`, is at `a.len()`.
proof fn lemma_first_index_after<T>(a: Seq<T>, x: T, b: Seq<T>)
    requires
        lacks(a, x),
    ensures
        first_index(a + seq![x] + b, x) == Some(a.len() as int),
    decreases a.len(),
{
    let s = a + seq![x] + b;
    if a.len() == 0 {
        assert(s[0] == x);
    } else {
        assert(s[0] == a[0]);
        assert(s.drop_first() =~= a.drop_first() + seq![x] + b);
        lemma_first_index_after(a.drop_first(), x, b);
    }
}

/// An object whose fields fit its format reads back from its stored bytes.
pub proof fn lemma_object_roundtrip(o: ObjectModel)
    requires
        object_fits(o),
    ensures
        parse_object(object_bytes(o)) == Ok::<ObjectModel, ObjectError>(o),
{
    let kind = kind_name(o);
    let payload = object_payload(o);
    let dec = decimal(payload.len());
    let body = kind + seq![' '] + dec;
    assert(object_header(o) =~= body + seq!['\0']);
    lemma_decimal_digits(payload.len());
    assert(lit_blob().len() == 4 && lit_tree_kind().len() == 4 && lit_commit().len() == 6);
    assert(no_ws(kind) && lacks(kind, '\0') && kind.len() > 0) by {
        assert forall|i: int| 0 <= i < kind.len() implies !is_ws(#[trigger] kind[i]) && kind[i]
            != '\0' by {
            match o {
                ObjectModel::Blob(_) => {},
                ObjectModel::Tree(_) => {},
                ObjectModel::Commit(_) => {},
            }
        }
    }
    assert(lacks(body, '\0')) by {
        assert forall|i: int| 0 <= i < body.len() implies body[i] != '\0' by {
            if i < kind.len() {
                assert(body[i] == kind[i]);
            } else if i == kind.len() {
                assert(body[i] == ' ');
            } else {
                assert(body[i] == dec[i - kind.len() - 1]);
                assert(48 <= (dec[i - kind.len() - 1]) as u32);
            }
        }
    }
    lemma_encode_concat(body, seq!['\0']);
    lemma_encode_ascii('\0');
    assert(('\0' as u32) as u8 == 0u8);
    let eb = encode_utf8(body);
    let data = object_bytes(o);
    assert(data =~= eb + seq![0u8] + payload);
    lemma_encode_lacks(body, '\0');
    lemma_first_index_after(eb, 0u8, payload);
    assert(data.take(eb.len() as int) =~= eb);
    assert(data.skip(eb.len() + 1int) =~= payload);
    assert(lossy_utf8(eb) == body);
    // the header's words start with the kind
    assert(body =~= kind + (seq![' '] + dec));
    lemma_words_acc_run(kind, seq![' '] + dec, Seq::empty());
    assert(is_ws(' '));
    assert(Seq::<char>::empty() + kind =~= kind);
    let ws = words(body);
    assert(ws[0] == kind);
    assert(lit_tree_kind()[0] != lit_blob()[0]);
    match o {
        ObjectModel::Blob(d) => {
            assert(parse_object(data) == Ok::<ObjectModel, ObjectError>(o));
        },
        ObjectModel::Tree(es) => {
            assert(ws[0] != lit_blob());
            lemma_tree_payload_roundtrip(es);
            assert(parse_object(data) == Ok::<ObjectModel, ObjectError>(o));
        },
        ObjectModel::Commit(c) => {
            assert(ws[0] != lit_blob());
            assert(ws[0] != lit_tree_kind());
            lemma_commit_payload_roundtrip(c);
            assert(parse_object(data) == Ok::<ObjectModel, ObjectError>(o));
        },
    }
}

/// Reading back what was stored: when stored bytes decompress to the bytes
/// of an object that fits its format, they read back as that object.
pub proof fn lemma_store_roundtrip(o: ObjectModel, stored: Seq<u8>)
    requires
        object_fits(o),
        zlib_inflate(stored) == Some(object_bytes(o)),
    ensures
        read_stored(stored) == Ok::<ObjectModel, StoreError>(o),
{
    lemma_object_roundtrip(o);
}

} // verus!
