//! What reading the index file gives back of writing it.
use vstd::prelude::*;
use vstd::utf8::*;
use crate::index::{
    index_line, index_text, mode_code, mode_of_code, parse_index, parse_index_line,
    parse_index_lines, IndexEntryModel,
};
use crate::object::{all_utf8, decode_lines, FileMode};
use crate::object_laws::{lemma_encoded_lines, line_value_fits};
use crate::text::{byte_lines, lacks, lemma_split_acc_prefix, lemma_split_acc_whole, split_on};

verus! {

broadcast use {encode_utf8_valid_utf8, encode_utf8_decode_utf8};

/// An index entry that its line reads back as: no tab or line feed in hash
/// or path, and no carriage return at the end of the path.
pub open spec fn index_entry_fits(e: IndexEntryModel) -> bool {
    &&& lacks(e.hash, '\t')
    &&& lacks(e.hash, '\n')
    &&& lacks(e.path, '\t')
    &&& line_value_fits(e.path)
}

/// The entry as the index file records it: with size 0.
pub open spec fn as_recorded(e: IndexEntryModel) -> IndexEntryModel {
    IndexEntryModel { file_size: 0, ..e }
}

/// The text of an entry's line before its line feed.
pub open spec fn index_body(e: IndexEntryModel) -> Seq<char> {
    mode_code(e.mode) + seq!['\t'] + e.hash + seq!['\t'] + e.path
}

proof fn lemma_index_body(e: IndexEntryModel)
    requires
        index_entry_fits(e),
    ensures
        line_value_fits(index_body(e)),
        index_line(e) == index_body(e) + seq!['\n'],
        parse_index_line(index_body(e)) == Some(as_recorded(e)),
{
    let c = mode_code(e.mode);
    let b = index_body(e);
    assert(c.len() == 6);
    assert(lacks(c, '\t') && lacks(c, '\n')) by {
        assert forall|i: int| 0 <= i < c.len() implies c[i] != '\t' && c[i] != '\n' by {
            match e.mode {
                FileMode::Regular => {},
                FileMode::Executable => {},
                FileMode::Directory => {},
            }
        }
    }
    assert forall|i: int| 0 <= i < b.len() implies b[i] != '\n' by {
        if i < 6 {
            assert(b[i] == c[i]);
        } else if i == 6 {
        } else if i < 7 + e.hash.len() {
            assert(b[i] == e.hash[i - 7]);
        } else if i == 7 + e.hash.len() {
        } else {
            assert(b[i] == e.path[i - 8 - e.hash.len()]);
        }
    }
    if e.path.len() > 0 {
        assert(b.last() == e.path.last());
    } else {
        assert(b.last() == '\t');
    }
    assert(index_line(e) =~= b + seq!['\n']);
    // the parts between tabs
    assert(b =~= c + seq!['\t'] + (e.hash + seq!['\t'] + e.path));
    lemma_split_acc_prefix(c, '\t', e.hash + seq!['\t'] + e.path, Seq::empty());
    lemma_split_acc_prefix(e.hash, '\t', e.path, Seq::empty());
    lemma_split_acc_whole(e.path, '\t', Seq::empty());
    assert(Seq::<char>::empty() + c =~= c);
    assert(Seq::<char>::empty() + e.hash =~= e.hash);
    assert(Seq::<char>::empty() + e.path =~= e.path);
    let parts = split_on(b, '\t');
    assert(parts =~= seq![c, e.hash, e.path]);
    assert(mode_code(FileMode::Executable)[3] == '7');
    assert(mode_code(FileMode::Regular)[3] == '6');
    assert(mode_code(FileMode::Directory)[0] == '0');
    assert(mode_code(FileMode::Executable)[0] == '1');
    assert(mode_of_code(c) == e.mode);
    assert(parse_index_line(b).unwrap() =~= as_recorded(e));
}

proof fn lemma_parse_index_bodies(es: Seq<IndexEntryModel>)
    requires
        forall|i: int| 0 <= i < es.len() ==> index_entry_fits(#[trigger] es[i]),
    ensures
        parse_index_lines(es.map_values(|e: IndexEntryModel| index_body(e))) == es.map_values(
            |e: IndexEntryModel| as_recorded(e),
        ),
    decreases es.len(),
{
    let ls = es.map_values(|e: IndexEntryModel| index_body(e));
    if es.len() == 0 {
        assert(parse_index_lines(ls) =~= es.map_values(|e: IndexEntryModel| as_recorded(e)));
    } else {
        let init = es.drop_last();
        assert forall|i: int| 0 <= i < init.len() implies index_entry_fits(#[trigger] init[i]) by {
            assert(init[i] == es[i]);
        }
        lemma_parse_index_bodies(init);
        assert(ls.drop_last() =~= init.map_values(|e: IndexEntryModel| index_body(e)));
        assert(index_entry_fits(es[es.len() - 1]));
        lemma_index_body(es.last());
        assert(es.map_values(|e: IndexEntryModel| as_recorded(e)) =~= init.map_values(
            |e: IndexEntryModel| as_recorded(e),
        ).push(as_recorded(es.last())));
    }
}

/// Reading the index file back gives the entries that were written, each
/// with size 0, when no hash or path holds a tab or line feed and no path
/// ends with a carriage return.
pub proof fn lemma_index_roundtrip(es: Seq<IndexEntryModel>)
    requires
        forall|i: int| 0 <= i < es.len() ==> index_entry_fits(#[trigger] es[i]),
    ensures
        parse_index(encode_utf8(index_text(es))) == Some(
            es.map_values(|e: IndexEntryModel| as_recorded(e)),
        ),
{
    let bodies = es.map_values(|e: IndexEntryModel| index_body(e));
    assert forall|i: int| 0 <= i < bodies.len() implies line_value_fits(#[trigger] bodies[i]) by {
        assert(index_entry_fits(es[i]));
        lemma_index_body(es[i]);
    }
    let joined = bodies.map_values(|l: Seq<char>| l + seq!['\n']);
    let lines = es.map_values(|e: IndexEntryModel| index_line(e));
    assert forall|i: int| 0 <= i < es.len() implies #[trigger] joined[i] == lines[i] by {
        assert(index_entry_fits(es[i]));
        lemma_index_body(es[i]);
    }
    assert(joined =~= lines);
    lemma_encoded_lines(bodies);
    let bl = byte_lines(encode_utf8(index_text(es)));
    assert(bl == bodies.map_values(|l: Seq<char>| encode_utf8(l)));
    assert(all_utf8(bl));
    assert(decode_lines(bl) =~= bodies);
    lemma_parse_index_bodies(es);
}

} // verus!
