//! The staging index: its entries and its line format.
use vstd::prelude::*;
use vstd::utf8::*;
use crate::object::{all_utf8, decode_lines, now, FileMode};
use crate::text::{
    append_chars, append_str, byte_lines, chars_eq, chars_of, decode_utf8_strict, encode_chars,
    lines_of_bytes, split_chars, split_on, string_of,
};

verus! {

/// One staged file.
#[derive(Debug, PartialEq, Eq)]
pub struct IndexEntry {
    /// The file's path relative to the work tree.
    pub path: String,
    pub hash: String,
    pub mode: FileMode,
    pub modified_at: std::time::SystemTime,
    pub file_size: u64,
}

impl Clone for IndexEntry {
    fn clone(&self) -> (r: IndexEntry)
        ensures
            r == *self,
    {
        IndexEntry {
            path: self.path.clone(),
            hash: self.hash.clone(),
            mode: self.mode,
            modified_at: self.modified_at,
            file_size: self.file_size,
        }
    }
}

/// The staged files.
#[derive(Debug, Clone, PartialEq, Eq)]
pub struct Index {
    pub entries: Vec<IndexEntry>,
}

/// The recorded part of an index entry; the modification time is not
/// written to the index file.
#[verifier::ext_equal]
pub struct IndexEntryModel {
    pub path: Seq<char>,
    pub hash: Seq<char>,
    pub mode: FileMode,
    pub file_size: u64,
}

impl View for IndexEntry {
    type V = IndexEntryModel;

    open spec fn view(&self) -> IndexEntryModel {
        IndexEntryModel {
            path: self.path@,
            hash: self.hash@,
            mode: self.mode,
            file_size: self.file_size,
        }
    }
}

impl View for Index {
    type V = Seq<IndexEntryModel>;

    open spec fn view(&self) -> Seq<IndexEntryModel> {
        self.entries@.map_values(|e: IndexEntry| e@)
    }
}

/// The mode code of an index line.
pub open spec fn mode_code(m: FileMode) -> Seq<char> {
    match m {
        FileMode::Executable => seq!['1', '0', '0', '7', '5', '5'],
        FileMode::Directory => seq!['0', '4', '0', '0', '0', '0'],
        FileMode::Regular => seq!['1', '0', '0', '6', '4', '4'],
    }
}

fn mode_code_chars(m: FileMode) -> (v: Vec<char>)
    ensures
        v@ == mode_code(m),
{
    match m {
        FileMode::Executable => vec!['1', '0', '0', '7', '5', '5'],
        FileMode::Directory => vec!['0', '4', '0', '0', '0', '0'],
        FileMode::Regular => vec!['1', '0', '0', '6', '4', '4'],
    }
}

/// The mode that a code names: `100755` and `040000` by their codes,
/// anything else is `Regular`.
pub open spec fn mode_of_code(c: Seq<char>) -> FileMode {
    if c == mode_code(FileMode::Executable) {
        FileMode::Executable
    } else if c == mode_code(FileMode::Directory) {
        FileMode::Directory
    } else {
        FileMode::Regular
    }
}

/// An entry's line: `<mode code>\t<hash>\t<path>\n`.
pub open spec fn index_line(e: IndexEntryModel) -> Seq<char> {
    mode_code(e.mode) + seq!['\t'] + e.hash + seq!['\t'] + e.path + seq!['\n']
}

/// The text of an index file.
pub open spec fn index_text(es: Seq<IndexEntryModel>) -> Seq<char> {
    es.map_values(|e: IndexEntryModel| index_line(e)).flatten()
}

/// The entry one line of an index file describes, if it splits at tabs into
/// exactly three parts; the size is unknown (0).
pub open spec fn parse_index_line(line: Seq<char>) -> Option<IndexEntryModel> {
    let parts = split_on(line, '\t');
    if parts.len() == 3 {
        Some(
            IndexEntryModel {
                path: parts[2],
                hash: parts[1],
                mode: mode_of_code(parts[0]),
                file_size: 0,
            },
        )
    } else {
        None
    }
}

/// The entries that lines describe, in order.
pub open spec fn parse_index_lines(ls: Seq<Seq<char>>) -> Seq<IndexEntryModel>
    decreases ls.len(),
{
    if ls.len() == 0 {
        Seq::empty()
    } else {
        let rest = parse_index_lines(ls.drop_last());
        match parse_index_line(ls.last()) {
            Some(e) => rest.push(e),
            None => rest,
        }
    }
}

/// The entries an index file describes, or `None` when a line is not valid
/// UTF-8.
pub open spec fn parse_index(data: Seq<u8>) -> Option<Seq<IndexEntryModel>> {
    let bl = byte_lines(data);
    if all_utf8(bl) {
        Some(parse_index_lines(decode_lines(bl)))
    } else {
        None
    }
}

/// Why an index file could not be read.
#[derive(Debug, Clone, Copy, PartialEq, Eq, Structural)]
pub enum IndexError {
    /// A line is not valid UTF-8.
    InvalidUtf8,
}

impl Index {
    /// An empty index.
    pub fn new() -> (r: Index)
        ensures
            r@ == Seq::<IndexEntryModel>::empty(),
    {
        let r = Index { entries: Vec::new() };
        assert(r@ =~= Seq::<IndexEntryModel>::empty());
        r
    }

    /// The bytes of the index file: one line per entry (see `index_line`).
    pub fn serialize(&self) -> (buf: Vec<u8>)
        ensures
            buf@ == encode_utf8(index_text(self@)),
    {
        let mut text: Vec<char> = Vec::new();
        let mut i: usize = 0;
        let ghost es = self@;
        assert(es.take(0).map_values(|e: IndexEntryModel| index_line(e)) =~= Seq::<
            Seq<char>,
        >::empty());
        while i < self.entries.len()
            invariant
                es == self@,
                i <= self.entries@.len(),
                text@ == es.take(i as int).map_values(|e: IndexEntryModel| index_line(e)).flatten(),
            decreases self.entries@.len() - i,
        {
            let entry = &self.entries[i];
            let mut line = mode_code_chars(entry.mode);
            line.push('\t');
            append_str(&mut line, entry.hash.as_str());
            line.push('\t');
            append_str(&mut line, entry.path.as_str());
            line.push('\n');
            assert(es[i as int] == entry@);
            assert(line@ =~= index_line(entry@));
            append_chars(&mut text, &line);
            let ghost prefix = es.take(i as int).map_values(|e: IndexEntryModel| index_line(e));
            assert(es.take(i + 1).map_values(|e: IndexEntryModel| index_line(e)) =~= prefix.push(
                index_line(es[i as int]),
            ));
            proof {
                prefix.lemma_flatten_push(index_line(es[i as int]));
            }
            i = i + 1;
        }
        assert(es.take(es.len() as int) =~= es);
        encode_chars(&text)
    }

    /// Reads an index file: each line that splits at tabs into exactly three
    /// parts gives an entry with the current time and size 0; other lines
    /// are skipped.  Fails when a line is not valid UTF-8.
    pub fn parse(data: &[u8]) -> (r: Result<Index, IndexError>)
        ensures
            r matches Ok(idx) ==> parse_index(data@) == Some(idx@),
            r is Err ==> parse_index(data@) is None,
    {
        let lines = lines_of_bytes(data);
        let ghost bl = byte_lines(data@);
        assert(lines@.map_values(|p: Vec<u8>| p@) == bl);
        assert(bl.len() == lines@.len());
        let mut entries: Vec<IndexEntry> = Vec::new();
        let mut i: usize = 0;
        assert(decode_lines(bl.take(0)) =~= Seq::<Seq<char>>::empty());
        assert(entries@.map_values(|e: IndexEntry| e@) =~= Seq::<IndexEntryModel>::empty());
        let exec_code = mode_code_chars(FileMode::Executable);
        let dir_code = mode_code_chars(FileMode::Directory);
        while i < lines.len()
            invariant
                bl == byte_lines(data@),
                lines@.map_values(|p: Vec<u8>| p@) == bl,
                bl.len() == lines@.len(),
                i <= lines@.len(),
                exec_code@ == mode_code(FileMode::Executable),
                dir_code@ == mode_code(FileMode::Directory),
                all_utf8(bl.take(i as int)),
                entries@.map_values(|e: IndexEntry| e@) == parse_index_lines(
                    decode_lines(bl.take(i as int)),
                ),
            decreases lines@.len() - i,
        {
            assert(bl[i as int] == lines@[i as int]@);
            let decoded = decode_utf8_strict(lines[i].as_slice());
            match decoded {
                None => {
                    assert(!valid_utf8(bl[i as int]));
                    assert(!all_utf8(bl));
                    return Err(IndexError::InvalidUtf8);
                },
                Some(s) => {
                    let cs = chars_of(s.as_str());
                    let ghost dl = decode_lines(bl.take(i as int));
                    assert(decode_lines(bl.take(i + 1)) =~= dl.push(cs@));
                    assert(decode_lines(bl.take(i + 1)).drop_last() =~= dl);
                    assert(all_utf8(bl.take(i + 1)));
                    let ghost old_entries = entries@.map_values(|e: IndexEntry| e@);
                    let parts = split_chars(&cs, '\t');
                    let ghost ps = parts@.map_values(|p: Vec<char>| p@);
                    assert(ps.len() == parts@.len());
                    if parts.len() == 3 {
                        assert(ps[0] == parts@[0]@ && ps[1] == parts@[1]@ && ps[2] == parts@[2]@);
                        let mode = if chars_eq(&parts[0], &exec_code) {
                            FileMode::Executable
                        } else if chars_eq(&parts[0], &dir_code) {
                            FileMode::Directory
                        } else {
                            FileMode::Regular
                        };
                        let e = IndexEntry {
                            path: string_of(&parts[2]),
                            hash: string_of(&parts[1]),
                            mode,
                            modified_at: now(),
                            file_size: 0,
                        };
                        assert(parse_index_line(cs@) == Some(e@));
                        entries.push(e);
                        assert(entries@.map_values(|e: IndexEntry| e@) =~= old_entries.push(e@));
                    }
                },
            }
            i = i + 1;
        }
        assert(bl.take(bl.len() as int) =~= bl);
        Ok(Index { entries })
    }
}

} // verus!
