//! Character- and byte-level text operations with the exact behaviour of the
//! string methods that the on-disk formats of the repository rely on:
//! line splitting, splitting on a separator, whitespace splitting and
//! trimming, prefix and suffix handling, and decimal and hexadecimal
//! rendering of numbers.
use vstd::prelude::*;

verus! {

// ---------------------------------------------------------------------------
// Character classes
// ---------------------------------------------------------------------------

/// Unicode `White_Space`, the class that `char::is_whitespace` tests.
pub open spec fn is_ws(c: char) -> bool {
    let u = c as u32;
    ||| (0x09 <= u && u <= 0x0d)
    ||| u == 0x20
    ||| u == 0x85
    ||| u == 0xa0
    ||| u == 0x1680
    ||| (0x2000 <= u && u <= 0x200a)
    ||| u == 0x2028
    ||| u == 0x2029
    ||| u == 0x202f
    ||| u == 0x205f
    ||| u == 0x3000
}

/// Whether `c` is Unicode whitespace.
pub fn is_whitespace(c: char) -> (b: bool)
    ensures
        b == is_ws(c),
{
    let u = c as u32;
    (0x09 <= u && u <= 0x0d) || u == 0x20 || u == 0x85 || u == 0xa0 || u == 0x1680 || (0x2000
        <= u && u <= 0x200a) || u == 0x2028 || u == 0x2029 || u == 0x202f || u == 0x205f || u
        == 0x3000
}

/// No element of `s` equals `x`.
pub open spec fn lacks<T>(s: Seq<T>, x: T) -> bool {
    forall|i: int| 0 <= i < s.len() ==> s[i] != x
}

/// No character of `s` is whitespace.
pub open spec fn no_ws(s: Seq<char>) -> bool {
    forall|i: int| 0 <= i < s.len() ==> !is_ws(#[trigger] s[i])
}

// ---------------------------------------------------------------------------
// Splitting on a separator
// ---------------------------------------------------------------------------

/// The pieces of `s` between occurrences of `sep`, where `cur` is the start of
/// the first piece; as `str::split` with a single-character pattern.
pub open spec fn split_acc<T>(s: Seq<T>, sep: T, cur: Seq<T>) -> Seq<Seq<T>>
    decreases s.len(),
{
    if s.len() == 0 {
        seq![cur]
    } else if s[0] == sep {
        seq![cur] + split_acc(s.drop_first(), sep, Seq::empty())
    } else {
        split_acc(s.drop_first(), sep, cur.push(s[0]))
    }
}

/// `s.split(sep)`: always at least one piece.
pub open spec fn split_on<T>(s: Seq<T>, sep: T) -> Seq<Seq<T>> {
    split_acc(s, sep, Seq::empty())
}

/// Splits a character sequence at every occurrence of `sep`.
pub fn split_chars(s: &Vec<char>, sep: char) -> (pieces: Vec<Vec<char>>)
    ensures
        pieces@.map_values(|p: Vec<char>| p@) == split_on(s@, sep),
{
    let mut pieces: Vec<Vec<char>> = Vec::new();
    let mut cur: Vec<char> = Vec::new();
    let mut i: usize = 0;
    assert(s@.skip(0) =~= s@);
    assert(pieces@.map_values(|p: Vec<char>| p@) =~= Seq::<Seq<char>>::empty());
    assert(cur@ =~= Seq::<char>::empty());
    while i < s.len()
        invariant
            i <= s@.len(),
            split_on(s@, sep) == pieces@.map_values(|p: Vec<char>| p@) + split_acc(
                s@.skip(i as int),
                sep,
                cur@,
            ),
        decreases s@.len() - i,
    {
        let c = s[i];
        let ghost rest = s@.skip(i as int);
        assert(rest.drop_first() =~= s@.skip(i + 1));
        if c == sep {
            let ghost old_pieces = pieces@.map_values(|p: Vec<char>| p@);
            let ghost old_cur = cur@;
            pieces.push(cur);
            cur = Vec::new();
            assert(pieces@.map_values(|p: Vec<char>| p@) =~= old_pieces.push(old_cur));
            assert(cur@ =~= Seq::<char>::empty());
        } else {
            cur.push(c);
        }
        i = i + 1;
    }
    let ghost rest = s@.skip(i as int);
    assert(rest.len() == 0);
    let ghost old_pieces = pieces@.map_values(|p: Vec<char>| p@);
    let ghost old_cur = cur@;
    pieces.push(cur);
    assert(pieces@.map_values(|p: Vec<char>| p@) =~= old_pieces.push(old_cur));
    pieces
}


/// Characters of `s` followed by `sep`-separated pieces: splitting `a + [sep] + b`
/// with `a` free of `sep` yields `cur + a` and then the pieces of `b`.
pub proof fn lemma_split_acc_prefix<T>(a: Seq<T>, sep: T, b: Seq<T>, cur: Seq<T>)
    requires
        lacks(a, sep),
    ensures
        split_acc(a + seq![sep] + b, sep, cur) == seq![cur + a] + split_on(b, sep),
    decreases a.len(),
{
    let s = a + seq![sep] + b;
    if a.len() == 0 {
        assert(s[0] == sep);
        assert(s.drop_first() =~= b);
        assert(cur + a =~= cur);
    } else {
        assert(s[0] == a[0]);
        assert(s.drop_first() =~= a.drop_first() + seq![sep] + b);
        lemma_split_acc_prefix(a.drop_first(), sep, b, cur.push(a[0]));
        assert(cur.push(a[0]) + a.drop_first() =~= cur + a);
    }
}

/// Splitting a sequence free of `sep` yields it as the only piece.
pub proof fn lemma_split_acc_whole<T>(a: Seq<T>, sep: T, cur: Seq<T>)
    requires
        lacks(a, sep),
    ensures
        split_acc(a, sep, cur) == seq![cur + a],
    decreases a.len(),
{
    if a.len() == 0 {
        assert(cur + a =~= cur);
    } else {
        lemma_split_acc_whole(a.drop_first(), sep, cur.push(a[0]));
        assert(cur.push(a[0]) + a.drop_first() =~= cur + a);
    }
}

// ---------------------------------------------------------------------------
// Lines
// ---------------------------------------------------------------------------

/// `s` without one trailing `x`, if it ends with one.
pub open spec fn strip_last<T>(s: Seq<T>, x: T) -> Seq<T> {
    if s.len() > 0 && s.last() == x {
        s.drop_last()
    } else {
        s
    }
}

/// Line splitting as `str::lines` and `BufRead::lines` do it: lines end at
/// `nl`; a line ended by `nl` loses one trailing `cr`; a last line without
/// `nl` is kept as it is when it is not empty.  `cur` is the start of the
/// first line.
pub open spec fn lines_acc<T>(s: Seq<T>, nl: T, cr: T, cur: Seq<T>) -> Seq<Seq<T>>
    decreases s.len(),
{
    if s.len() == 0 {
        if cur.len() == 0 {
            Seq::empty()
        } else {
            seq![cur]
        }
    } else if s[0] == nl {
        seq![strip_last(cur, cr)] + lines_acc(s.drop_first(), nl, cr, Seq::empty())
    } else {
        lines_acc(s.drop_first(), nl, cr, cur.push(s[0]))
    }
}

/// `str::lines` on a character sequence.
pub open spec fn char_lines(s: Seq<char>) -> Seq<Seq<char>> {
    lines_acc(s, '\n', '\r', Seq::empty())
}

/// `BufRead::lines` on a byte sequence, before each line is decoded.
pub open spec fn byte_lines(s: Seq<u8>) -> Seq<Seq<u8>> {
    lines_acc(s, 10u8, 13u8, Seq::empty())
}

/// The lines of a character sequence, as `str::lines` gives them.
pub fn lines_of_chars(s: &Vec<char>) -> (lines: Vec<Vec<char>>)
    ensures
        lines@.map_values(|p: Vec<char>| p@) == char_lines(s@),
{
    let mut lines: Vec<Vec<char>> = Vec::new();
    let mut cur: Vec<char> = Vec::new();
    let mut i: usize = 0;
    assert(s@.skip(0) =~= s@);
    assert(lines@.map_values(|p: Vec<char>| p@) =~= Seq::<Seq<char>>::empty());
    assert(cur@ =~= Seq::<char>::empty());
    while i < s.len()
        invariant
            i <= s@.len(),
            char_lines(s@) == lines@.map_values(|p: Vec<char>| p@) + lines_acc(
                s@.skip(i as int),
                '\n',
                '\r',
                cur@,
            ),
        decreases s@.len() - i,
    {
        let c = s[i];
        let ghost rest = s@.skip(i as int);
        assert(rest.drop_first() =~= s@.skip(i + 1));
        if c == '\n' {
            let ghost old_lines = lines@.map_values(|p: Vec<char>| p@);
            let ghost old_cur = cur@;
            if cur.len() > 0 && cur[cur.len() - 1] == '\r' {
                cur.pop();
            }
            assert(cur@ == strip_last(old_cur, '\r'));
            lines.push(cur);
            cur = Vec::new();
            assert(lines@.map_values(|p: Vec<char>| p@) =~= old_lines.push(
                strip_last(old_cur, '\r'),
            ));
            assert(cur@ =~= Seq::<char>::empty());
        } else {
            cur.push(c);
        }
        i = i + 1;
    }
    let ghost rest = s@.skip(i as int);
    assert(rest.len() == 0);
    if cur.len() > 0 {
        let ghost old_lines = lines@.map_values(|p: Vec<char>| p@);
        let ghost old_cur = cur@;
        lines.push(cur);
        assert(lines@.map_values(|p: Vec<char>| p@) =~= old_lines.push(old_cur));
    } else {
        assert(lines@.map_values(|p: Vec<char>| p@) =~= lines@.map_values(|p: Vec<char>| p@)
            + Seq::<Seq<char>>::empty());
    }
    lines
}

/// The lines of a byte sequence, as `BufRead::lines` splits them.
pub fn lines_of_bytes(s: &[u8]) -> (lines: Vec<Vec<u8>>)
    ensures
        lines@.map_values(|p: Vec<u8>| p@) == byte_lines(s@),
{
    let mut lines: Vec<Vec<u8>> = Vec::new();
    let mut cur: Vec<u8> = Vec::new();
    let mut i: usize = 0;
    assert(s@.skip(0) =~= s@);
    assert(lines@.map_values(|p: Vec<u8>| p@) =~= Seq::<Seq<u8>>::empty());
    assert(cur@ =~= Seq::<u8>::empty());
    while i < s.len()
        invariant
            i <= s@.len(),
            byte_lines(s@) == lines@.map_values(|p: Vec<u8>| p@) + lines_acc(
                s@.skip(i as int),
                10u8,
                13u8,
                cur@,
            ),
        decreases s@.len() - i,
    {
        let c = s[i];
        let ghost rest = s@.skip(i as int);
        assert(rest.drop_first() =~= s@.skip(i + 1));
        if c == 10u8 {
            let ghost old_lines = lines@.map_values(|p: Vec<u8>| p@);
            let ghost old_cur = cur@;
            if cur.len() > 0 && cur[cur.len() - 1] == 13u8 {
                cur.pop();
            }
            assert(cur@ == strip_last(old_cur, 13u8));
            lines.push(cur);
            cur = Vec::new();
            assert(lines@.map_values(|p: Vec<u8>| p@) =~= old_lines.push(
                strip_last(old_cur, 13u8),
            ));
            assert(cur@ =~= Seq::<u8>::empty());
        } else {
            cur.push(c);
        }
        i = i + 1;
    }
    let ghost rest = s@.skip(i as int);
    assert(rest.len() == 0);
    if cur.len() > 0 {
        let ghost old_lines = lines@.map_values(|p: Vec<u8>| p@);
        let ghost old_cur = cur@;
        lines.push(cur);
        assert(lines@.map_values(|p: Vec<u8>| p@) =~= old_lines.push(old_cur));
    } else {
        assert(lines@.map_values(|p: Vec<u8>| p@) =~= lines@.map_values(|p: Vec<u8>| p@)
            + Seq::<Seq<u8>>::empty());
    }
    lines
}

/// A line `a` free of `nl`, ended by `nl`, followed by `b`.
pub proof fn lemma_lines_acc_prefix<T>(a: Seq<T>, nl: T, cr: T, b: Seq<T>, cur: Seq<T>)
    requires
        lacks(a, nl),
    ensures
        lines_acc(a + seq![nl] + b, nl, cr, cur) == seq![strip_last(cur + a, cr)] + lines_acc(
            b,
            nl,
            cr,
            Seq::empty(),
        ),
    decreases a.len(),
{
    let s = a + seq![nl] + b;
    if a.len() == 0 {
        assert(s[0] == nl);
        assert(s.drop_first() =~= b);
        assert(cur + a =~= cur);
    } else {
        assert(s[0] == a[0]);
        assert(s.drop_first() =~= a.drop_first() + seq![nl] + b);
        lemma_lines_acc_prefix(a.drop_first(), nl, cr, b, cur.push(a[0]));
        assert(cur.push(a[0]) + a.drop_first() =~= cur + a);
    }
}


// ---------------------------------------------------------------------------
// Whitespace
// ---------------------------------------------------------------------------

/// `cur` as a list of zero or one words.
pub open spec fn word_if_any(cur: Seq<char>) -> Seq<Seq<char>> {
    if cur.len() == 0 {
        Seq::empty()
    } else {
        seq![cur]
    }
}

/// The maximal runs of non-whitespace characters, as `str::split_whitespace`
/// gives them; `cur` is the start of the first run.
pub open spec fn words_acc(s: Seq<char>, cur: Seq<char>) -> Seq<Seq<char>>
    decreases s.len(),
{
    if s.len() == 0 {
        word_if_any(cur)
    } else if is_ws(s[0]) {
        word_if_any(cur) + words_acc(s.drop_first(), Seq::empty())
    } else {
        words_acc(s.drop_first(), cur.push(s[0]))
    }
}

/// `s.split_whitespace()`.
pub open spec fn words(s: Seq<char>) -> Seq<Seq<char>> {
    words_acc(s, Seq::empty())
}

/// The whitespace-separated words of a character sequence.
pub fn split_whitespace(s: &Vec<char>) -> (ws: Vec<Vec<char>>)
    ensures
        ws@.map_values(|p: Vec<char>| p@) == words(s@),
{
    let mut ws: Vec<Vec<char>> = Vec::new();
    let mut cur: Vec<char> = Vec::new();
    let mut i: usize = 0;
    assert(s@.skip(0) =~= s@);
    assert(ws@.map_values(|p: Vec<char>| p@) =~= Seq::<Seq<char>>::empty());
    assert(cur@ =~= Seq::<char>::empty());
    while i < s.len()
        invariant
            i <= s@.len(),
            words(s@) == ws@.map_values(|p: Vec<char>| p@) + words_acc(s@.skip(i as int), cur@),
        decreases s@.len() - i,
    {
        let c = s[i];
        let ghost rest = s@.skip(i as int);
        assert(rest.drop_first() =~= s@.skip(i + 1));
        if is_whitespace(c) {
            let ghost old_ws = ws@.map_values(|p: Vec<char>| p@);
            let ghost old_cur = cur@;
            if cur.len() > 0 {
                ws.push(cur);
                assert(ws@.map_values(|p: Vec<char>| p@) =~= old_ws + word_if_any(old_cur));
            } else {
                assert(ws@.map_values(|p: Vec<char>| p@) =~= old_ws + word_if_any(old_cur));
            }
            cur = Vec::new();
            assert(cur@ =~= Seq::<char>::empty());
        } else {
            cur.push(c);
        }
        i = i + 1;
    }
    let ghost rest = s@.skip(i as int);
    assert(rest.len() == 0);
    let ghost old_ws = ws@.map_values(|p: Vec<char>| p@);
    let ghost old_cur = cur@;
    if cur.len() > 0 {
        ws.push(cur);
    }
    assert(ws@.map_values(|p: Vec<char>| p@) =~= old_ws + word_if_any(old_cur));
    ws
}

/// Words of a whitespace-free run followed by more text.
pub proof fn lemma_words_acc_run(a: Seq<char>, b: Seq<char>, cur: Seq<char>)
    requires
        no_ws(a),
        b.len() == 0 || is_ws(b[0]),
    ensures
        words_acc(a + b, cur) == word_if_any(cur + a) + (if b.len() == 0 {
            Seq::<Seq<char>>::empty()
        } else {
            words_acc(b.drop_first(), Seq::empty())
        }),
    decreases a.len(),
{
    let s = a + b;
    if a.len() == 0 {
        assert(s =~= b);
        assert(cur + a =~= cur);
        if b.len() == 0 {
            assert(word_if_any(cur) + Seq::<Seq<char>>::empty() =~= word_if_any(cur));
        }
    } else {
        assert(s[0] == a[0]);
        assert(!is_ws(a[0]));
        assert(s.drop_first() =~= a.drop_first() + b);
        lemma_words_acc_run(a.drop_first(), b, cur.push(a[0]));
        assert(cur.push(a[0]) + a.drop_first() =~= cur + a);
    }
}

/// `s` without leading whitespace.
pub open spec fn trim_start(s: Seq<char>) -> Seq<char>
    decreases s.len(),
{
    if s.len() > 0 && is_ws(s[0]) {
        trim_start(s.drop_first())
    } else {
        s
    }
}

/// `s` without trailing whitespace.
pub open spec fn trim_end(s: Seq<char>) -> Seq<char>
    decreases s.len(),
{
    if s.len() > 0 && is_ws(s.last()) {
        trim_end(s.drop_last())
    } else {
        s
    }
}

/// `s.trim()`: `s` without leading and trailing whitespace.
pub open spec fn trim(s: Seq<char>) -> Seq<char> {
    trim_end(trim_start(s))
}

/// A character sequence without its leading and trailing whitespace.
pub fn trim_chars(s: &[char]) -> (t: Vec<char>)
    ensures
        t@ == trim(s@),
{
    let n = s.len();
    let mut a: usize = 0;
    assert(s@.skip(0) =~= s@);
    while a < n && is_whitespace(s[a])
        invariant
            a <= n,
            n == s@.len(),
            trim_start(s@) == trim_start(s@.skip(a as int)),
        decreases n - a,
    {
        assert(s@.skip(a as int).drop_first() =~= s@.skip(a + 1));
        a = a + 1;
    }
    let ghost st = s@.skip(a as int);
    assert(trim_start(st) == st);
    let mut b: usize = n;
    assert(s@.subrange(a as int, n as int) =~= st);
    while b > a && is_whitespace(s[b - 1])
        invariant
            a <= b <= n,
            n == s@.len(),
            trim_end(st) == trim_end(s@.subrange(a as int, b as int)),
        decreases b - a,
    {
        assert(s@.subrange(a as int, b as int).drop_last() =~= s@.subrange(a as int, b - 1));
        b = b - 1;
    }
    let mut t: Vec<char> = Vec::new();
    let mut k: usize = a;
    while k < b
        invariant
            a <= k <= b <= n,
            n == s@.len(),
            t@ == s@.subrange(a as int, k as int),
        decreases b - k,
    {
        t.push(s[k]);
        k = k + 1;
        assert(t@ =~= s@.subrange(a as int, k as int));
    }
    t
}

/// `s` with every trailing repetition of the non-empty `pat` removed, as
/// `str::trim_end_matches` does.
pub open spec fn trim_end_matches(s: Seq<char>, pat: Seq<char>) -> Seq<char>
    decreases s.len(),
{
    if pat.len() > 0 && s.len() >= pat.len() && s.skip(s.len() - pat.len()) == pat {
        trim_end_matches(s.take(s.len() - pat.len()), pat)
    } else {
        s
    }
}

/// Whether `s` ends with `pat` at position `end`.
fn ends_with_at(s: &[char], end: usize, pat: &[char]) -> (b: bool)
    requires
        end <= s@.len(),
    ensures
        b == (end >= pat@.len() && s@.take(end as int).skip(end - pat@.len()) == pat@),
{
    if end < pat.len() {
        return false;
    }
    let start = end - pat.len();
    let mut k: usize = 0;
    while k < pat.len()
        invariant
            start + pat@.len() == end <= s@.len(),
            k <= pat@.len(),
            forall|j: int| 0 <= j < k ==> s@[start + j] == pat@[j],
        decreases pat@.len() - k,
    {
        if s[start + k] != pat[k] {
            assert(s@.take(end as int).skip(end - pat@.len())[k as int] != pat@[k as int]);
            return false;
        }
        k = k + 1;
    }
    assert(s@.take(end as int).skip(end - pat@.len()) =~= pat@);
    true
}

/// A character sequence with trailing repetitions of a non-empty pattern
/// removed.
pub fn trim_end_matching(s: &[char], pat: &[char]) -> (t: Vec<char>)
    requires
        pat@.len() > 0,
    ensures
        t@ == trim_end_matches(s@, pat@),
{
    let mut e: usize = s.len();
    assert(s@.take(e as int) =~= s@);
    while ends_with_at(s, e, pat)
        invariant
            e <= s@.len(),
            pat@.len() > 0,
            trim_end_matches(s@, pat@) == trim_end_matches(s@.take(e as int), pat@),
        decreases e,
    {
        assert(s@.take(e as int).take(e - pat@.len()) =~= s@.take(e - pat@.len()));
        e = e - pat.len();
    }
    let mut t: Vec<char> = Vec::new();
    let mut k: usize = 0;
    while k < e
        invariant
            k <= e <= s@.len(),
            t@ == s@.take(k as int),
        decreases e - k,
    {
        t.push(s[k]);
        k = k + 1;
        assert(t@ =~= s@.take(k as int));
    }
    t
}

// ---------------------------------------------------------------------------
// Prefixes and substrings
// ---------------------------------------------------------------------------

/// `p` is a prefix of `s`.
pub open spec fn has_prefix<T>(s: Seq<T>, p: Seq<T>) -> bool {
    p.len() <= s.len() && s.take(p.len() as int) == p
}

/// `s.strip_prefix(p)`.
pub open spec fn strip_prefix<T>(s: Seq<T>, p: Seq<T>) -> Option<Seq<T>> {
    if has_prefix(s, p) {
        Some(s.skip(p.len() as int))
    } else {
        None
    }
}

/// Whether `s` starts with `p`.
pub fn starts_with(s: &[char], p: &[char]) -> (b: bool)
    ensures
        b == has_prefix(s@, p@),
{
    if p.len() > s.len() {
        return false;
    }
    let mut k: usize = 0;
    while k < p.len()
        invariant
            p@.len() <= s@.len(),
            k <= p@.len(),
            forall|j: int| 0 <= j < k ==> s@[j] == p@[j],
        decreases p@.len() - k,
    {
        if s[k] != p[k] {
            assert(s@.take(p@.len() as int)[k as int] != p@[k as int]);
            return false;
        }
        k = k + 1;
    }
    assert(s@.take(p@.len() as int) =~= p@);
    true
}

/// The characters of `s` from index `from` on.
pub fn tail_from(s: &[char], from: usize) -> (t: Vec<char>)
    requires
        from <= s@.len(),
    ensures
        t@ == s@.skip(from as int),
{
    let mut t: Vec<char> = Vec::new();
    let mut k: usize = from;
    while k < s.len()
        invariant
            from <= k <= s@.len(),
            t@ == s@.subrange(from as int, k as int),
        decreases s@.len() - k,
    {
        t.push(s[k]);
        k = k + 1;
        assert(t@ =~= s@.subrange(from as int, k as int));
    }
    assert(t@ =~= s@.skip(from as int));
    t
}

/// The characters of `s` before index `to`.
pub fn head_to(s: &[char], to: usize) -> (t: Vec<char>)
    requires
        to <= s@.len(),
    ensures
        t@ == s@.take(to as int),
{
    let mut t: Vec<char> = Vec::new();
    let mut k: usize = 0;
    while k < to
        invariant
            k <= to <= s@.len(),
            t@ == s@.take(k as int),
        decreases to - k,
    {
        t.push(s[k]);
        k = k + 1;
        assert(t@ =~= s@.take(k as int));
    }
    t
}

/// The prefix-stripped character sequence, if `s` starts with `p`.
pub fn strip_prefix_chars(s: &[char], p: &[char]) -> (r: Option<Vec<char>>)
    ensures
        r matches Some(t) ==> strip_prefix(s@, p@) == Some(t@),
        r is None ==> strip_prefix(s@, p@) is None,
{
    if starts_with(s, p) {
        Some(tail_from(s, p.len()))
    } else {
        None
    }
}

/// `pat` occurs in `s` at index `i`.
pub open spec fn occurs_at(s: Seq<char>, pat: Seq<char>, i: int) -> bool {
    0 <= i && i + pat.len() <= s.len() && s.subrange(i, i + pat.len()) == pat
}

/// The first index at or after `i` where `pat` occurs in `s`.
pub open spec fn find_from(s: Seq<char>, pat: Seq<char>, i: int) -> Option<int>
    decreases s.len() + 1 - i,
{
    if i < 0 || i + pat.len() > s.len() {
        None
    } else if occurs_at(s, pat, i) {
        Some(i)
    } else {
        find_from(s, pat, i + 1)
    }
}

/// `s.split_once(pat)`: the parts before and after the first occurrence.
pub open spec fn split_once(s: Seq<char>, pat: Seq<char>) -> Option<(Seq<char>, Seq<char>)> {
    match find_from(s, pat, 0) {
        Some(i) => Some((s.take(i), s.skip(i + pat.len()))),
        None => None,
    }
}

/// Whether `pat` occurs in `s` at index `i`.
fn occurs_at_exec(s: &[char], pat: &[char], i: usize) -> (b: bool)
    ensures
        b == occurs_at(s@, pat@, i as int),
{
    if i > s.len() || pat.len() > s.len() - i {
        return false;
    }
    let mut k: usize = 0;
    while k < pat.len()
        invariant
            i + pat@.len() <= s@.len(),
            i <= s@.len(),
            s@.len() == s.len(),
            k <= pat@.len(),
            forall|j: int| 0 <= j < k ==> s@[i + j] == pat@[j],
        decreases pat@.len() - k,
    {
        if s[i + k] != pat[k] {
            assert(s@.subrange(i as int, i + pat@.len())[k as int] != pat@[k as int]);
            return false;
        }
        k = k + 1;
    }
    assert(s@.subrange(i as int, i + pat@.len()) =~= pat@);
    true
}

/// Splits `s` around the first occurrence of `pat`.
pub fn split_once_chars(s: &[char], pat: &[char]) -> (r: Option<(Vec<char>, Vec<char>)>)
    ensures
        r matches Some((a, b)) ==> split_once(s@, pat@) == Some((a@, b@)),
        r is None ==> split_once(s@, pat@) is None,
{
    if pat.len() > s.len() {
        return None;
    }
    if pat.len() == 0 {
        assert(s@.subrange(0, 0) =~= pat@);
        assert(occurs_at(s@, pat@, 0));
        assert(s@.take(0) =~= Seq::<char>::empty());
        return Some((Vec::new(), tail_from(s, 0)));
    }
    let last = s.len() - pat.len();
    let mut i: usize = 0;
    while i <= last
        invariant
            last + pat@.len() == s@.len(),
            s@.len() == s.len(),
            pat@.len() == pat.len(),
            pat@.len() > 0,
            i <= last + 1,
            find_from(s@, pat@, 0) == find_from(s@, pat@, i as int),
        decreases last + 1 - i,
    {
        if occurs_at_exec(s, pat, i) {
            return Some((head_to(s, i), tail_from(s, i + pat.len())));
        }
        i = i + 1;
    }
    None
}

/// `pat` occurs somewhere in `s`.
pub open spec fn contains_seq(s: Seq<char>, pat: Seq<char>) -> bool {
    exists|i: int| occurs_at(s, pat, i)
}

/// With no occurrence of `pat` before index `i`, the first one from `i` on is
/// the first one at all.
pub proof fn lemma_find_from_none_before(s: Seq<char>, pat: Seq<char>, i: int, j: int)
    requires
        0 <= j <= i,
        forall|k: int| j <= k < i ==> !occurs_at(s, pat, k),
    ensures
        find_from(s, pat, j) == find_from(s, pat, i),
    decreases i - j,
{
    if j < i {
        if j + pat.len() > s.len() {
            assert(find_from(s, pat, i) is None) by {
                lemma_find_from_past_end(s, pat, i);
            }
        } else {
            lemma_find_from_none_before(s, pat, i, j + 1);
        }
    }
}

/// Past the last place where `pat` fits, there is no occurrence.
pub proof fn lemma_find_from_past_end(s: Seq<char>, pat: Seq<char>, i: int)
    requires
        i + pat.len() > s.len(),
    ensures
        find_from(s, pat, i) is None,
{
}

// ---------------------------------------------------------------------------
// Numbers
// ---------------------------------------------------------------------------

/// The decimal digit for `d < 10`.
pub open spec fn digit_char(d: nat) -> char {
    ((d + 48) as u32) as char
}

/// The decimal representation of `n`, as `format!("{}", n)` writes it.
pub open spec fn decimal(n: nat) -> Seq<char>
    decreases n,
{
    if n < 10 {
        seq![digit_char(n)]
    } else {
        decimal(n / 10).push(digit_char(n % 10))
    }
}

/// The decimal digits of `n`.
pub fn decimal_chars(n: usize) -> (v: Vec<char>)
    ensures
        v@ == decimal(n as nat),
{
    let mut m: usize = n;
    let mut acc: Vec<char> = Vec::new();
    assert(decimal(n as nat) =~= decimal(m as nat) + acc@);
    while m >= 10
        invariant
            decimal(n as nat) == decimal(m as nat) + acc@,
        decreases m,
    {
        let d = m % 10;
        let c = ((d + 48) as u8) as char;
        assert(c == digit_char(d as nat));
        let ghost old_acc = acc@;
        acc.insert(0, c);
        assert(decimal(m as nat) == decimal((m / 10) as nat).push(digit_char((m % 10) as nat)));
        assert(decimal(m as nat) + old_acc =~= decimal((m / 10) as nat) + acc@);
        m = m / 10;
    }
    let c = ((m + 48) as u8) as char;
    assert(c == digit_char(m as nat));
    acc.insert(0, c);
    assert(decimal(m as nat) =~= seq![c]);
    assert(acc@ =~= decimal(m as nat) + acc@.drop_first());
    acc
}

/// The lower-case hexadecimal digit for `d < 16`.
pub open spec fn hex_digit(d: u8) -> char {
    if d < 10 {
        ((d + 48) as u32) as char
    } else {
        ((d + 87) as u32) as char
    }
}

/// Two lower-case hexadecimal digits per byte, high nibble first, as
/// `format!("{:x}", ..)` writes a byte array.
pub open spec fn hex_lower(bytes: Seq<u8>) -> Seq<char>
    decreases bytes.len(),
{
    if bytes.len() == 0 {
        Seq::empty()
    } else {
        hex_lower(bytes.drop_last()) + seq![
            hex_digit(bytes.last() / 16),
            hex_digit(bytes.last() % 16),
        ]
    }
}

fn hex_digit_exec(d: u8) -> (c: char)
    requires
        d < 16,
    ensures
        c == hex_digit(d),
{
    if d < 10 {
        ((d + 48) as u8) as char
    } else {
        ((d + 87) as u8) as char
    }
}

/// The lower-case hexadecimal rendering of a byte sequence.
pub fn hex_string(bytes: &[u8]) -> (s: String)
    ensures
        s@ == hex_lower(bytes@),
{
    let mut v: Vec<char> = Vec::new();
    let mut i: usize = 0;
    assert(bytes@.take(0) =~= Seq::<u8>::empty());
    while i < bytes.len()
        invariant
            i <= bytes@.len(),
            v@ == hex_lower(bytes@.take(i as int)),
        decreases bytes@.len() - i,
    {
        let b = bytes[i];
        let hi = hex_digit_exec(b / 16);
        let lo = hex_digit_exec(b % 16);
        v.push(hi);
        v.push(lo);
        assert(bytes@.take(i + 1).drop_last() =~= bytes@.take(i as int));
        i = i + 1;
        assert(v@ =~= hex_lower(bytes@.take(i as int)));
    }
    assert(bytes@.take(bytes@.len() as int) =~= bytes@);
    string_of(&v)
}


// ---------------------------------------------------------------------------
// Strings, characters and bytes
// ---------------------------------------------------------------------------

/// Appends one character to a string.
///
/// Trusted: calls `String::push`, which std documents as appending the given
/// character to the end of the string.
#[verifier::external_body]
pub(crate) fn string_push(s: &mut String, c: char)
    ensures
        final(s)@ == old(s)@.push(c),
{
    s.push(c)
}

/// The characters of a string slice, in order.
pub fn chars_of(s: &str) -> (v: Vec<char>)
    ensures
        v@ == s@,
{
    let mut v: Vec<char> = Vec::new();
    for c in it: s.chars()
        invariant
            v@ == it.seq().take(it.index() as int),
            it.seq() == s@,
    {
        v.push(c);
    }
    v
}

/// A string holding the given characters.
pub fn string_of(v: &[char]) -> (s: String)
    ensures
        s@ == v@,
{
    let mut s = String::new();
    let mut i: usize = 0;
    while i < v.len()
        invariant
            i <= v@.len(),
            s@ == v@.take(i as int),
        decreases v@.len() - i,
    {
        string_push(&mut s, v[i]);
        i = i + 1;
        assert(s@ =~= v@.take(i as int));
    }
    assert(v@.take(v@.len() as int) =~= v@);
    s
}

/// Decodes UTF-8, failing on any invalid sequence.
///
/// Trusted: calls `std::str::from_utf8`, which std documents as succeeding
/// exactly on valid UTF-8 and then giving the encoded characters.
#[verifier::external_body]
pub(crate) fn decode_utf8_strict(bytes: &[u8]) -> (r: Option<String>)
    ensures
        r is Some <==> vstd::utf8::valid_utf8(bytes@),
        r matches Some(s) ==> s@ == vstd::utf8::decode_utf8(bytes@),
{
    match std::str::from_utf8(bytes) {
        Ok(s) => Some(s.to_string()),
        Err(_) => None,
    }
}

/// What `String::from_utf8_lossy` gives for a byte sequence that is not valid
/// UTF-8: its decoding with each invalid sequence replaced by U+FFFD.
pub uninterp spec fn utf8_lossy(bytes: Seq<u8>) -> Seq<char>;

/// Lossy UTF-8 decoding: the plain decoding of valid UTF-8, otherwise the
/// decoding with replacement characters.
pub open spec fn lossy_utf8(bytes: Seq<u8>) -> Seq<char> {
    if vstd::utf8::valid_utf8(bytes) {
        vstd::utf8::decode_utf8(bytes)
    } else {
        utf8_lossy(bytes)
    }
}

/// Decodes UTF-8, replacing invalid sequences.
///
/// Trusted: calls `String::from_utf8_lossy`.  std documents that valid UTF-8
/// is decoded as it is; what it gives for invalid input is named by
/// `utf8_lossy`.
#[verifier::external_body]
pub(crate) fn decode_utf8_lossy(bytes: &[u8]) -> (s: String)
    ensures
        s@ == lossy_utf8(bytes@),
        !vstd::utf8::valid_utf8(bytes@) ==> s@ == utf8_lossy(bytes@),
{
    String::from_utf8_lossy(bytes).into_owned()
}

/// The UTF-8 encoding of a string.
pub fn bytes_of(s: &str) -> (b: Vec<u8>)
    ensures
        b@ == vstd::utf8::encode_utf8(s@),
{
    let bs = s.as_bytes();
    let mut v: Vec<u8> = Vec::new();
    let mut i: usize = 0;
    while i < bs.len()
        invariant
            i <= bs@.len(),
            bs@ == vstd::utf8::encode_utf8(s@),
            v@ == bs@.take(i as int),
        decreases bs@.len() - i,
    {
        v.push(bs[i]);
        i = i + 1;
        assert(v@ =~= bs@.take(i as int));
    }
    assert(bs@.take(bs@.len() as int) =~= bs@);
    v
}

/// The UTF-8 encoding of a character sequence.
pub fn encode_chars(v: &[char]) -> (b: Vec<u8>)
    ensures
        b@ == vstd::utf8::encode_utf8(v@),
{
    let s = string_of(v);
    bytes_of(s.as_str())
}

/// Appends the characters of `t` to `v`.
pub fn append_chars(v: &mut Vec<char>, t: &[char])
    ensures
        final(v)@ == old(v)@ + t@,
{
    let mut i: usize = 0;
    while i < t.len()
        invariant
            i <= t@.len(),
            v@ == old(v)@ + t@.take(i as int),
        decreases t@.len() - i,
    {
        v.push(t[i]);
        i = i + 1;
        assert(v@ =~= old(v)@ + t@.take(i as int));
    }
    assert(t@.take(t@.len() as int) =~= t@);
}

/// Appends the characters of a string slice to `v`.
pub fn append_str(v: &mut Vec<char>, t: &str)
    ensures
        final(v)@ == old(v)@ + t@,
{
    let cs = chars_of(t);
    append_chars(v, &cs);
}

/// Appends bytes to `v`.
pub fn append_bytes(v: &mut Vec<u8>, t: &[u8])
    ensures
        final(v)@ == old(v)@ + t@,
{
    let mut i: usize = 0;
    while i < t.len()
        invariant
            i <= t@.len(),
            v@ == old(v)@ + t@.take(i as int),
        decreases t@.len() - i,
    {
        v.push(t[i]);
        i = i + 1;
        assert(v@ =~= old(v)@ + t@.take(i as int));
    }
    assert(t@.take(t@.len() as int) =~= t@);
}

/// Whether two character sequences are equal.
pub fn chars_eq(a: &[char], b: &[char]) -> (r: bool)
    ensures
        r == (a@ == b@),
{
    if a.len() != b.len() {
        return false;
    }
    let mut i: usize = 0;
    while i < a.len()
        invariant
            a@.len() == b@.len(),
            i <= a@.len(),
            forall|j: int| 0 <= j < i ==> a@[j] == b@[j],
        decreases a@.len() - i,
    {
        if a[i] != b[i] {
            return false;
        }
        i = i + 1;
    }
    assert(a@ =~= b@);
    true
}

/// Whether two strings are equal.
pub fn str_eq(a: &str, b: &str) -> (r: bool)
    ensures
        r == (a@ == b@),
{
    let x = chars_of(a);
    let y = chars_of(b);
    chars_eq(&x, &y)
}

} // verus!
