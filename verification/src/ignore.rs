//! Ignore rules: the patterns of files that the repository does not track,
//! matched with the `globset` crate.
use vstd::prelude::*;
use crate::text::{
    append_chars, char_lines, chars_of, lines_of_chars, string_of, trim, trim_chars,
};
use globset::{Glob, GlobSet, GlobSetBuilder};

verus! {

/// `globset::Glob`, a parsed pattern, held opaquely.
#[verifier::external_type_specification]
#[verifier::external_body]
pub struct ExGlob(globset::Glob);

/// `globset::GlobSet`, a compiled set of patterns, held opaquely.
#[verifier::external_type_specification]
#[verifier::external_body]
pub struct ExGlobSet(globset::GlobSet);

/// `globset::GlobSetBuilder`, the patterns added so far, held opaquely.
#[verifier::external_type_specification]
#[verifier::external_body]
pub struct ExGlobSetBuilder(globset::GlobSetBuilder);

/// Whether `Glob::new` accepts a pattern.
pub uninterp spec fn glob_accepts(pattern: Seq<char>) -> bool;

/// The pattern text a glob holds (`Glob::glob` gives it).
pub uninterp spec fn glob_text(g: Glob) -> Seq<char>;

/// The patterns of the globs added to a builder, in order.
pub uninterp spec fn builder_patterns(b: GlobSetBuilder) -> Seq<Seq<char>>;

/// The patterns of the globs a set was built from.
pub uninterp spec fn set_patterns(s: GlobSet) -> Seq<Seq<char>>;

/// Whether `GlobSetBuilder::build` compiles globs with these patterns (in
/// this order) into a set.
pub uninterp spec fn globs_build(patterns: Seq<Seq<char>>) -> bool;

/// Whether a glob has the default options (those `Glob::new` gives:
/// case-sensitive, `*` also matching `/`, and so on).
pub uninterp spec fn glob_default(g: Glob) -> bool;

/// Whether every glob added to a builder has the default options.
pub uninterp spec fn builder_default(b: GlobSetBuilder) -> bool;

/// Whether every glob a set was built from has the default options.
pub uninterp spec fn set_default(s: GlobSet) -> bool;

/// Whether a glob pattern, with default options, matches a path.
pub uninterp spec fn glob_matches(pattern: Seq<char>, path: Seq<char>) -> bool;

/// Parses a glob pattern.
///
/// Trusted: calls `Glob::new`.  Whether it succeeds depends on the pattern
/// alone and is named by `glob_accepts`; a parsed glob holds its pattern
/// text, as `Glob::glob` returns it, and the default options (`Glob::new`
/// builds through `GlobBuilder::new`, whose options are the defaults).
#[verifier::external_body]
fn glob_new(pattern: &str) -> (r: Option<Glob>)
    ensures
        r is Some <==> glob_accepts(pattern@),
        r matches Some(g) ==> glob_text(g) == pattern@ && glob_default(g),
{
    Glob::new(pattern).ok()
}

/// An empty builder.
///
/// Trusted: calls `GlobSetBuilder::new`, which starts with no globs (so
/// none with other than the default options).
#[verifier::external_body]
fn builder_new() -> (b: GlobSetBuilder)
    ensures
        builder_patterns(b) == Seq::<Seq<char>>::empty(),
        builder_default(b),
{
    GlobSetBuilder::new()
}

/// Adds a glob to a builder.
///
/// Trusted: calls `GlobSetBuilder::add`, which appends the glob, with its
/// options, to the builder's list.
#[verifier::external_body]
fn builder_add(b: &mut GlobSetBuilder, g: Glob)
    ensures
        builder_patterns(*final(b)) == builder_patterns(*old(b)).push(glob_text(g)),
        builder_default(*final(b)) == (builder_default(*old(b)) && glob_default(g)),
{
    b.add(g);
}

/// Builds a set from the globs added so far.
///
/// Trusted: calls `GlobSetBuilder::build`.  Whether building succeeds (the
/// regular expressions of the globs compile) depends on the globs alone and
/// is named by `globs_build`; a built set is compiled from the builder's
/// globs, with their options.
#[verifier::external_body]
fn builder_build(b: &GlobSetBuilder) -> (r: Option<GlobSet>)
    ensures
        r is Some <==> globs_build(builder_patterns(*b)),
        r matches Some(s) ==> set_patterns(s) == builder_patterns(*b) && set_default(s)
            == builder_default(*b),
{
    b.build().ok()
}

/// A set of no globs.
///
/// Trusted: calls `GlobSet::empty`, a set of no globs, which matches
/// nothing.
#[verifier::external_body]
fn set_empty() -> (s: GlobSet)
    ensures
        set_patterns(s) == Seq::<Seq<char>>::empty(),
        set_default(s),
{
    GlobSet::empty()
}

/// Some pattern of `patterns` matches `path`.
pub open spec fn any_matches(patterns: Seq<Seq<char>>, path: Seq<char>) -> bool {
    exists|i: int| 0 <= i < patterns.len() && glob_matches(#[trigger] patterns[i], path)
}

/// Whether any glob of a set matches a path.
///
/// Trusted: calls `GlobSet::is_match`, documented as true exactly when some
/// glob of the set matches the path.  What one glob with the default
/// options matches is named by `glob_matches`; so the clause is stated for
/// sets whose globs all have the default options, and nothing is stated of
/// other sets.
#[verifier::external_body]
fn set_is_match(s: &GlobSet, path: &str) -> (r: bool)
    ensures
        set_default(*s) ==> r == any_matches(set_patterns(*s), path@),
        set_default(*s) ==> (r <==> (exists|i: int|
            0 <= i < set_patterns(*s).len() && glob_matches(#[trigger] set_patterns(*s)[i], path@))),
{
    s.is_match(path)
}

/// The patterns the built-in rules start from.
pub open spec fn builtin_rules() -> Seq<Seq<char>> {
    seq![
        seq!['.', 'b', 'r', 'a', 's', 's', '_', 'c', 'o', 'n', 't', 'r', 'o', 'l', '/', '*', '*'],
        seq![
            '*', '*', '/', '.', 'b', 'r', 'a', 's', 's', '_', 'c', 'o', 'n', 't', 'r', 'o', 'l', '/',
            '*', '*',
        ],
        seq![
            '.', 'b', 'r', 'a', 's', 's', '_', 'c', 'o', 'n', 't', 'r', 'o', 'l', '_', 'i', 'g',
            'n', 'o', 'r', 'e',
        ],
    ]
}

/// A rule: the text written in the ignore file and the glob it becomes.
pub struct RuleModel {
    pub raw: Seq<char>,
    pub glob: Seq<char>,
}

/// `s` without its leading `/`s.
pub open spec fn trim_leading_slashes(s: Seq<char>) -> Seq<char>
    decreases s.len(),
{
    if s.len() > 0 && s[0] == '/' {
        trim_leading_slashes(s.drop_first())
    } else {
        s
    }
}

/// The glob a rule's text becomes: a directory rule (ending with `/`) covers
/// everything below it; a rule without `/` matches at any depth; any other
/// rule is anchored at the work tree, without leading `/`s.
pub open spec fn normalize_rule(t: Seq<char>) -> Seq<char> {
    if t.len() > 0 && t.last() == '/' {
        t + seq!['*', '*']
    } else if !(exists|i: int| 0 <= i < t.len() && t[i] == '/') {
        seq!['*', '*', '/'] + t
    } else {
        trim_leading_slashes(t)
    }
}

/// How a rule's text becomes a glob: a rule ending with `/` gets `**`
/// appended; a rule without `/` gets `**/` in front; any other rule becomes
/// its own text with its leading `/`s taken off and nothing else changed,
/// so it matches from the work tree's root only.
pub proof fn lemma_normalize_rule(t: Seq<char>)
    ensures
        t.len() > 0 && t.last() == '/' ==> normalize_rule(t) == t + seq!['*', '*'],
        (forall|i: int| 0 <= i < t.len() ==> t[i] != '/') ==> normalize_rule(t) == seq!['*', '*', '/']
            + t,
        (exists|i: int| 0 <= i < t.len() && t[i] == '/') && !(t.len() > 0 && t.last() == '/') ==> {
            exists|k: int|
                0 <= k <= t.len() && normalize_rule(t) == t.skip(k) && (forall|j: int|
                    0 <= j < k ==> t[j] == '/') && (k == t.len() || t[k] != '/')
        },
{
    if (exists|i: int| 0 <= i < t.len() && t[i] == '/') && !(t.len() > 0 && t.last() == '/') {
        let k = lemma_trim_leading_slashes(t);
        assert(normalize_rule(t) == t.skip(k));
    }
}

/// Taking off leading `/`s leaves a suffix that starts with another
/// character: the one after the first `k` characters, all `/`.
proof fn lemma_trim_leading_slashes(t: Seq<char>) -> (k: int)
    ensures
        0 <= k <= t.len(),
        trim_leading_slashes(t) == t.skip(k),
        forall|j: int| 0 <= j < k ==> t[j] == '/',
        k == t.len() || t[k] != '/',
    decreases t.len(),
{
    if t.len() > 0 && t[0] == '/' {
        let rest = t.drop_first();
        let k = lemma_trim_leading_slashes(rest);
        assert(rest.skip(k) =~= t.skip(k + 1));
        assert forall|j: int| 0 <= j < k + 1 implies t[j] == '/' by {
            if j > 0 {
                assert(t[j] == rest[j - 1]);
            }
        }
        if k + 1 < t.len() {
            assert(t[k + 1] == rest[k]);
        }
        k + 1
    } else {
        assert(t.skip(0) =~= t);
        0
    }
}

/// The rule a line of the ignore file states, if any: trimmed, empty lines
/// and lines starting with `#` state none.
pub open spec fn rule_of_line(line: Seq<char>) -> Option<RuleModel> {
    let t = trim(line);
    if t.len() == 0 || t[0] == '#' {
        None
    } else {
        Some(RuleModel { raw: t, glob: normalize_rule(t) })
    }
}

/// The rules stated by lines, in order.
pub open spec fn rules_of_lines(ls: Seq<Seq<char>>) -> Seq<RuleModel>
    decreases ls.len(),
{
    if ls.len() == 0 {
        Seq::empty()
    } else {
        let rest = rules_of_lines(ls.drop_last());
        match rule_of_line(ls.last()) {
            Some(r) => rest.push(r),
            None => rest,
        }
    }
}

/// The rules whose glob `Glob::new` accepts.
pub open spec fn accepted(rs: Seq<RuleModel>) -> Seq<RuleModel> {
    rs.filter(|r: RuleModel| glob_accepts(r.glob))
}

/// All rules: the built-in ones, then those of the ignore file's text.
pub open spec fn all_rules(content: Option<Seq<char>>) -> Seq<RuleModel> {
    builtin_rules().map_values(|p: Seq<char>| RuleModel { raw: p, glob: p }) + match content {
        Some(c) => rules_of_lines(char_lines(c)),
        None => Seq::empty(),
    }
}

/// The patterns of a glob set built from `ps`: all of them when they build,
/// none otherwise.
pub open spec fn built_or_empty(ps: Seq<Seq<char>>) -> Seq<Seq<char>> {
    if globs_build(ps) {
        ps
    } else {
        Seq::empty()
    }
}

/// The ignore rules of a repository.
#[derive(Debug)]
pub struct BrassIgnore {
    /// The rules as written.
    pub raw_patterns: Vec<String>,
    /// The globs of the rules; those the library builds have the default
    /// options.
    pub glob_set: GlobSet,
}

/// The characters of an optional text.
pub open spec fn opt_chars(o: Option<&str>) -> Option<Seq<char>> {
    match o {
        Some(s) => Some(s@),
        None => None,
    }
}

fn normalize_rule_exec(t: &Vec<char>) -> (g: Vec<char>)
    ensures
        g@ == normalize_rule(t@),
{
    if t.len() > 0 && t[t.len() - 1] == '/' {
        let mut g = t.clone();
        assert(g@ == t@);
        g.push('*');
        g.push('*');
        assert(g@ =~= t@ + seq!['*', '*']);
        return g;
    }
    let mut has_slash = false;
    let mut i: usize = 0;
    while i < t.len()
        invariant
            i <= t@.len(),
            has_slash == exists|j: int| 0 <= j < i && t@[j] == '/',
        decreases t@.len() - i,
    {
        if t[i] == '/' {
            has_slash = true;
        }
        i = i + 1;
    }
    if !has_slash {
        let mut g = vec!['*', '*', '/'];
        append_chars(&mut g, t);
        assert(g@ =~= seq!['*', '*', '/'] + t@);
        return g;
    }
    let mut k: usize = 0;
    assert(t@.skip(0) =~= t@);
    while k < t.len() && t[k] == '/'
        invariant
            k <= t@.len(),
            trim_leading_slashes(t@) == trim_leading_slashes(t@.skip(k as int)),
        decreases t@.len() - k,
    {
        assert(t@.skip(k as int).drop_first() =~= t@.skip(k + 1));
        k = k + 1;
    }
    crate::text::tail_from(t, k)
}

/// Compiles rules in order: each rule whose glob parses is kept.
fn compile_rules(rules: &Vec<(Vec<char>, Vec<char>)>) -> (r: BrassIgnore)
    ensures
        ({
            let rs = rules@.map_values(|e: (Vec<char>, Vec<char>)| RuleModel { raw: e.0@, glob: e.1@ });
            &&& r.raw_patterns@.map_values(|s: String| s@) == accepted(rs).map_values(
                |m: RuleModel| m.raw,
            )
            &&& set_patterns(r.glob_set) == built_or_empty(accepted(rs).map_values(|m: RuleModel| m.glob))
            &&& set_default(r.glob_set)
        }),
{
    let ghost rs = rules@.map_values(|e: (Vec<char>, Vec<char>)| RuleModel { raw: e.0@, glob: e.1@ });
    let mut builder = builder_new();
    let mut raw: Vec<String> = Vec::new();
    let mut i: usize = 0;
    assert(rs.take(0) =~= Seq::<RuleModel>::empty());
    assert(accepted(rs.take(0)) =~= Seq::<RuleModel>::empty());
    assert(raw@.map_values(|s: String| s@) =~= Seq::<Seq<char>>::empty());
    while i < rules.len()
        invariant
            rs == rules@.map_values(|e: (Vec<char>, Vec<char>)| RuleModel { raw: e.0@, glob: e.1@ }),
            i <= rules@.len(),
            raw@.map_values(|s: String| s@) == accepted(rs.take(i as int)).map_values(
                |m: RuleModel| m.raw,
            ),
            builder_patterns(builder) == accepted(rs.take(i as int)).map_values(
                |m: RuleModel| m.glob,
            ),
            builder_default(builder),
        decreases rules@.len() - i,
    {
        let ghost pre = accepted(rs.take(i as int));
        let ghost rm = rs[i as int];
        assert(rs.take(i + 1).drop_last() =~= rs.take(i as int));
        assert(rs.take(i + 1).last() == rm);
        reveal_with_fuel(Seq::<RuleModel>::filter, 1);
        assert(accepted(rs.take(i + 1)) == if glob_accepts(rm.glob) {
            pre.push(rm)
        } else {
            pre
        });
        let glob_text_s = string_of(&rules[i].1);
        match glob_new(glob_text_s.as_str()) {
            Some(g) => {
                builder_add(&mut builder, g);
                let ghost before = raw@.map_values(|s: String| s@);
                raw.push(string_of(&rules[i].0));
                assert(raw@.map_values(|s: String| s@) =~= before.push(rm.raw));
                assert(pre.push(rm).map_values(|m: RuleModel| m.raw) =~= pre.map_values(
                    |m: RuleModel| m.raw,
                ).push(rm.raw));
                assert(pre.push(rm).map_values(|m: RuleModel| m.glob) =~= pre.map_values(
                    |m: RuleModel| m.glob,
                ).push(rm.glob));
            },
            None => {},
        }
        i = i + 1;
    }
    assert(rs.take(rs.len() as int) =~= rs);
    let glob_set = match builder_build(&builder) {
        Some(set) => set,
        None => set_empty(),
    };
    BrassIgnore { raw_patterns: raw, glob_set }
}

impl BrassIgnore {
    /// The rules of a repository: the built-in ones, then those of the
    /// ignore file's text when there is one (see `rule_of_line`).  Rules
    /// whose glob does not parse are dropped; if the set of globs cannot be
    /// built, it is empty.
    pub fn from_rules(content: Option<&str>) -> (r: BrassIgnore)
        ensures
            r.raw_patterns@.map_values(|s: String| s@) == accepted(all_rules(opt_chars(content))).map_values(
                |m: RuleModel| m.raw,
            ),
            set_patterns(r.glob_set) == built_or_empty(
                accepted(all_rules(opt_chars(content))).map_values(|m: RuleModel| m.glob),
            ),
            set_default(r.glob_set),
    {
        let mut rules: Vec<(Vec<char>, Vec<char>)> = Vec::new();
        let b0 = vec![
            '.', 'b', 'r', 'a', 's', 's', '_', 'c', 'o', 'n', 't', 'r', 'o', 'l', '/', '*', '*',
        ];
        let b1 = vec![
            '*', '*', '/', '.', 'b', 'r', 'a', 's', 's', '_', 'c', 'o', 'n', 't', 'r', 'o', 'l', '/',
            '*', '*',
        ];
        let b2 = vec![
            '.', 'b', 'r', 'a', 's', 's', '_', 'c', 'o', 'n', 't', 'r', 'o', 'l', '_', 'i', 'g',
            'n', 'o', 'r', 'e',
        ];
        let ghost bm = builtin_rules().map_values(|p: Seq<char>| RuleModel { raw: p, glob: p });
        assert(b0@ =~= builtin_rules()[0]);
        assert(b1@ =~= builtin_rules()[1]);
        assert(b2@ =~= builtin_rules()[2]);
        rules.push((b0.clone(), b0));
        rules.push((b1.clone(), b1));
        rules.push((b2.clone(), b2));
        let ghost view_of = |e: (Vec<char>, Vec<char>)| RuleModel { raw: e.0@, glob: e.1@ };
        assert(rules@.map_values(view_of) =~= bm);
        let ghost extra = match opt_chars(content) {
            Some(c) => rules_of_lines(char_lines(c)),
            None => Seq::<RuleModel>::empty(),
        };
        match content {
            Some(text) => {
                let cs = chars_of(text);
                let lines = lines_of_chars(&cs);
                let ghost ls = char_lines(cs@);
                assert(lines@.map_values(|p: Vec<char>| p@) == ls);
                assert(ls.len() == lines@.len());
                let mut i: usize = 0;
                assert(ls.take(0) =~= Seq::<Seq<char>>::empty());
                assert(rules@.map_values(view_of) =~= bm + rules_of_lines(ls.take(0)));
                while i < lines.len()
                    invariant
                        ls == char_lines(cs@),
                        lines@.map_values(|p: Vec<char>| p@) == ls,
                        ls.len() == lines@.len(),
                        i <= ls.len(),
                        view_of == (|e: (Vec<char>, Vec<char>)| RuleModel { raw: e.0@, glob: e.1@ }),
                        rules@.map_values(view_of) == bm + rules_of_lines(ls.take(i as int)),
                    decreases ls.len() - i,
                {
                    assert(ls[i as int] == lines@[i as int]@);
                    assert(ls.take(i + 1).drop_last() =~= ls.take(i as int));
                    assert(ls.take(i + 1).last() == ls[i as int]);
                    let ghost before = rules@.map_values(view_of);
                    let t = trim_chars(&lines[i]);
                    if t.len() > 0 && t[0] != '#' {
                        let g = normalize_rule_exec(&t);
                        let ghost rm = RuleModel { raw: t@, glob: g@ };
                        assert(rule_of_line(ls[i as int]) == Some(rm));
                        rules.push((t, g));
                        assert(rules@.map_values(view_of) =~= before.push(rm));
                    } else {
                        assert(rule_of_line(ls[i as int]) is None);
                    }
                    i = i + 1;
                }
                assert(ls.take(ls.len() as int) =~= ls);
            },
            None => {
                assert(bm + Seq::<RuleModel>::empty() =~= bm);
            },
        }
        assert(rules@.map_values(view_of) =~= all_rules(opt_chars(content)));
        assert(rules@.map_values(|e: (Vec<char>, Vec<char>)| RuleModel { raw: e.0@, glob: e.1@ })
            =~= rules@.map_values(view_of));
        compile_rules(&rules)
    }

    /// Whether a path is ignored: some glob of the rules matches it.  Stated
    /// for a set of globs with the default options, as `from_rules` and
    /// `default` build.
    pub fn is_ignored(&self, path: &str) -> (r: bool)
        ensures
            set_default(self.glob_set) ==> r == any_matches(set_patterns(self.glob_set), path@),
    {
        set_is_match(&self.glob_set, path)
    }
}

impl Default for BrassIgnore {
    /// The default rules: the repository's own directory is ignored.
    fn default() -> (r: BrassIgnore)
        ensures
            r.raw_patterns@.map_values(|s: String| s@) == seq![builtin_rules()[0]],
            set_patterns(r.glob_set) == built_or_empty(
                seq![builtin_rules()[0], builtin_rules()[1]].filter(|p: Seq<char>| glob_accepts(p)),
            ),
            set_default(r.glob_set),
    {
        let mut builder = builder_new();
        let first = vec![
            '.', 'b', 'r', 'a', 's', 's', '_', 'c', 'o', 'n', 't', 'r', 'o', 'l', '/', '*', '*',
        ];
        let second = vec![
            '*', '*', '/', '.', 'b', 'r', 'a', 's', 's', '_', 'c', 'o', 'n', 't', 'r', 'o', 'l', '/',
            '*', '*',
        ];
        assert(first@ =~= builtin_rules()[0]);
        assert(second@ =~= builtin_rules()[1]);
        let f = string_of(&first);
        let s = string_of(&second);
        let ghost two = seq![builtin_rules()[0], builtin_rules()[1]];
        let ghost pred = |p: Seq<char>| glob_accepts(p);
        reveal_with_fuel(Seq::<Seq<char>>::filter, 3);
        assert(two.drop_last() =~= seq![builtin_rules()[0]]);
        assert(seq![builtin_rules()[0]].drop_last() =~= Seq::<Seq<char>>::empty());
        match glob_new(f.as_str()) {
            Some(g) => builder_add(&mut builder, g),
            None => {},
        }
        match glob_new(s.as_str()) {
            Some(g) => builder_add(&mut builder, g),
            None => {},
        }
        assert(builder_patterns(builder) =~= two.filter(pred));
        let glob_set = match builder_build(&builder) {
            Some(set) => set,
            None => set_empty(),
        };
        let mut raw: Vec<String> = Vec::new();
        raw.push(f);
        assert(raw@.map_values(|s: String| s@) =~= seq![builtin_rules()[0]]);
        BrassIgnore { raw_patterns: raw, glob_set }
    }
}

} // verus!
