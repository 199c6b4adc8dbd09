//! Access control and user configuration.
use vstd::prelude::*;
use crate::text::{chars_eq, chars_of, has_prefix, starts_with, string_of, trim_end_matches, trim_end_matching};

verus! {

/// The user settings of a repository.
#[derive(Debug, Clone, PartialEq, Eq)]
pub struct BrassConfig {
    pub user_name: String,
    pub user_email: String,
    pub default_branch: String,
    pub is_admin: bool,
}

impl Default for BrassConfig {
    /// `Anonymous`, `user@localhost`, branch `main`, not an administrator.
    fn default() -> (c: BrassConfig)
        ensures
            c.user_name@ == seq!['A', 'n', 'o', 'n', 'y', 'm', 'o', 'u', 's'],
            c.user_email@ == seq![
                'u', 's', 'e', 'r', '@', 'l', 'o', 'c', 'a', 'l', 'h', 'o', 's', 't',
            ],
            c.default_branch@ == seq!['m', 'a', 'i', 'n'],
            !c.is_admin,
    {
        BrassConfig {
            user_name: string_of(&vec!['A', 'n', 'o', 'n', 'y', 'm', 'o', 'u', 's']),
            user_email: string_of(
                &vec!['u', 's', 'e', 'r', '@', 'l', 'o', 'c', 'a', 'l', 'h', 'o', 's', 't'],
            ),
            default_branch: string_of(&vec!['m', 'a', 'i', 'n']),
            is_admin: false,
        }
    }
}

/// What a rule allows.
#[derive(Debug, Clone, Copy, PartialEq, Eq, Structural)]
pub enum AccessLevel {
    ReadOnly,
    ReadWrite,
}

/// A rule: for a user (or `*`, everyone) and a path pattern, an access level.
#[derive(Debug, Clone, PartialEq, Eq)]
pub struct AccessRule {
    pub user: String,
    pub path_pattern: String,
    pub access: AccessLevel,
}

/// The access rules of a repository.
#[derive(Debug, Clone, PartialEq, Eq)]
pub struct AclConfig {
    pub rules: Vec<AccessRule>,
}

impl Default for AclConfig {
    /// No rules.
    fn default() -> (c: AclConfig)
        ensures
            c.rules@.len() == 0,
    {
        AclConfig { rules: Vec::new() }
    }
}

/// The path prefix a pattern covers: the pattern without trailing `/**`s,
/// then without trailing `/*`s.
pub open spec fn pattern_prefix(pattern: Seq<char>) -> Seq<char> {
    trim_end_matches(trim_end_matches(pattern, seq!['/', '*', '*']), seq!['/', '*'])
}

/// A rule concerns a user when it names the user or `*`.
pub open spec fn rule_applies(rule: AccessRule, user: Seq<char>) -> bool {
    rule.user@ == user || rule.user@ == seq!['*']
}

/// A rule forbids writing `path` for `user`: it concerns the user, the path
/// starts with the rule's prefix, and the rule grants only reading.
pub open spec fn rule_denies(rule: AccessRule, user: Seq<char>, path: Seq<char>) -> bool {
    &&& rule_applies(rule, user)
    &&& has_prefix(path, pattern_prefix(rule.path_pattern@))
    &&& rule.access == AccessLevel::ReadOnly
}

/// `user` may write `path` under `rules`: no rule forbids it.
pub open spec fn acl_allows(rules: Seq<AccessRule>, user: Seq<char>, path: Seq<char>) -> bool {
    !(exists|i: int| 0 <= i < rules.len() && rule_denies(#[trigger] rules[i], user, path))
}

impl AclConfig {
    /// Whether `user` may write `path`: yes, unless some rule forbids it.
    pub fn can_write(&self, user: &str, path: &str) -> (b: bool)
        ensures
            b == acl_allows(self.rules@, user@, path@),
    {
        let u = chars_of(user);
        let p = chars_of(path);
        let star = vec!['*'];
        let suffix_all = vec!['/', '*', '*'];
        let suffix_one = vec!['/', '*'];
        assert(star@ =~= seq!['*']);
        assert(suffix_all@ =~= seq!['/', '*', '*']);
        assert(suffix_one@ =~= seq!['/', '*']);
        let mut i: usize = 0;
        while i < self.rules.len()
            invariant
                i <= self.rules@.len(),
                u@ == user@,
                p@ == path@,
                star@ == seq!['*'],
                suffix_all@ == seq!['/', '*', '*'],
                suffix_one@ == seq!['/', '*'],
                forall|j: int| 0 <= j < i ==> !rule_denies(#[trigger] self.rules@[j], user@, path@),
            decreases self.rules@.len() - i,
        {
            let rule = &self.rules[i];
            let ru = chars_of(rule.user.as_str());
            if chars_eq(&ru, &u) || chars_eq(&ru, &star) {
                let pat = chars_of(rule.path_pattern.as_str());
                let clean = trim_end_matching(&trim_end_matching(&pat, &suffix_all), &suffix_one);
                if starts_with(&p, &clean) && rule.access == AccessLevel::ReadOnly {
                    assert(rule_denies(self.rules@[i as int], user@, path@));
                    return false;
                }
            }
            i = i + 1;
        }
        true
    }
}

/// With no rules, every user may write every path.
pub proof fn lemma_no_rules_allow_all(user: Seq<char>, path: Seq<char>)
    ensures
        acl_allows(Seq::<AccessRule>::empty(), user, path),
{
}

/// Rules that grant writing forbid nothing: where every rule grants
/// read-write access, every user may write every path.
pub proof fn lemma_read_write_rules_allow_all(rules: Seq<AccessRule>, user: Seq<char>, path: Seq<char>)
    requires
        forall|i: int| 0 <= i < rules.len() ==> #[trigger] rules[i].access == AccessLevel::ReadWrite,
    ensures
        acl_allows(rules, user, path),
{
}

/// A rule for another user never forbids a write: what a user may write
/// depends only on the rules naming exactly that user, or `*`.  A rule for
/// `ann` says nothing of `annie`.
pub proof fn lemma_other_users_rules_irrelevant(
    rules: Seq<AccessRule>,
    extra: AccessRule,
    user: Seq<char>,
    path: Seq<char>,
)
    requires
        extra.user@ != user,
        extra.user@ != seq!['*'],
    ensures
        acl_allows(rules.push(extra), user, path) == acl_allows(rules, user, path),
{
    let r2 = rules.push(extra);
    if acl_allows(rules, user, path) {
        assert forall|i: int| 0 <= i < r2.len() implies !rule_denies(#[trigger] r2[i], user, path) by {
            if i < rules.len() {
                assert(r2[i] == rules[i]);
            }
        }
    } else {
        let i = choose|i: int| 0 <= i < rules.len() && rule_denies(#[trigger] rules[i], user, path);
        assert(r2[i] == rules[i]);
    }
}

/// A read-only rule naming exactly the user, or `*`, forbids every write
/// below its prefix; one naming any other user forbids nothing.
pub proof fn lemma_rule_scope(rule: AccessRule, user: Seq<char>, path: Seq<char>)
    ensures
        (rule.user@ == user || rule.user@ == seq!['*']) && rule.access == AccessLevel::ReadOnly
            && has_prefix(path, pattern_prefix(rule.path_pattern@)) ==> !acl_allows(
            seq![rule],
            user,
            path,
        ),
        rule.user@ != user && rule.user@ != seq!['*'] ==> acl_allows(seq![rule], user, path),
{
    if (rule.user@ == user || rule.user@ == seq!['*']) && rule.access == AccessLevel::ReadOnly
        && has_prefix(path, pattern_prefix(rule.path_pattern@)) {
        assert(rule_denies(seq![rule][0], user, path));
    }
}

} // verus!
