//! Ignore-rule evaluation.
//!
//! Gitignore-style rule lines are compiled by the `ignore` crate; what a
//! compiled matcher answers for a single path is taken on trust as a
//! function of the rule lines alone. Everything around that single call
//! is verified here: which rule file speaks for which path level, the
//! precedence of later rule files over earlier ones at each level, the
//! rule that an excluded directory takes its whole subtree with it — no
//! rule below can re-include anything under it — and the unconditional
//! exclusion of the version-control metadata directory, which is checked
//! ahead of every rule file and cannot be overridden by one.

use vstd::prelude::*;

use crate::paths::has_component;
use crate::paths::has_git_component;
use crate::paths::lemma_last_slash;
use crate::paths::parent_dir;
use crate::paths::parent_path;
use crate::paths::starts_with;
use crate::paths::starts_with_str;

verus! {

/// The verdict of ignore evaluation for one path.
#[derive(PartialEq, Eq, Structural, Clone, Copy, Debug)]
pub enum Verdict {
    /// No rule speaks of the path.
    Unspecified,
    /// The path is excluded.
    Ignore,
    /// A whitelist rule re-includes the path.
    Allow,
}

/// A startup-time configuration failure: the session must not start.
#[derive(PartialEq, Eq, Structural, Clone, Copy, Debug)]
pub enum ConfigError {
    /// A set of ignore rules could not be compiled.
    RuleCompile,
}

#[verifier::external_type_specification]
#[verifier::external_body]
pub struct ExGitignore(ignore::gitignore::Gitignore);

#[verifier::external_type_specification]
#[verifier::external_body]
pub struct ExGitignoreBuilder(ignore::gitignore::GitignoreBuilder);

/// The rule lines handed so far to a builder (accepted ones only).
pub uninterp spec fn builder_lines(b: ignore::gitignore::GitignoreBuilder) -> Seq<Seq<char>>;

/// The rule lines a compiled matcher was built from.
pub uninterp spec fn matcher_lines(g: ignore::gitignore::Gitignore) -> Seq<Seq<char>>;

/// Whether a rule line is a well-formed gitignore-style line (comments
/// and blank lines are well-formed; only a malformed glob is not).
pub uninterp spec fn line_parses(line: Seq<char>) -> bool;

/// Whether a collection of accepted rule lines compiles into a matcher.
pub uninterp spec fn set_compiles(lines: Seq<Seq<char>>) -> bool;

/// The verdict the compiled rules `rules` give for `path` itself —
/// ancestors not consulted. `is_dir` tells whether the path names a
/// directory.
pub uninterp spec fn rule_match(rules: Seq<Seq<char>>, path: Seq<char>, is_dir: bool) -> Verdict;

/// Relies on `ignore::gitignore::GitignoreBuilder::new`. The builder is
/// rooted at the empty path, so a compiled matcher strips nothing from
/// the paths it is asked about: matching is a function of the rule lines
/// alone.
#[verifier::external_body]
fn builder_new() -> (b: ignore::gitignore::GitignoreBuilder)
    ensures
        builder_lines(b) == Seq::<Seq<char>>::empty(),
{
    ignore::gitignore::GitignoreBuilder::new("")
}

/// Relies on `ignore::gitignore::GitignoreBuilder::add_line`: parses one
/// gitignore-style rule line; whether the line is accepted depends on the
/// line alone, and a rejected line leaves the builder unchanged.
#[verifier::external_body]
fn builder_add_line(b: &mut ignore::gitignore::GitignoreBuilder, line: &str) -> (ok: bool)
    ensures
        ok == line_parses(line@),
        line_parses(line@) ==> builder_lines(*final(b)) == builder_lines(*old(b)).push(line@),
        !line_parses(line@) ==> builder_lines(*final(b)) == builder_lines(*old(b)),
{
    b.add_line(None, line).is_ok()
}

/// Relies on `ignore::gitignore::GitignoreBuilder::build`: whether the
/// accepted lines compile into a matcher depends on those lines alone,
/// and a compiled matcher matches by those lines alone.
#[verifier::external_body]
fn builder_build(b: &ignore::gitignore::GitignoreBuilder) -> (r: Option<
    ignore::gitignore::Gitignore,
>)
    ensures
        r is Some <==> set_compiles(builder_lines(*b)),
        match r {
            Some(g) => matcher_lines(g) == builder_lines(*b),
            None => true,
        },
{
    match b.build() {
        Ok(g) => Some(g),
        Err(_) => None,
    }
}

/// Relies on `ignore::gitignore::Gitignore::matched`: never panics, and
/// with the builder's empty root the result depends on the rule lines,
/// the path and `is_dir` alone (a leading `./` or `/` is stripped
/// before matching; the paths handed in here are root-relative anyway).
#[verifier::external_body]
fn matcher_match(g: &ignore::gitignore::Gitignore, path: &str, is_dir: bool) -> (r: Verdict)
    ensures
        r == rule_match(matcher_lines(*g), path@, is_dir),
{
    match g.matched(path, is_dir) {
        ignore::Match::None => Verdict::Unspecified,
        ignore::Match::Ignore(_) => Verdict::Ignore,
        ignore::Match::Whitelist(_) => Verdict::Allow,
    }
}

/// One rule file to compile: the root-relative directory that holds it
/// (empty for the watch root itself) and its lines.
pub struct RuleFile {
    pub dir: String,
    pub lines: Vec<String>,
}

/// The character sequences of a rule file's lines.
pub open spec fn file_lines(f: RuleFile) -> Seq<Seq<char>> {
    f.lines@.map_values(|l: String| l@)
}

/// The sub-sequence of `lines` that the rule parser accepts.
pub open spec fn accepted_rules(lines: Seq<Seq<char>>) -> Seq<Seq<char>>
    decreases lines.len(),
{
    if lines.len() == 0 {
        Seq::empty()
    } else if line_parses(lines.last()) {
        accepted_rules(lines.drop_last()).push(lines.last())
    } else {
        accepted_rules(lines.drop_last())
    }
}

/// What one compiled rule file looks like to a specification: the
/// directory it governs and its accepted rule lines.
pub struct ScopeView {
    pub dir: Seq<char>,
    pub rules: Seq<Seq<char>>,
}

/// One compiled rule file, anchored at a directory under the watch root.
pub struct ScopedRules {
    pub dir: String,
    pub matcher: ignore::gitignore::Gitignore,
    pub n_rules: usize,
}

impl View for ScopedRules {
    type V = ScopeView;

    open spec fn view(&self) -> ScopeView {
        ScopeView { dir: self.dir@, rules: matcher_lines(self.matcher) }
    }
}

impl ScopedRules {
    /// The stored rule count agrees with the compiled rules.
    pub open spec fn wf(self) -> bool {
        self.n_rules == self@.rules.len()
    }
}

/// Whether a rule file speaks for this path level: its rules see only
/// strict descendants of its own directory.
pub open spec fn scope_applies(sc: ScopeView, level: Seq<char>) -> bool {
    sc.rules.len() > 0 && (sc.dir.len() == 0 || starts_with(level, sc.dir.push('/')))
}

/// The level as the rule file's own rules see it: relative to the
/// directory that holds the file.
pub open spec fn scope_rel(sc: ScopeView, level: Seq<char>) -> Seq<char> {
    if sc.dir.len() == 0 {
        level
    } else {
        level.subrange(sc.dir.len() as int + 1, level.len() as int)
    }
}

/// The resolved match of one path level: the latest rule file that
/// speaks of the level decides — a later, more specific rule file
/// overrides an earlier one.
pub open spec fn level_verdict(scopes: Seq<ScopeView>, level: Seq<char>, is_dir: bool) -> Verdict
    decreases scopes.len(),
{
    if scopes.len() == 0 {
        Verdict::Unspecified
    } else if scope_applies(scopes.last(), level) && rule_match(
        scopes.last().rules,
        scope_rel(scopes.last(), level),
        is_dir,
    ) != Verdict::Unspecified {
        rule_match(scopes.last().rules, scope_rel(scopes.last(), level), is_dir)
    } else {
        level_verdict(scopes.drop_last(), level, is_dir)
    }
}

/// Whether some strict ancestor directory of the path is excluded. An
/// excluded directory takes its whole subtree with it: no rule below it
/// — not even a whitelist matching the path itself — re-includes
/// anything under it.
pub open spec fn ancestor_blocked(scopes: Seq<ScopeView>, path: Seq<char>) -> bool
    decreases path.len(),
    via ancestor_blocked_decreases
{
    if path.len() == 0 {
        false
    } else {
        level_verdict(scopes, parent_dir(path), true) == Verdict::Ignore || ancestor_blocked(
            scopes,
            parent_dir(path),
        )
    }
}

#[via_fn]
proof fn ancestor_blocked_decreases(scopes: Seq<ScopeView>, path: Seq<char>) {
    lemma_last_slash(path);
}

/// What the whole rule set decides for one path: a path with a
/// version-control metadata component is always excluded, ahead of
/// every rule file; then a path under an excluded ancestor directory is
/// excluded; otherwise the path's own level decides.
pub open spec fn spec_matches(scopes: Seq<ScopeView>, path: Seq<char>, is_dir: bool) -> Verdict {
    if has_component(path, ".git"@) {
        Verdict::Ignore
    } else if ancestor_blocked(scopes, path) {
        Verdict::Ignore
    } else {
        level_verdict(scopes, path, is_dir)
    }
}

/// An ordered collection of compiled rule files, immutable once built.
pub struct IgnoreRuleSet {
    pub scopes: Vec<ScopedRules>,
}

impl View for IgnoreRuleSet {
    type V = Seq<ScopeView>;

    open spec fn view(&self) -> Seq<ScopeView> {
        self.scopes@.map_values(|s: ScopedRules| s@)
    }
}

impl IgnoreRuleSet {
    /// Every scope's stored rule count agrees with its compiled rules.
    pub open spec fn wf(self) -> bool {
        forall|i: int| 0 <= i < self.scopes@.len() ==> (#[trigger] self.scopes@[i]).wf()
    }

    /// Compiles the given rule files, in order, into a rule set. Absence
    /// of rule files is not an error: an empty collection allows
    /// everything. A line the parser rejects is skipped, as the rule
    /// format asks; the build fails exactly when some file's accepted
    /// lines do not compile as a set.
    pub fn build(rule_files: Vec<RuleFile>) -> (r: Result<IgnoreRuleSet, ConfigError>)
        ensures
            match r {
                Ok(rs) => {
                    &&& rs.wf()
                    &&& rs@.len() == rule_files@.len()
                    &&& forall|i: int|
                        0 <= i < rs@.len() ==> (#[trigger] rs@[i]).dir == rule_files@[i].dir@
                            && rs@[i].rules == accepted_rules(file_lines(rule_files@[i]))
                },
                Err(e) => e == ConfigError::RuleCompile,
            },
            r is Err <==> exists|i: int|
                0 <= i < rule_files@.len() && !set_compiles(
                    accepted_rules(file_lines(#[trigger] rule_files@[i])),
                ),
    {
        let n = rule_files.len();
        let mut scopes: Vec<ScopedRules> = Vec::new();
        let mut i: usize = 0;
        while i < n
            invariant
                n == rule_files@.len(),
                i <= n,
                scopes@.len() == i,
                forall|k: int|
                    0 <= k < i ==> (#[trigger] scopes@[k]).wf() && scopes@[k].dir@
                        == rule_files@[k].dir@ && matcher_lines(scopes@[k].matcher)
                        == accepted_rules(file_lines(rule_files@[k])),
                forall|k: int|
                    0 <= k < i ==> set_compiles(
                        accepted_rules(file_lines(#[trigger] rule_files@[k])),
                    ),
            decreases n - i,
        {
            let f = &rule_files[i];
            let mut b = builder_new();
            let m = f.lines.len();
            let mut j: usize = 0;
            let mut cnt: usize = 0;
            while j < m
                invariant
                    m == f.lines@.len(),
                    j <= m,
                    cnt <= j,
                    f == &rule_files@[i as int],
                    builder_lines(b) =~= accepted_rules(
                        f.lines@.take(j as int).map_values(|l: String| l@),
                    ),
                    cnt == builder_lines(b).len(),
                decreases m - j,
            {
                let ghost pre = f.lines@.take(j as int).map_values(|l: String| l@);
                let ok = builder_add_line(&mut b, f.lines[j].as_str());
                if ok {
                    cnt = cnt + 1;
                }
                proof {
                    let post = f.lines@.take(j + 1).map_values(|l: String| l@);
                    assert(post.drop_last() =~= pre);
                    assert(post.last() == f.lines@[j as int]@);
                }
                j = j + 1;
            }
            proof {
                assert(f.lines@.take(m as int) =~= f.lines@);
            }
            match builder_build(&b) {
                Some(g) => {
                    scopes.push(ScopedRules { dir: f.dir.clone(), matcher: g, n_rules: cnt });
                },
                None => {
                    proof {
                        assert(!set_compiles(accepted_rules(file_lines(rule_files@[i as int]))));
                    }
                    return Err(ConfigError::RuleCompile);
                },
            }
            i = i + 1;
        }
        let rs = IgnoreRuleSet { scopes };
        proof {
            assert(forall|k: int| 0 <= k < rs@.len() ==> rs@[k] == (#[trigger] rs.scopes@[k])@);
            assert(!(exists|k: int|
                0 <= k < rule_files@.len() && !set_compiles(
                    accepted_rules(file_lines(#[trigger] rule_files@[k])),
                ))) by {
                if exists|k: int|
                    0 <= k < rule_files@.len() && !set_compiles(
                        accepted_rules(file_lines(#[trigger] rule_files@[k])),
                    ) {
                    let k = choose|k: int|
                        0 <= k < rule_files@.len() && !set_compiles(
                            accepted_rules(file_lines(#[trigger] rule_files@[k])),
                        );
                    assert(set_compiles(accepted_rules(file_lines(rule_files@[k]))));
                }
            }
        }
        Ok(rs)
    }

    /// The resolved match of one level, later rule files first.
    fn level_match(&self, level: &str, is_dir: bool) -> (v: Verdict)
        requires
            self.wf(),
        ensures
            v == level_verdict(self@, level@, is_dir),
    {
        let n = self.scopes.len();
        proof {
            assert(self@.take(n as int) =~= self@);
        }
        let mut i: usize = n;
        while i > 0
            invariant
                n == self.scopes@.len(),
                i <= n,
                self.wf(),
                level_verdict(self@, level@, is_dir) == level_verdict(
                    self@.take(i as int),
                    level@,
                    is_dir,
                ),
            decreases i,
        {
            proof {
                assert(self@.take(i as int).last() == self@[i - 1]);
                assert(self@.take(i as int).drop_last() =~= self@.take(i - 1));
                assert(self@[i - 1] == (#[trigger] self.scopes@[i - 1])@);
            }
            let sc = &self.scopes[i - 1];
            if sc.n_rules > 0 {
                let dl = sc.dir.as_str().unicode_len();
                if dl == 0 {
                    let v = matcher_match(&sc.matcher, level, is_dir);
                    if v != Verdict::Unspecified {
                        proof {
                            assert(scope_applies(sc@, level@));
                            assert(level_verdict(self@.take(i as int), level@, is_dir) == v);
                        }
                        return v;
                    }
                } else {
                    let ll = level.unicode_len();
                    if ll > dl && starts_with_str(level, sc.dir.as_str()) && level.get_char(dl)
                        == '/' {
                        proof {
                            let pre = sc.dir@.push('/');
                            assert(pre.len() == dl + 1);
                            assert(forall|j: int| 0 <= j < dl ==> pre[j] == sc.dir@[j]);
                            assert(pre[dl as int] == '/');
                            assert(starts_with(level@, pre));
                        }
                        let rel = level.substring_char(dl + 1, ll);
                        let v = matcher_match(&sc.matcher, rel, is_dir);
                        if v != Verdict::Unspecified {
                            proof {
                                assert(scope_applies(sc@, level@));
                                assert(rel@ == scope_rel(sc@, level@));
                                assert(level_verdict(self@.take(i as int), level@, is_dir) == v);
                            }
                            return v;
                        }
                    } else {
                        proof {
                            let pre = sc.dir@.push('/');
                            if starts_with(level@, pre) {
                                assert(level@[dl as int] == pre[dl as int]);
                                assert(forall|j: int|
                                    0 <= j < dl ==> level@[j] == pre[j] && pre[j] == sc.dir@[j]);
                                assert(ll > dl && level@[dl as int] == '/');
                                assert(starts_with(level@, sc.dir@));
                            }
                            assert(!scope_applies(sc@, level@));
                        }
                    }
                }
            } else {
                proof {
                    assert(sc@.rules.len() == 0);
                    assert(!scope_applies(sc@, level@));
                }
            }
            i = i - 1;
        }
        proof {
            assert(self@.take(0).len() == 0);
        }
        Verdict::Unspecified
    }

    /// Evaluates the rule set for a root-relative, forward-slash path.
    /// The version-control metadata check comes first and cannot be
    /// overridden; then an excluded ancestor directory excludes the
    /// path whatever nearer rules say; otherwise the path's own level
    /// decides, later rule files taking precedence over earlier ones.
    pub fn matches(&self, path: &str, is_dir: bool) -> (v: Verdict)
        requires
            self.wf(),
        ensures
            v == spec_matches(self@, path@, is_dir),
    {
        if has_git_component(path) {
            return Verdict::Ignore;
        }
        let mut cur = String::from_str(path);
        while cur.as_str().unicode_len() != 0
            invariant
                self.wf(),
                !has_component(path@, ".git"@),
                ancestor_blocked(self@, path@) == ancestor_blocked(self@, cur@),
            decreases cur@.len(),
        {
            proof {
                lemma_last_slash(cur@);
            }
            let par = parent_path(cur.as_str());
            let v = self.level_match(par.as_str(), true);
            if v == Verdict::Ignore {
                proof {
                    assert(ancestor_blocked(self@, cur@));
                }
                return Verdict::Ignore;
            }
            proof {
                assert(ancestor_blocked(self@, cur@) == ancestor_blocked(self@, par@));
            }
            cur = par;
        }
        proof {
            assert(!ancestor_blocked(self@, path@));
        }
        self.level_match(path, is_dir)
    }
}

/// Idempotence of ignore evaluation: the verdict is a function of the
/// rule set, the path and `is_dir` alone, so re-evaluating the same path
/// against an unchanged rule set always yields the same verdict.
pub proof fn lemma_ignore_eval_idempotent(
    scopes: Seq<ScopeView>,
    path: Seq<char>,
    is_dir: bool,
    v1: Verdict,
    v2: Verdict,
)
    requires
        v1 == spec_matches(scopes, path, is_dir),
        v2 == spec_matches(scopes, path, is_dir),
    ensures
        v1 == v2,
{
}

/// With no rule files, no ancestor is ever excluded.
proof fn lemma_empty_not_blocked(path: Seq<char>)
    ensures
        !ancestor_blocked(Seq::empty(), path),
    decreases path.len(),
{
    if path.len() == 0 {
    } else {
        lemma_last_slash(path);
        lemma_empty_not_blocked(parent_dir(path));
    }
}

/// An empty rule collection allows everything — and even then a path
/// with a version-control metadata component stays excluded.
pub proof fn lemma_empty_ruleset(path: Seq<char>, is_dir: bool)
    ensures
        !has_component(path, ".git"@) ==> spec_matches(Seq::empty(), path, is_dir)
            == Verdict::Unspecified,
        has_component(path, ".git"@) ==> spec_matches(Seq::empty(), path, is_dir)
            == Verdict::Ignore,
{
    lemma_empty_not_blocked(path);
}

/// The path reached after climbing `k` parent steps.
pub open spec fn ancestor_level(path: Seq<char>, k: nat) -> Seq<char>
    decreases k,
{
    if k == 0 {
        path
    } else {
        parent_dir(ancestor_level(path, (k - 1) as nat))
    }
}

/// Climbing from the parent is climbing one level further from the path.
proof fn lemma_ancestor_shift(path: Seq<char>, j: nat)
    ensures
        ancestor_level(parent_dir(path), j) == ancestor_level(path, j + 1),
    decreases j,
{
    if j == 0 {
        assert(ancestor_level(path, 1) == parent_dir(ancestor_level(path, 0)));
    } else {
        lemma_ancestor_shift(path, (j - 1) as nat);
        assert(ancestor_level(parent_dir(path), j) == parent_dir(
            ancestor_level(parent_dir(path), (j - 1) as nat),
        ));
        assert(ancestor_level(path, j + 1) == parent_dir(ancestor_level(path, j)));
    }
}

/// Ignore precedence along ancestors: a path whose ancestor directory
/// `k` levels up resolves to Ignore is under an excluded directory —
/// whatever any nearer rule, whitelist or not, says of the levels in
/// between or of the path itself.
pub proof fn lemma_ancestor_ignore(scopes: Seq<ScopeView>, path: Seq<char>, k: nat)
    requires
        1 <= k,
        forall|j: nat| j < k ==> (#[trigger] ancestor_level(path, j)).len() > 0,
        level_verdict(scopes, ancestor_level(path, k), true) == Verdict::Ignore,
    ensures
        ancestor_blocked(scopes, path),
    decreases k,
{
    assert(ancestor_level(path, 0) == path);
    assert(path.len() > 0);
    let p = parent_dir(path);
    assert(ancestor_level(path, 1) == parent_dir(ancestor_level(path, 0)));
    if k == 1 {
        assert(level_verdict(scopes, p, true) == Verdict::Ignore);
    } else {
        assert forall|j: nat| j < (k - 1) as nat implies (#[trigger] ancestor_level(p, j)).len()
            > 0 by {
            lemma_ancestor_shift(path, j);
            assert(ancestor_level(path, j + 1).len() > 0);
        }
        lemma_ancestor_shift(path, (k - 1) as nat);
        assert(ancestor_level(p, (k - 1) as nat) == ancestor_level(path, k));
        lemma_ancestor_ignore(scopes, p, (k - 1) as nat);
    }
}

/// Ignore precedence, composed: a path whose ancestor directory `k`
/// levels up resolves to Ignore gets the full verdict Ignore,
/// unconditionally — such a path is never scanned, tracked or uploaded,
/// however many events arrive for it and whatever nearer whitelist
/// rules match.
pub proof fn lemma_ancestor_ignore_excludes(
    scopes: Seq<ScopeView>,
    path: Seq<char>,
    is_dir: bool,
    k: nat,
)
    requires
        1 <= k,
        forall|j: nat| j < k ==> (#[trigger] ancestor_level(path, j)).len() > 0,
        level_verdict(scopes, ancestor_level(path, k), true) == Verdict::Ignore,
    ensures
        spec_matches(scopes, path, is_dir) == Verdict::Ignore,
{
    lemma_ancestor_ignore(scopes, path, k);
}

/// Outside a nested rule file's directory, no level of the path is
/// excluded by it.
proof fn lemma_outside_scope_not_blocked(sc: ScopeView, path: Seq<char>)
    requires
        sc.dir.len() > 0,
        !starts_with(path, sc.dir.push('/')),
    ensures
        !ancestor_blocked(seq![sc], path),
    decreases path.len(),
{
    if path.len() == 0 {
    } else {
        lemma_last_slash(path);
        let p = parent_dir(path);
        assert(!starts_with(p, sc.dir.push('/'))) by {
            if starts_with(p, sc.dir.push('/')) {
                assert(forall|j: int| 0 <= j < p.len() ==> p[j] == path[j]);
                assert(starts_with(path, sc.dir.push('/')));
            }
        }
        assert(!scope_applies(sc, p));
        assert(seq![sc].len() == 1);
        assert(seq![sc].last() == sc);
        assert(seq![sc].drop_last() =~= Seq::<ScopeView>::empty());
        assert(level_verdict(Seq::<ScopeView>::empty(), p, true) == Verdict::Unspecified);
        assert(level_verdict(seq![sc], p, true) == Verdict::Unspecified);
        lemma_outside_scope_not_blocked(sc, p);
    }
}

/// A rule file anchored below the watch root governs its own directory
/// alone: a path that is not a strict descendant of that directory
/// keeps the empty-rule-set outcome.
pub proof fn lemma_nested_scope_local(sc: ScopeView, path: Seq<char>, is_dir: bool)
    requires
        sc.dir.len() > 0,
        !starts_with(path, sc.dir.push('/')),
    ensures
        spec_matches(seq![sc], path, is_dir) == (if has_component(path, ".git"@) {
            Verdict::Ignore
        } else {
            Verdict::Unspecified
        }),
{
    lemma_outside_scope_not_blocked(sc, path);
    assert(!scope_applies(sc, path));
    assert(seq![sc].len() == 1);
    assert(seq![sc].last() == sc);
    assert(seq![sc].drop_last() =~= Seq::<ScopeView>::empty());
    assert(level_verdict(Seq::<ScopeView>::empty(), path, is_dir) == Verdict::Unspecified);
    assert(level_verdict(seq![sc], path, is_dir) == Verdict::Unspecified);
}

} // verus!
