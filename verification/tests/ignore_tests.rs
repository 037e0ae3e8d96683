use ricesearch::ignore_rules::IgnoreRuleSet;
use ricesearch::ignore_rules::RuleFile;
use ricesearch::ignore_rules::Verdict;

fn rule_file(dir: &str, lines: &[&str]) -> RuleFile {
    RuleFile {
        dir: dir.to_string(),
        lines: lines.iter().map(|l| l.to_string()).collect(),
    }
}

#[test]
fn empty_ruleset_allows_everything() {
    let rs = IgnoreRuleSet::build(Vec::new()).unwrap();
    assert_eq!(rs.matches("src/main.rs", false), Verdict::Unspecified);
    assert_eq!(rs.matches("notes.txt", false), Verdict::Unspecified);
}

#[test]
fn git_metadata_always_excluded() {
    let rs = IgnoreRuleSet::build(Vec::new()).unwrap();
    assert_eq!(rs.matches(".git", true), Verdict::Ignore);
    assert_eq!(rs.matches(".git/config", false), Verdict::Ignore);
    assert_eq!(rs.matches("a/.git/objects/ab", false), Verdict::Ignore);
    // A name that merely starts with .git is not the metadata directory.
    assert_eq!(rs.matches(".gitignore", false), Verdict::Unspecified);
}

#[test]
fn git_rule_cannot_be_overridden() {
    let rs = IgnoreRuleSet::build(vec![rule_file("", &["!.git"])]).unwrap();
    assert_eq!(rs.matches(".git/config", false), Verdict::Ignore);
}

#[test]
fn simple_glob_ignores_matching_files() {
    let rs = IgnoreRuleSet::build(vec![rule_file("", &["*.log"])]).unwrap();
    assert_eq!(rs.matches("x.log", false), Verdict::Ignore);
    assert_eq!(rs.matches("a/b/x.log", false), Verdict::Ignore);
    assert_eq!(rs.matches("x.txt", false), Verdict::Unspecified);
}

#[test]
fn ancestor_directory_rule_prunes_descendants() {
    let rs = IgnoreRuleSet::build(vec![rule_file("", &["build/"])]).unwrap();
    assert_eq!(rs.matches("build", true), Verdict::Ignore);
    assert_eq!(rs.matches("build/out/a.o", false), Verdict::Ignore);
    assert_eq!(rs.matches("builder/a.o", false), Verdict::Unspecified);
}

#[test]
fn whitelist_overrides_earlier_rule() {
    let rs = IgnoreRuleSet::build(vec![rule_file("", &["*.log", "!keep.log"])]).unwrap();
    assert_eq!(rs.matches("x.log", false), Verdict::Ignore);
    assert_eq!(rs.matches("keep.log", false), Verdict::Allow);
}

#[test]
fn no_reinclusion_below_an_excluded_directory() {
    // A whitelist matching the file itself does not rescue it from an
    // excluded ancestor directory.
    let rs = IgnoreRuleSet::build(vec![rule_file("", &["build/", "!build/keep.txt"])]).unwrap();
    assert_eq!(rs.matches("build/keep.txt", false), Verdict::Ignore);
    assert_eq!(rs.matches("build/other.txt", false), Verdict::Ignore);
}

#[test]
fn a_reincluded_directory_frees_its_subtree() {
    // The directory's own level resolves Allow (the later line wins),
    // so nothing below is blocked by it.
    let rs = IgnoreRuleSet::build(vec![rule_file("", &["build/", "!build/"])]).unwrap();
    assert_eq!(rs.matches("build", true), Verdict::Allow);
    assert_eq!(rs.matches("build/a.txt", false), Verdict::Unspecified);
}

#[test]
fn later_rule_file_overrides_earlier() {
    let rs = IgnoreRuleSet::build(vec![
        rule_file("", &["*.log"]),
        rule_file("", &["!a.log"]),
    ])
    .unwrap();
    assert_eq!(rs.matches("a.log", false), Verdict::Allow);
    assert_eq!(rs.matches("b.log", false), Verdict::Ignore);
}

#[test]
fn nested_rule_file_governs_its_directory() {
    // The tree holds a/b.txt (not ignored) and a rule file in a/
    // containing *.log: of a freshly created a/x.log and a/y.txt only
    // y.txt survives.
    let rs = IgnoreRuleSet::build(vec![rule_file("a", &["*.log"])]).unwrap();
    assert_eq!(rs.matches("a/x.log", false), Verdict::Ignore);
    assert_eq!(rs.matches("a/y.txt", false), Verdict::Unspecified);
    assert_eq!(rs.matches("a/b.txt", false), Verdict::Unspecified);
    // The rule is anchored: a sibling tree is not affected.
    assert_eq!(rs.matches("b/x.log", false), Verdict::Unspecified);
}

#[test]
fn comments_and_blank_lines_are_no_rules() {
    let rs = IgnoreRuleSet::build(vec![rule_file("", &["# comment", "", "*.tmp"])]).unwrap();
    assert_eq!(rs.matches("x.tmp", false), Verdict::Ignore);
    assert_eq!(rs.matches("# comment", false), Verdict::Unspecified);
}

#[test]
fn evaluation_is_idempotent() {
    let rs = IgnoreRuleSet::build(vec![rule_file("", &["*.log", "!keep.log"])]).unwrap();
    for path in ["x.log", "keep.log", "src/lib.rs", ".git/HEAD"] {
        let first = rs.matches(path, false);
        for _ in 0..5 {
            assert_eq!(rs.matches(path, false), first);
        }
    }
}
