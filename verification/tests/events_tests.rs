use ricesearch::events::ChangeKind;
use ricesearch::events::EventAction;
use ricesearch::events::classify_event;
use ricesearch::ignore_rules::IgnoreRuleSet;
use ricesearch::ignore_rules::RuleFile;

fn ruleset(lines: &[&str]) -> IgnoreRuleSet {
    IgnoreRuleSet::build(vec![RuleFile {
        dir: String::new(),
        lines: lines.iter().map(|l| l.to_string()).collect(),
    }])
    .unwrap()
}

#[test]
fn creations_and_modifications_are_tracked() {
    let rules = ruleset(&[]);
    for kind in [ChangeKind::Created, ChangeKind::Modified] {
        let a = classify_event(&rules, "root", "root/a/b.txt", kind, true);
        assert_eq!(a, EventAction::Track { rel_path: "a/b.txt".to_string() });
    }
}

#[test]
fn removals_and_other_kinds_are_not_forwarded() {
    let rules = ruleset(&[]);
    let a = classify_event(&rules, "root", "root/a/b.txt", ChangeKind::Removed, true);
    assert_eq!(a, EventAction::DropKind);
    let a = classify_event(&rules, "root", "root/a/b.txt", ChangeKind::Other, true);
    assert_eq!(a, EventAction::DropKind);
}

#[test]
fn non_files_are_dropped() {
    let rules = ruleset(&[]);
    let a = classify_event(&rules, "root", "root/a", ChangeKind::Created, false);
    assert_eq!(a, EventAction::DropNotFile);
}

#[test]
fn ignored_paths_are_never_tracked() {
    let rules = ruleset(&["*.log"]);
    let a = classify_event(&rules, "root", "root/a/x.log", ChangeKind::Modified, true);
    assert_eq!(a, EventAction::DropIgnored);
    let a = classify_event(&rules, "root", "root/.git/HEAD", ChangeKind::Modified, true);
    assert_eq!(a, EventAction::DropIgnored);
}

#[test]
fn tracked_path_is_root_relative_and_normalized() {
    let rules = ruleset(&[]);
    let a = classify_event(&rules, "C:\\work\\root", "C:\\work\\root\\a\\b.txt", ChangeKind::Modified, true);
    assert_eq!(a, EventAction::Track { rel_path: "a/b.txt".to_string() });
    // A root given with a trailing separator anchors the same way.
    let a = classify_event(&rules, "root/", "root/a/b.txt", ChangeKind::Modified, true);
    assert_eq!(a, EventAction::Track { rel_path: "a/b.txt".to_string() });
}

#[test]
fn nested_rule_file_filters_events() {
    // Root holds a/b.txt and a rule file in a/ with *.log: an event
    // for a fresh a/x.log is dropped, one for a fresh a/y.txt tracked.
    let rules = IgnoreRuleSet::build(vec![RuleFile {
        dir: "a".to_string(),
        lines: vec!["*.log".to_string()],
    }])
    .unwrap();
    let a = classify_event(&rules, "root", "root/a/x.log", ChangeKind::Created, true);
    assert_eq!(a, EventAction::DropIgnored);
    let a = classify_event(&rules, "root", "root/a/y.txt", ChangeKind::Created, true);
    assert_eq!(a, EventAction::Track { rel_path: "a/y.txt".to_string() });
    let a = classify_event(&rules, "root", "root/a/b.txt", ChangeKind::Modified, true);
    assert_eq!(a, EventAction::Track { rel_path: "a/b.txt".to_string() });
}
