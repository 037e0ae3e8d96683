use ricesearch::ignore_rules::IgnoreRuleSet;
use ricesearch::ignore_rules::RuleFile;
use ricesearch::scanner::ScanEntry;
use ricesearch::scanner::scan_plan;
use ricesearch::scanner::should_descend;

fn ruleset(lines: &[&str]) -> IgnoreRuleSet {
    IgnoreRuleSet::build(vec![RuleFile {
        dir: String::new(),
        lines: lines.iter().map(|l| l.to_string()).collect(),
    }])
    .unwrap()
}

fn file(path: &str) -> ScanEntry {
    ScanEntry { rel_path: path.to_string(), is_dir: false }
}

#[test]
fn scan_counts_accepted_and_skipped() {
    // A tree of 100 files of which 10 match an ignore rule: the scan
    // reports 90 accepted, 10 skipped and, with every read succeeding,
    // 0 failed.
    let rules = ruleset(&["*.log"]);
    let mut entries: Vec<ScanEntry> = Vec::new();
    for i in 0..90 {
        entries.push(file(&format!("src/file{}.rs", i)));
    }
    for i in 0..10 {
        entries.push(file(&format!("logs/run{}.log", i)));
    }
    let (accepted, report) = scan_plan(&rules, &entries);
    assert_eq!(report.accepted, 90);
    assert_eq!(report.skipped, 10);
    assert_eq!(report.failed, 0);
    assert_eq!(accepted.len(), 90);
    assert!(accepted.iter().all(|p| !p.ends_with(".log")));
}

#[test]
fn ignored_directories_are_pruned() {
    let rules = ruleset(&["target/"]);
    assert!(!should_descend(&rules, "target"));
    assert!(should_descend(&rules, "src"));
    // Files under the ignored directory are skipped even if handed in.
    let entries = vec![file("target/debug/app"), file("src/main.rs")];
    let (accepted, report) = scan_plan(&rules, &entries);
    assert_eq!(accepted, vec!["src/main.rs".to_string()]);
    assert_eq!(report.accepted, 1);
    assert_eq!(report.skipped, 1);
}

#[test]
fn metadata_directory_never_scanned() {
    let rules = ruleset(&[]);
    assert!(!should_descend(&rules, ".git"));
    let entries = vec![file(".git/config"), file("README.md")];
    let (accepted, report) = scan_plan(&rules, &entries);
    assert_eq!(accepted, vec!["README.md".to_string()]);
    assert_eq!(report.skipped, 1);
}

#[test]
fn directory_entries_are_not_uploaded() {
    let rules = ruleset(&[]);
    let entries = vec![
        ScanEntry { rel_path: "src".to_string(), is_dir: true },
        file("src/lib.rs"),
    ];
    let (accepted, report) = scan_plan(&rules, &entries);
    assert_eq!(accepted, vec!["src/lib.rs".to_string()]);
    assert_eq!(report.accepted, 1);
    assert_eq!(report.skipped, 0);
}

#[test]
fn failed_upload_moves_the_count() {
    let rules = ruleset(&[]);
    let entries = vec![file("a.txt"), file("b.txt")];
    let (_accepted, mut report) = scan_plan(&rules, &entries);
    assert_eq!((report.accepted, report.failed), (2, 0));
    report.record_failure();
    assert_eq!((report.accepted, report.failed), (1, 1));
    assert_eq!(report.skipped, 0);
}
