//! The one-time scan over a directory tree.
//!
//! The walk itself is the caller's business; the decisions are here.
//! A directory the rules mark Ignore is pruned — its whole subtree is
//! skipped, not merely the entry. A file is accepted unless the rules
//! mark it Ignore. The scan runs to completion whatever happens to a
//! single file: a failed upload only moves that file from the accepted
//! count to the failed count.

use vstd::prelude::*;

use crate::ignore_rules::IgnoreRuleSet;
use crate::ignore_rules::ScopeView;
use crate::ignore_rules::Verdict;
use crate::ignore_rules::spec_matches;

verus! {

/// One entry of the walked tree, by its root-relative, forward-slash
/// path.
pub struct ScanEntry {
    pub rel_path: String,
    pub is_dir: bool,
}

/// The counts a completed scan reports.
#[derive(PartialEq, Eq, Structural, Clone, Copy, Debug)]
pub struct ScanReport {
    pub accepted: usize,
    pub skipped: usize,
    pub failed: usize,
}

/// Whether the scan forwards this entry for upload: only files the
/// rules do not mark Ignore.
pub open spec fn entry_accepted(scopes: Seq<ScopeView>, e: ScanEntry) -> bool {
    !e.is_dir && spec_matches(scopes, e.rel_path@, e.is_dir) != Verdict::Ignore
}

/// Whether the scan skips this entry: any entry the rules mark Ignore.
pub open spec fn entry_skipped(scopes: Seq<ScopeView>, e: ScanEntry) -> bool {
    spec_matches(scopes, e.rel_path@, e.is_dir) == Verdict::Ignore
}

/// The accepted paths of a walked tree, in walk order.
pub open spec fn accepted_paths(scopes: Seq<ScopeView>, es: Seq<ScanEntry>) -> Seq<Seq<char>>
    decreases es.len(),
{
    if es.len() == 0 {
        Seq::empty()
    } else if entry_accepted(scopes, es.last()) {
        accepted_paths(scopes, es.drop_last()).push(es.last().rel_path@)
    } else {
        accepted_paths(scopes, es.drop_last())
    }
}

/// How many entries of a walked tree the scan skips.
pub open spec fn skipped_count(scopes: Seq<ScopeView>, es: Seq<ScanEntry>) -> nat
    decreases es.len(),
{
    if es.len() == 0 {
        0
    } else {
        skipped_count(scopes, es.drop_last()) + (if entry_skipped(scopes, es.last()) {
            1nat
        } else {
            0nat
        })
    }
}

/// Whether the walk should enter this directory: an ignored directory
/// prunes its whole subtree.
pub fn should_descend(rules: &IgnoreRuleSet, rel_dir: &str) -> (b: bool)
    requires
        rules.wf(),
    ensures
        b == (spec_matches(rules@, rel_dir@, true) != Verdict::Ignore),
{
    rules.matches(rel_dir, true) != Verdict::Ignore
}

/// Decides the fate of every walked entry: returns the accepted files'
/// paths in walk order, and the report counting every accepted file and
/// every skipped entry, with no failures yet.
pub fn scan_plan(rules: &IgnoreRuleSet, entries: &Vec<ScanEntry>) -> (r: (Vec<String>, ScanReport))
    requires
        rules.wf(),
    ensures
        r.0@.map_values(|s: String| s@) == accepted_paths(rules@, entries@),
        r.1.accepted == r.0@.len(),
        r.1.skipped == skipped_count(rules@, entries@),
        r.1.failed == 0,
{
    let n = entries.len();
    let mut accepted: Vec<String> = Vec::new();
    let mut skipped: usize = 0;
    let mut i: usize = 0;
    while i < n
        invariant
            n == entries@.len(),
            i <= n,
            rules.wf(),
            skipped <= i,
            accepted@.map_values(|s: String| s@) =~= accepted_paths(rules@, entries@.take(i as int)),
            skipped == skipped_count(rules@, entries@.take(i as int)),
        decreases n - i,
    {
        let ghost old_accepted = accepted@;
        let e = &entries[i];
        let v = rules.matches(e.rel_path.as_str(), e.is_dir);
        if v == Verdict::Ignore {
            skipped = skipped + 1;
        } else if !e.is_dir {
            accepted.push(e.rel_path.clone());
        }
        proof {
            let f = |s: String| s@;
            assert(entries@.take(i + 1).drop_last() =~= entries@.take(i as int));
            assert(entries@.take(i + 1).last() == entries@[i as int]);
            if entry_accepted(rules@, entries@[i as int]) {
                assert(accepted@.map_values(f) =~= old_accepted.map_values(f).push(
                    entries@[i as int].rel_path@,
                ));
            } else {
                assert(accepted@.map_values(f) =~= old_accepted.map_values(f));
            }
        }
        i = i + 1;
    }
    proof {
        assert(entries@.take(n as int) =~= entries@);
    }
    let report = ScanReport { accepted: accepted.len(), skipped, failed: 0 };
    (accepted, report)
}

impl ScanReport {
    /// Moves one file from the accepted count to the failed count: its
    /// read or upload failed after the scan had accepted it. The scan
    /// itself goes on.
    pub fn record_failure(&mut self)
        requires
            old(self).accepted > 0,
            old(self).failed < usize::MAX,
        ensures
            final(self).accepted == old(self).accepted - 1,
            final(self).failed == old(self).failed + 1,
            final(self).skipped == old(self).skipped,
    {
        self.accepted = self.accepted - 1;
        self.failed = self.failed + 1;
    }
}

} // verus!
