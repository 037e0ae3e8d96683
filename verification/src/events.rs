//! Filesystem-event filtering.
//!
//! Raw notifications arrive with an absolute path and a change kind.
//! Only creations and modifications feed the pipeline; removals are
//! logged by the caller and everything else is dropped. A surviving
//! path must name a regular file, is made relative to the watch root
//! with separators normalized, and must not be excluded by the ignore
//! rules — ignored paths never reach the pending table.

use vstd::prelude::*;

use crate::ignore_rules::IgnoreRuleSet;
use crate::ignore_rules::Verdict;
use crate::ignore_rules::spec_matches;
use crate::paths::normalize_separators;
use crate::paths::rel_to_root;
use crate::paths::relative_to_root;
use crate::paths::sep_normalized;
use crate::paths::trim_trailing;
use crate::paths::trim_trailing_slashes;

verus! {

/// The canonical kind of a raw filesystem event.
#[derive(PartialEq, Eq, Structural, Clone, Copy, Debug)]
pub enum ChangeKind {
    Created,
    Modified,
    Removed,
    Other,
}

/// What the pipeline does with one raw event path.
#[derive(PartialEq, Eq, Debug)]
pub enum EventAction {
    /// Track the path in the pending table, under this root-relative,
    /// forward-slash form.
    Track { rel_path: String },
    /// The change kind is not forwarded (a removal is only logged).
    DropKind,
    /// The path does not name a regular file.
    DropNotFile,
    /// The ignore rules or the metadata exclusion reject the path.
    DropIgnored,
}

/// Only creations and modifications feed the pipeline.
pub open spec fn qualifying_kind(k: ChangeKind) -> bool {
    k == ChangeKind::Created || k == ChangeKind::Modified
}

/// The root-relative form of an event path: both sides get their
/// separators normalized, the root loses trailing slashes, and the root
/// prefix is stripped.
pub open spec fn event_rel_path(root: Seq<char>, path: Seq<char>) -> Seq<char> {
    rel_to_root(trim_trailing(sep_normalized(root)), sep_normalized(path))
}

/// Classifies one raw event path. A tracked path is handed back in its
/// root-relative, forward-slash form, ready for the pending table; an
/// ignored path is never tracked.
pub fn classify_event(
    rules: &IgnoreRuleSet,
    root: &str,
    path: &str,
    kind: ChangeKind,
    is_file: bool,
) -> (a: EventAction)
    requires
        rules.wf(),
    ensures
        a matches EventAction::Track { rel_path } ==> rel_path@ == event_rel_path(root@, path@),
        (a matches EventAction::Track { rel_path }) <==> (qualifying_kind(kind) && is_file
            && spec_matches(rules@, event_rel_path(root@, path@), false) != Verdict::Ignore),
        a == EventAction::DropKind <==> !qualifying_kind(kind),
        a == EventAction::DropNotFile <==> (qualifying_kind(kind) && !is_file),
        a == EventAction::DropIgnored <==> (qualifying_kind(kind) && is_file && spec_matches(
            rules@,
            event_rel_path(root@, path@),
            false,
        ) == Verdict::Ignore),
{
    if !(kind == ChangeKind::Created || kind == ChangeKind::Modified) {
        return EventAction::DropKind;
    }
    if !is_file {
        return EventAction::DropNotFile;
    }
    let nroot = normalize_separators(root);
    let troot = trim_trailing_slashes(nroot.as_str());
    let npath = normalize_separators(path);
    let rel = relative_to_root(troot.as_str(), npath.as_str());
    let v = rules.matches(rel.as_str(), false);
    if v == Verdict::Ignore {
        return EventAction::DropIgnored;
    }
    EventAction::Track { rel_path: rel }
}

} // verus!
