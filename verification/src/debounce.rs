//! Per-path debouncing.
//!
//! A path that keeps changing is held in a pending table keyed by the path;
//! every event refreshes its timestamp, and a periodic sweep hands out the
//! paths whose last change has aged past the quiescence window, removing
//! them from the table in the same atomic step.
//!
//! The table is specified as a map from path to the time of the last
//! observed change. A separate single-path transition model at the end of
//! this file states the coalescing and window-reset laws of the scheme.

use vstd::prelude::*;

use crate::kvmap::KvEntry;
use crate::kvmap::KvVec;
use crate::kvmap::lemma_kv_map_dom;
use crate::kvmap::lemma_kv_map_values;

verus! {

/// The keys of `m` whose entry has aged at least `w` by time `now`.
pub open spec fn ready_set(m: Map<Seq<char>, u64>, now: u64, w: u64) -> Set<Seq<char>> {
    Set::new(|k: Seq<char>| m.contains_key(k) && m[k] + w <= now)
}

/// The keys of the entries that have aged at least `w` by time `now`, in
/// table order.
pub open spec fn ready_keys_of(es: Seq<KvEntry<u64>>, now: u64, w: u64) -> Seq<Seq<char>>
    decreases es.len(),
{
    if es.len() == 0 {
        Seq::empty()
    } else if es.last().val + w <= now {
        ready_keys_of(es.drop_last(), now, w).push(es.last().key@)
    } else {
        ready_keys_of(es.drop_last(), now, w)
    }
}

/// Membership and distinctness of `ready_keys_of`.
proof fn lemma_ready_keys_of(es: Seq<KvEntry<u64>>, now: u64, w: u64)
    requires
        crate::kvmap::keys_distinct(es),
    ensures
        forall|k: Seq<char>|
            ready_keys_of(es, now, w).contains(k) <==> exists|idx: int|
                0 <= idx < es.len() && #[trigger] es[idx].key@ == k && es[idx].val + w <= now,
        ready_keys_of(es, now, w).no_duplicates(),
    decreases es.len(),
{
    let rk = ready_keys_of(es, now, w);
    if es.len() == 0 {
    } else {
        let dl = es.drop_last();
        lemma_ready_keys_of(dl, now, w);
        let rkd = ready_keys_of(dl, now, w);
        assert forall|k: Seq<char>| rk.contains(k) implies exists|idx: int|
            0 <= idx < es.len() && #[trigger] es[idx].key@ == k && es[idx].val + w <= now by {
            if rkd.contains(k) {
                let idx = choose|idx: int|
                    0 <= idx < dl.len() && #[trigger] dl[idx].key@ == k && dl[idx].val + w <= now;
                assert(es[idx].key@ == k && es[idx].val + w <= now);
            } else {
                assert(es.last().val + w <= now && es.last().key@ == k);
                assert(es[es.len() - 1].key@ == k);
            }
        }
        assert forall|k: Seq<char>|
            (exists|idx: int|
                0 <= idx < es.len() && #[trigger] es[idx].key@ == k && es[idx].val + w
                    <= now) implies rk.contains(k) by {
            let idx = choose|idx: int|
                0 <= idx < es.len() && #[trigger] es[idx].key@ == k && es[idx].val + w <= now;
            if idx < es.len() - 1 {
                assert(dl[idx].key@ == k && dl[idx].val + w <= now);
                assert(rkd.contains(k));
                let j = choose|j: int| 0 <= j < rkd.len() && rkd[j] == k;
                assert(rk[j] == k);
            } else {
                assert(rk.last() == k);
            }
        }
        if es.last().val + w <= now {
            assert(!rkd.contains(es.last().key@)) by {
                if rkd.contains(es.last().key@) {
                    let idx = choose|idx: int|
                        0 <= idx < dl.len() && #[trigger] dl[idx].key@ == es.last().key@
                            && dl[idx].val + w <= now;
                    assert(es[idx].key@ == es[es.len() - 1].key@);
                }
            }
            assert(rk.drop_last() =~= rkd);
            assert forall|p: int, q: int| 0 <= p < q < rk.len() implies rk[p] != rk[q] by {
                if q < rk.len() - 1 {
                    assert(rkd[p] == rk[p] && rkd[q] == rk[q]);
                } else {
                    assert(rkd[p] == rk[p]);
                    if rk[p] == rk[q] {
                        assert(rkd.contains(es.last().key@));
                    }
                }
            }
        }
    }
}

/// The pending-paths table with its quiescence window (both in the same
/// time unit, typically milliseconds).
pub struct DebounceTable {
    pub table: KvVec<u64>,
    pub window: u64,
}

impl View for DebounceTable {
    type V = Map<Seq<char>, u64>;

    open spec fn view(&self) -> Map<Seq<char>, u64> {
        self.table@
    }
}

impl DebounceTable {
    /// At most one pending entry per path.
    pub open spec fn wf(self) -> bool {
        self.table.wf()
    }

    /// An empty table with the given quiescence window.
    pub fn new(window: u64) -> (r: DebounceTable)
        ensures
            r.wf(),
            r@ =~= Map::<Seq<char>, u64>::empty(),
            r.window == window,
    {
        DebounceTable { table: KvVec::new(), window }
    }

    /// Records a qualifying event for `path` at time `now`: the path
    /// becomes (or stays) pending and its window restarts at `now`.
    pub fn record_event(&mut self, path: &str, now: u64)
        requires
            old(self).wf(),
        ensures
            final(self).wf(),
            final(self).window == old(self).window,
            final(self)@ =~= old(self)@.insert(path@, now),
    {
        self.table.insert(String::from_str(path), now);
    }

    /// The number of paths currently pending.
    pub fn pending_count(&self) -> (r: usize)
        requires
            self.wf(),
        ensures
            r == self@.len(),
    {
        self.table.len()
    }

    /// Removes every pending path whose last change is at least one window
    /// old and returns those paths, each exactly once.
    pub fn sweep(&mut self, now: u64) -> (ready: Vec<String>)
        requires
            old(self).wf(),
        ensures
            final(self).wf(),
            final(self).window == old(self).window,
            final(self)@ =~= old(self)@.remove_keys(
                ready_set(old(self)@, now, old(self).window),
            ),
            forall|p: int, q: int| 0 <= p < q < ready@.len() ==> ready@[p]@ != ready@[q]@,
            forall|j: int|
                0 <= j < ready@.len() ==> ready_set(old(self)@, now, old(self).window).contains(
                    #[trigger] ready@[j]@,
                ),
            forall|k: Seq<char>|
                ready_set(old(self)@, now, old(self).window).contains(k) ==> exists|j: int|
                    0 <= j < ready@.len() && #[trigger] ready@[j]@ == k,
    {
        let w = self.window;
        let ghost m = self.table@;
        let ghost es = self.table.entries@;
        proof {
            lemma_kv_map_dom(es);
            lemma_kv_map_values(es);
        }
        let n = self.table.entries.len();
        let mut ready: Vec<String> = Vec::new();
        let mut i: usize = 0;
        while i < n
            invariant
                n == es.len(),
                es == self.table.entries@,
                i <= n,
                crate::kvmap::keys_distinct(es),
                ready@.map_values(|s: String| s@) =~= ready_keys_of(es.take(i as int), now, w),
            decreases n - i,
        {
            let ghost old_ready = ready@;
            let ts = self.table.entries[i].val;
            if now >= ts && now - ts >= w {
                ready.push(self.table.entries[i].key.clone());
            }
            proof {
                let f = |s: String| s@;
                assert(es.take(i + 1).drop_last() =~= es.take(i as int));
                assert(es.take(i + 1).last() == es[i as int]);
                if es[i as int].val + w <= now {
                    assert(ready@.map_values(f) =~= old_ready.map_values(f).push(
                        es[i as int].key@,
                    ));
                } else {
                    assert(ready@.map_values(f) =~= old_ready.map_values(f));
                }
            }
            i = i + 1;
        }
        proof {
            assert(es.take(n as int) =~= es);
            lemma_ready_keys_of(es, now, w);
            let rv = ready@.map_values(|s: String| s@);
            let rk = ready_keys_of(es, now, w);
            assert forall|p: int, q: int| 0 <= p < q < ready@.len() implies ready@[p]@
                != ready@[q]@ by {
                assert(rv[p] == ready@[p]@ && rv[q] == ready@[q]@);
            }
            assert forall|j: int| 0 <= j < ready@.len() implies ready_set(m, now, w).contains(
                #[trigger] ready@[j]@,
            ) by {
                assert(rv[j] == ready@[j]@);
                assert(rk.contains(ready@[j]@));
                let idx = choose|idx: int|
                    0 <= idx < es.len() && #[trigger] es[idx].key@ == ready@[j]@ && es[idx].val + w
                        <= now;
                assert(m.contains_key(es[idx].key@) && m[es[idx].key@] == es[idx].val);
            }
            assert forall|k: Seq<char>| ready_set(m, now, w).contains(k) implies exists|j: int|
                0 <= j < ready@.len() && #[trigger] ready@[j]@ == k by {
                let idx = choose|idx: int| 0 <= idx < es.len() && #[trigger] es[idx].key@ == k;
                assert(m[es[idx].key@] == es[idx].val);
                assert(es[idx].val + w <= now);
                assert(rk.contains(k));
                let j = choose|j: int| 0 <= j < rk.len() && rk[j] == k;
                assert(ready@[j]@ == rv[j]);
            }
        }
        let r = ready.len();
        let mut j: usize = 0;
        while j < r
            invariant
                r == ready@.len(),
                j <= r,
                self.window == w,
                self.table.wf(),
                forall|p: int, q: int| 0 <= p < q < ready@.len() ==> ready@[p]@ != ready@[q]@,
                forall|jj: int|
                    0 <= jj < ready@.len() ==> ready_set(m, now, w).contains(#[trigger] ready@[jj]@),
                forall|k: Seq<char>|
                    ready_set(m, now, w).contains(k) ==> exists|jj: int|
                        0 <= jj < ready@.len() && #[trigger] ready@[jj]@ == k,
                self.table@ =~= m.remove_keys(
                    Set::new(|k: Seq<char>| exists|p: int| 0 <= p < j && #[trigger] ready@[p]@ == k),
                ),
            decreases r - j,
        {
            self.table.remove(ready[j].as_str());
            proof {
                assert(self.table@ =~= m.remove_keys(
                    Set::new(
                        |k: Seq<char>| exists|p: int| 0 <= p < j + 1 && #[trigger] ready@[p]@ == k,
                    ),
                ));
            }
            j = j + 1;
        }
        proof {
            assert(Set::new(
                |k: Seq<char>| exists|p: int| 0 <= p < r && #[trigger] ready@[p]@ == k,
            ) =~= ready_set(m, now, w));
        }
        ready
    }
}

/// What one path sees of the debouncer: a qualifying event at some time,
/// or a sweep at some time.
pub enum PathOp {
    Event { t: u64 },
    Sweep { t: u64 },
}

/// The time at which the operation happens.
pub open spec fn op_time(op: PathOp) -> u64 {
    match op {
        PathOp::Event { t } => t,
        PathOp::Sweep { t } => t,
    }
}

/// Whether the operation is a qualifying event for the path.
pub open spec fn is_event(op: PathOp) -> bool {
    op is Event
}

/// Whether a sweep at time `t` emits a path in state `st` (`None` is
/// Idle, `Some(last)` is Pending since `last`).
pub open spec fn emits(st: Option<u64>, t: u64, w: u64) -> bool {
    match st {
        Some(last) => last + w <= t,
        None => false,
    }
}

/// One transition of the per-path state machine: an event (re)starts the
/// window, a sweep that finds the entry ripe removes it.
pub open spec fn step_state(st: Option<u64>, op: PathOp, w: u64) -> Option<u64> {
    match op {
        PathOp::Event { t } => Some(t),
        PathOp::Sweep { t } => if emits(st, t, w) {
            None
        } else {
            st
        },
    }
}

/// The state of the path after running a whole trace from Idle.
pub open spec fn run_state(ops: Seq<PathOp>, w: u64) -> Option<u64>
    decreases ops.len(),
{
    if ops.len() == 0 {
        None
    } else {
        step_state(run_state(ops.drop_last(), w), ops.last(), w)
    }
}

/// How many times the path was emitted over a whole trace.
pub open spec fn emission_count(ops: Seq<PathOp>, w: u64) -> nat
    decreases ops.len(),
{
    if ops.len() == 0 {
        0
    } else {
        emission_count(ops.drop_last(), w) + (if !is_event(ops.last()) && emits(
            run_state(ops.drop_last(), w),
            op_time(ops.last()),
            w,
        ) {
            1nat
        } else {
            0nat
        })
    }
}

/// The index of the last event of the trace, or -1 if there is none.
pub open spec fn last_event_index(ops: Seq<PathOp>) -> int
    decreases ops.len(),
{
    if ops.len() == 0 {
        -1
    } else if is_event(ops.last()) {
        ops.len() - 1
    } else {
        last_event_index(ops.drop_last())
    }
}

/// Times never go backwards along a trace.
pub open spec fn times_monotone(ops: Seq<PathOp>) -> bool {
    forall|i: int, j: int|
        0 <= i <= j < ops.len() ==> op_time(#[trigger] ops[i]) <= op_time(#[trigger] ops[j])
}

/// Every event arrives less than `w` after the event before it.
pub open spec fn gaps_within(ops: Seq<PathOp>, w: u64) -> bool {
    forall|j: int|
        0 <= j < ops.len() && is_event(#[trigger] ops[j]) ==> (last_event_index(ops.take(j)) == -1
            || op_time(ops[j]) < op_time(ops[last_event_index(ops.take(j))]) + w)
}

/// No sweep of the trace happens a full window after the event that
/// precedes it.
pub open spec fn no_ripe_sweep(ops: Seq<PathOp>, w: u64) -> bool {
    forall|k: int|
        0 <= k < ops.len() && !is_event(#[trigger] ops[k]) ==> (last_event_index(ops.take(k)) == -1
            || op_time(ops[k]) < op_time(ops[last_event_index(ops.take(k))]) + w)
}

/// A sweep after the last event of the trace, late enough to emit.
pub open spec fn ripe_sweep_at(ops: Seq<PathOp>, k: int, w: u64) -> bool {
    &&& 0 <= k < ops.len()
    &&& !is_event(ops[k])
    &&& k > last_event_index(ops)
    &&& op_time(ops[last_event_index(ops)]) + w <= op_time(ops[k])
}

/// Basic bounds on `last_event_index`.
proof fn lemma_last_event_index(ops: Seq<PathOp>)
    ensures
        -1 <= last_event_index(ops) < ops.len(),
        last_event_index(ops) >= 0 ==> is_event(ops[last_event_index(ops)]),
        forall|k: int| last_event_index(ops) < k < ops.len() ==> !is_event(#[trigger] ops[k]),
    decreases ops.len(),
{
    if ops.len() == 0 {
    } else if is_event(ops.last()) {
    } else {
        lemma_last_event_index(ops.drop_last());
        let e = last_event_index(ops);
        if e >= 0 {
            assert(is_event(ops.drop_last()[e]));
            assert(ops[e] == ops.drop_last()[e]);
        }
        assert forall|k: int| e < k < ops.len() implies !is_event(#[trigger] ops[k]) by {
            if k == ops.len() - 1 {
                assert(ops[k] == ops.last());
            } else {
                assert(ops[k] == ops.drop_last()[k]);
            }
        }
    }
}

/// `times_monotone` restricts to any prefix.
proof fn lemma_monotone_restrict(ops: Seq<PathOp>, m: int)
    requires
        times_monotone(ops),
        0 <= m <= ops.len(),
    ensures
        times_monotone(ops.take(m)),
{
    let pre = ops.take(m);
    assert forall|i: int, j: int| 0 <= i <= j < pre.len() implies op_time(#[trigger] pre[i])
        <= op_time(#[trigger] pre[j]) by {
        assert(pre[i] == ops[i] && pre[j] == ops[j]);
    }
}

/// One instance of `gaps_within` carried over to a prefix.
proof fn lemma_gaps_restrict_one(ops: Seq<PathOp>, w: u64, m: int, j: int)
    requires
        gaps_within(ops, w),
        0 <= j < m <= ops.len(),
        is_event(ops.take(m)[j]),
    ensures
        last_event_index(ops.take(m).take(j)) == -1 || op_time(ops.take(m)[j]) < op_time(
            ops.take(m)[last_event_index(ops.take(m).take(j))],
        ) + w,
{
    let pre = ops.take(m);
    assert(pre[j] == ops[j]);
    assert(pre.take(j) =~= ops.take(j));
    let p = last_event_index(ops.take(j));
    lemma_last_event_index(ops.take(j));
    if p >= 0 {
        assert(pre[p] == ops[p]);
    }
}

/// `gaps_within` restricts to any prefix.
proof fn lemma_gaps_restrict(ops: Seq<PathOp>, w: u64, m: int)
    requires
        gaps_within(ops, w),
        0 <= m <= ops.len(),
    ensures
        gaps_within(ops.take(m), w),
{
    let pre = ops.take(m);
    assert forall|j: int| 0 <= j < pre.len() && is_event(#[trigger] pre[j]) implies (
    last_event_index(pre.take(j)) == -1 || op_time(pre[j]) < op_time(
        pre[last_event_index(pre.take(j))],
    ) + w) by {
        lemma_gaps_restrict_one(ops, w, m, j);
    }
}

/// One instance of `no_ripe_sweep` carried over to a prefix.
proof fn lemma_no_ripe_restrict_one(ops: Seq<PathOp>, w: u64, m: int, k: int)
    requires
        no_ripe_sweep(ops, w),
        0 <= k < m <= ops.len(),
        !is_event(ops.take(m)[k]),
    ensures
        last_event_index(ops.take(m).take(k)) == -1 || op_time(ops.take(m)[k]) < op_time(
            ops.take(m)[last_event_index(ops.take(m).take(k))],
        ) + w,
{
    let pre = ops.take(m);
    assert(pre[k] == ops[k]);
    assert(pre.take(k) =~= ops.take(k));
    let p = last_event_index(ops.take(k));
    lemma_last_event_index(ops.take(k));
    if p >= 0 {
        assert(pre[p] == ops[p]);
    }
}

/// `no_ripe_sweep` restricts to any prefix.
proof fn lemma_no_ripe_restrict(ops: Seq<PathOp>, w: u64, m: int)
    requires
        no_ripe_sweep(ops, w),
        0 <= m <= ops.len(),
    ensures
        no_ripe_sweep(ops.take(m), w),
{
    let pre = ops.take(m);
    assert forall|k: int| 0 <= k < pre.len() && !is_event(#[trigger] pre[k]) implies (
    last_event_index(pre.take(k)) == -1 || op_time(pre[k]) < op_time(
        pre[last_event_index(pre.take(k))],
    ) + w) by {
        lemma_no_ripe_restrict_one(ops, w, m, k);
    }
}

/// `last_event_index` of a prefix does not move while the added span
/// holds no event.
proof fn lemma_last_event_stable(ops: Seq<PathOp>, a: int, b: int)
    requires
        0 <= a <= b <= ops.len(),
        forall|k: int| a <= k < b ==> !is_event(#[trigger] ops[k]),
    ensures
        last_event_index(ops.take(b)) == last_event_index(ops.take(a)),
    decreases b - a,
{
    if a == b {
    } else {
        assert(ops.take(b).drop_last() =~= ops.take(b - 1));
        assert(ops.take(b).last() == ops[b - 1]);
        lemma_last_event_stable(ops, a, b - 1);
    }
}

/// The smallest event index at or after `k`, or -1 if there is none.
spec fn first_event_from(ops: Seq<PathOp>, k: nat) -> int
    decreases ops.len() - k,
{
    if k >= ops.len() {
        -1
    } else if is_event(ops[k as int]) {
        k as int
    } else {
        first_event_from(ops, k + 1)
    }
}

/// What `first_event_from` finds.
proof fn lemma_first_event_from(ops: Seq<PathOp>, k: nat)
    requires
        k <= ops.len(),
    ensures
        -1 <= first_event_from(ops, k) < ops.len(),
        first_event_from(ops, k) == -1 ==> forall|j: int|
            k <= j < ops.len() ==> !is_event(#[trigger] ops[j]),
        first_event_from(ops, k) >= 0 ==> k <= first_event_from(ops, k) < ops.len() && is_event(
            ops[first_event_from(ops, k)],
        ) && forall|j: int| k <= j < first_event_from(ops, k) ==> !is_event(#[trigger] ops[j]),
    decreases ops.len() - k,
{
    if k >= ops.len() {
    } else if is_event(ops[k as int]) {
    } else {
        lemma_first_event_from(ops, k + 1);
    }
}

/// A sweep with an event still ahead of it happens no later than that
/// event, which the gap condition keeps under one window after its
/// predecessor.
#[verifier::rlimit(50)]
proof fn lemma_next_event_bounds_sweep(ops: Seq<PathOp>, w: u64, k: int)
    requires
        times_monotone(ops),
        gaps_within(ops, w),
        0 <= k < ops.len(),
        !is_event(ops[k]),
        last_event_index(ops.take(k)) >= 0,
        last_event_index(ops.take(k)) != last_event_index(ops),
    ensures
        op_time(ops[k]) < op_time(ops[last_event_index(ops.take(k))]) + w,
{
    let e = last_event_index(ops);
    lemma_last_event_index(ops);
    let p = last_event_index(ops.take(k));
    lemma_last_event_index(ops.take(k));
    assert(ops.take(k)[p] == ops[p]);
    assert(is_event(ops[p]));
    assert(p <= e);
    assert(0 <= e < ops.len() && is_event(ops[e]));
    assert(e >= k) by {
        if e < k {
            assert(ops.take(k)[e] == ops[e]);
            assert(e <= p);
        }
    }
    let j = first_event_from(ops, k as nat);
    lemma_first_event_from(ops, k as nat);
    if j == -1 {
        assert(!is_event(ops[e]));
        assert(false);
    }
    assert(0 <= k <= j <= ops.len());
    assert(forall|kk: int| k <= kk < j ==> !is_event(#[trigger] ops[kk]));
    lemma_last_event_stable(ops, k, j);
    assert(last_event_index(ops.take(j)) == p);
    assert(op_time(ops[j]) < op_time(ops[p]) + w);
    assert(op_time(ops[k]) <= op_time(ops[j]));
}

/// One sweep of a trace whose post-last-event sweeps all come early:
/// this sweep too comes less than a window after the event before it.
#[verifier::rlimit(50)]
proof fn lemma_no_ripe_one(ops: Seq<PathOp>, w: u64, k: int)
    requires
        times_monotone(ops),
        gaps_within(ops, w),
        forall|kk: int|
            0 <= kk < ops.len() && !is_event(#[trigger] ops[kk]) && kk > last_event_index(ops)
                && last_event_index(ops) >= 0 ==> op_time(ops[kk]) < op_time(
                ops[last_event_index(ops)],
            ) + w,
        0 <= k < ops.len(),
        !is_event(ops[k]),
        last_event_index(ops.take(k)) >= 0,
    ensures
        op_time(ops[k]) < op_time(ops[last_event_index(ops.take(k))]) + w,
{
    let e = last_event_index(ops);
    lemma_last_event_index(ops);
    let p = last_event_index(ops.take(k));
    lemma_last_event_index(ops.take(k));
    assert(ops.take(k)[p] == ops[p]);
    assert(is_event(ops[p]));
    assert(p <= e);
    if p == e {
        assert(p < k);
    } else {
        lemma_next_event_bounds_sweep(ops, w, k);
    }
}

/// If every sweep after the last event of the trace comes early, then no
/// sweep anywhere in the trace comes a full window after the event that
/// precedes it: a sweep with a later event ahead of it is bounded by that
/// event's time, which the gap condition keeps under one window.
proof fn lemma_no_ripe_sweep_from_tail(ops: Seq<PathOp>, w: u64)
    requires
        times_monotone(ops),
        gaps_within(ops, w),
        forall|kk: int|
            0 <= kk < ops.len() && !is_event(#[trigger] ops[kk]) && kk > last_event_index(ops)
                && last_event_index(ops) >= 0 ==> op_time(ops[kk]) < op_time(
                ops[last_event_index(ops)],
            ) + w,
    ensures
        no_ripe_sweep(ops, w),
{
    assert forall|k: int|
        0 <= k < ops.len() && !is_event(#[trigger] ops[k]) implies (last_event_index(ops.take(k))
        == -1 || op_time(ops[k]) < op_time(ops[last_event_index(ops.take(k))]) + w) by {
        lemma_last_event_index(ops.take(k));
        if last_event_index(ops.take(k)) >= 0 {
            lemma_no_ripe_one(ops, w, k);
        }
    }
}

/// A trace whose sweeps all come too early emits nothing, and leaves the
/// path Pending since its last event (Idle if there was none).
#[verifier::rlimit(50)]
proof fn lemma_quiet_run(ops: Seq<PathOp>, w: u64)
    requires
        times_monotone(ops),
        gaps_within(ops, w),
        no_ripe_sweep(ops, w),
    ensures
        emission_count(ops, w) == 0,
        run_state(ops, w) == (if last_event_index(ops) == -1 {
            None::<u64>
        } else {
            Some(op_time(ops[last_event_index(ops)]))
        }),
    decreases ops.len(),
{
    if ops.len() == 0 {
    } else {
        let n = ops.len();
        let dl = ops.drop_last();
        assert(dl =~= ops.take(n - 1));
        lemma_monotone_restrict(ops, n - 1);
        lemma_gaps_restrict(ops, w, n - 1);
        lemma_no_ripe_restrict(ops, w, n - 1);
        lemma_quiet_run(dl, w);
        lemma_last_event_index(ops);
        lemma_last_event_index(dl);
        if is_event(ops.last()) {
            assert(last_event_index(ops) == n - 1);
            assert(ops[n - 1] == ops.last());
        } else {
            let p = last_event_index(dl);
            assert(last_event_index(ops) == p);
            assert(ops[n - 1] == ops.last());
            if p >= 0 {
                assert(dl[p] == ops[p]);
                assert(!is_event(ops[n - 1]));
                assert(last_event_index(ops.take(n - 1)) == p);
                assert(op_time(ops[n - 1]) < op_time(ops.take(n - 1)[p]) + w);
                assert(ops.take(n - 1)[p] == ops[p]);
                assert(op_time(ops.last()) < op_time(ops[p]) + w);
                assert(run_state(dl, w) == Some(op_time(dl[p])));
                assert(!emits(run_state(dl, w), op_time(ops.last()), w));
            } else {
                assert(p == -1);
                assert(run_state(dl, w) == None::<u64>);
            }
        }
    }
}

/// Debounce coalescing: over any trace whose events all land within one
/// window of their predecessor and which contains at least one sweep a
/// full window after the last event, the path is emitted exactly once,
/// and the path ends Idle.
#[verifier::rlimit(50)]
pub proof fn lemma_debounce_coalesces(ops: Seq<PathOp>, w: u64)
    requires
        times_monotone(ops),
        gaps_within(ops, w),
        last_event_index(ops) >= 0,
        exists|k: int| ripe_sweep_at(ops, k, w),
    ensures
        emission_count(ops, w) == 1,
        run_state(ops, w) == None::<u64>,
    decreases ops.len(),
{
    let n = ops.len();
    let e = last_event_index(ops);
    lemma_last_event_index(ops);
    let k0 = choose|k: int| ripe_sweep_at(ops, k, w);
    if is_event(ops.last()) {
        assert(e == n - 1);
        assert(false);
    } else {
        let dl = ops.drop_last();
        assert(dl =~= ops.take(n - 1));
        lemma_monotone_restrict(ops, n - 1);
        lemma_gaps_restrict(ops, w, n - 1);
        assert(last_event_index(dl) == e);
        assert(forall|k: int| 0 <= k < dl.len() ==> dl[k] == #[trigger] ops[k]);
        if exists|k: int| ripe_sweep_at(dl, k, w) {
            lemma_debounce_coalesces(dl, w);
        } else {
            assert forall|kk: int|
                0 <= kk < dl.len() && !is_event(#[trigger] dl[kk]) && kk > last_event_index(dl)
                    && last_event_index(dl) >= 0 implies op_time(dl[kk]) < op_time(
                dl[last_event_index(dl)],
            ) + w by {
                assert(!ripe_sweep_at(dl, kk, w));
            }
            lemma_no_ripe_sweep_from_tail(dl, w);
            lemma_quiet_run(dl, w);
            assert(k0 == n - 1) by {
                if k0 < n - 1 {
                    assert(ripe_sweep_at(dl, k0, w));
                }
            }
            assert(dl[e] == ops[e]);
            assert(run_state(dl, w) == Some(op_time(ops[e])));
            assert(ops[k0] == ops.last());
            assert(emits(run_state(dl, w), op_time(ops.last()), w));
        }
    }
}

/// Debounce timing: the single emission of a coalesced burst happens at
/// the first sweep that is a full window past the last event; no sweep
/// before that one emits. With a sweep tick shorter than the window this
/// puts the emission within one tick after `last event + w`.
#[verifier::rlimit(50)]
pub proof fn lemma_emission_at_first_ripe_sweep(ops: Seq<PathOp>, w: u64, j: int)
    requires
        times_monotone(ops),
        gaps_within(ops, w),
        last_event_index(ops) >= 0,
        last_event_index(ops) < j < ops.len(),
        !is_event(ops[j]),
        op_time(ops[last_event_index(ops)]) + w <= op_time(ops[j]),
        forall|k: int|
            last_event_index(ops) < k < j && !is_event(#[trigger] ops[k]) ==> op_time(ops[k])
                < op_time(ops[last_event_index(ops)]) + w,
    ensures
        emission_count(ops.take(j), w) == 0,
        emission_count(ops.take(j + 1), w) == 1,
{
    let e = last_event_index(ops);
    lemma_last_event_index(ops);
    let pre = ops.take(j);
    assert(forall|k: int| 0 <= k < j ==> pre[k] == #[trigger] ops[k]);
    lemma_monotone_restrict(ops, j);
    lemma_gaps_restrict(ops, w, j);
    assert(last_event_index(pre) == e) by {
        lemma_last_event_stable(ops, e + 1, j);
        assert(ops.take(e + 1).last() == ops[e]);
        assert(ops.take(e + 1).drop_last() =~= ops.take(e));
        assert(last_event_index(ops.take(e + 1)) == e);
    }
    assert forall|k: int|
        0 <= k < pre.len() && !is_event(#[trigger] pre[k]) && k > last_event_index(pre)
            && last_event_index(pre) >= 0 implies op_time(pre[k]) < op_time(
        pre[last_event_index(pre)],
    ) + w by {
        assert(!is_event(ops[k]) && e < k < j);
        assert(op_time(ops[k]) < op_time(ops[e]) + w);
        assert(pre[e] == ops[e]);
    }
    lemma_no_ripe_sweep_from_tail(pre, w);
    lemma_quiet_run(pre, w);
    assert(pre[e] == ops[e]);
    assert(run_state(pre, w) == Some(op_time(ops[e])));
    assert(ops.take(j + 1).drop_last() =~= pre);
    assert(ops.take(j + 1).last() == ops[j]);
    assert(emits(run_state(pre, w), op_time(ops[j]), w));
}

/// Debounce reset: after an event at time `t`, a sweep at time `s` emits
/// the path exactly when `t + w <= s`, whatever the path's earlier state
/// was — each new edit defers the emission to a full window after itself.
pub proof fn lemma_event_resets_window(st: Option<u64>, t: u64, s: u64, w: u64)
    ensures
        emits(step_state(st, PathOp::Event { t }, w), s, w) <==> t + w <= s,
{
}

/// The pending table treats paths independently, and a sweep emits a path
/// exactly when the single-path machine emits from its recorded state:
/// `record_event` and `sweep` refine the model above pointwise.
pub proof fn lemma_table_refines_path_model(m: Map<Seq<char>, u64>, p: Seq<char>, now: u64, w: u64)
    ensures
        m.insert(p, now)[p] == now,
        forall|k: Seq<char>| k != p && m.contains_key(k) ==> m.insert(p, now)[k] == m[k],
        forall|k: Seq<char>| k != p ==> m.insert(p, now).contains_key(k) == m.contains_key(k),
        m.contains_key(p) ==> (ready_set(m, now, w).contains(p) <==> emits(
            Some(m[p]),
            now,
            w,
        )),
        !m.contains_key(p) ==> !ready_set(m, now, w).contains(p),
{
}

} // verus!
