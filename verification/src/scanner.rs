//! The traversal engine: a depth-first walk over a directory tree, producing
//! the scan event stream described in [`crate::model::ScanEvent`].
//!
//! The engine performs no filesystem access itself. It is a state machine
//! driven by its caller: [`ScanEngine::next_request`] names the one
//! filesystem operation the engine needs next (stat, list a directory, or
//! canonicalize a symlinked directory), and the caller answers through
//! [`ScanEngine::on_stat`], [`ScanEngine::on_list_dir`] and
//! [`ScanEngine::on_canonicalize`] with plain metadata values. Events go out
//! through the bounded channel as the walk progresses: critical events
//! (reset, warnings, the terminal event) are retried until delivered or the
//! consumer is gone, while node updates may be dropped and progress
//! snapshots are coalesced into a single pending slot when the channel is
//! full. The first such loss is surfaced by exactly one summary warning
//! before the scan ends.

use std::sync::Arc;
use std::sync::atomic::AtomicBool;
use std::sync::atomic::Ordering;

use vstd::prelude::*;
use vstd::seq_lib::*;
use vstd::string::*;

use crate::channel::{send_event_blocking, send_event_timeout, try_send_event, SendAttempt};
use crate::model::{FsEntryKind, NodeSummary, ScanEvent, ScanOptions, ScanProgress};
use crate::text::{sat_add, spec_sat_add, u64_to_string};

verus! {

/// Capacity of the event channel between scanner and consumer.
pub const EVENT_QUEUE_CAPACITY: usize = 8192;

/// A progress snapshot is offered to the channel after this many newly
/// visited entries.
pub const PROGRESS_EMIT_EVERY: u64 = 512;

/// How long one delivery attempt of a critical event waits for space.
pub const CRITICAL_RETRY_MILLIS: u64 = 1;

/// Bounded attempts of the critical retry loop; after the budget the send
/// falls back to a single fully blocking call, so delivery is still only
/// given up when the consumer is gone.
pub const CRITICAL_RETRY_BUDGET: u64 = 3600000;

/// What one stat call reported about an entry, reduced to plain values.
/// `allocated` is the platform's on-disk allocation for the entry and
/// `fs_id` its mount identifier, where known.
#[derive(Debug, Clone, Copy)]
pub struct EntryMeta {
    pub is_symlink: bool,
    pub is_dir: bool,
    pub is_file: bool,
    pub len: u64,
    pub allocated: u64,
    pub fs_id: Option<u64>,
}

/// One directory entry as the caller listed it. `stat` is the result of the
/// non-following stat; `target` must be filled with the result of a
/// following stat whenever `stat` reports a symlink and the scan follows
/// symlinks, and is ignored otherwise.
#[derive(Debug)]
pub struct ListedEntry {
    pub name: String,
    pub path: String,
    pub stat: Result<EntryMeta, String>,
    pub target: Option<Result<EntryMeta, String>>,
}

/// One item of a directory listing: an entry, or a reading error in the
/// middle of the listing (charged to the directory as a warning).
#[derive(Debug)]
pub enum ListedItem {
    Entry(ListedEntry),
    Unreadable(String),
}

/// The one filesystem operation the engine needs next.
#[derive(Debug, Clone)]
pub enum ScanRequest {
    /// Stat this path: without following a final symlink when `follow` is
    /// false, following it when true.
    Stat { path: String, follow: bool },
    /// List the immediate entries of this directory.
    ListDir { path: String },
    /// Resolve this path to its canonical form.
    Canonicalize { path: String },
    /// No filesystem work is needed: call [`ScanEngine::proceed`] so the
    /// walk can finalize or open the next directory.
    Proceed,
    /// The scan is over; no further call will be accepted.
    Done,
}

/// What the contracts say of a directory child the engine has queued: its
/// path, how it was reached, its own sizes, and its emission gate. `emit`
/// says whether the display settings allow node updates for this child;
/// `first_due` whether its provisional update is still owed (it is emitted
/// the moment the child's directory frame opens).
#[verifier::ext_equal]
pub struct PendingView {
    pub path: Seq<char>,
    pub is_symlink: bool,
    pub apparent: u64,
    pub allocated: u64,
    pub emit: bool,
    pub first_due: bool,
    pub depth: nat,
}

pub open spec fn spec_pending_view(
    path: Seq<char>,
    is_symlink: bool,
    apparent: u64,
    allocated: u64,
    emit: bool,
    first_due: bool,
    depth: nat,
) -> PendingView {
    PendingView { path, is_symlink, apparent, allocated, emit, first_due, depth }
}

/// A directory child waiting to be scanned, discovered while listing its
/// parent.
#[derive(Debug, Clone)]
struct PendingChild {
    path: String,
    depth: usize,
    is_symlink_dir: bool,
    meta: EntryMeta,
    need_initial_emit: bool,
    emit_updates: bool,
}

spec fn pending_view(c: PendingChild) -> PendingView {
    PendingView {
        path: c.path@,
        is_symlink: c.is_symlink_dir,
        apparent: c.meta.len,
        allocated: c.meta.allocated,
        emit: c.emit_updates,
        first_due: c.need_initial_emit,
        depth: c.depth as nat,
    }
}

/// One directory being aggregated, on the explicit traversal stack.
struct DirFrame {
    path: String,
    depth: usize,
    is_symlink_dir: bool,
    own_apparent: u64,
    own_allocated: u64,
    apparent_total: u64,
    allocated_total: u64,
    children_count: u64,
    emit_updates: bool,
    pending: Vec<PendingChild>,
    /// Sizes of the children accumulated so far, for the aggregation
    /// invariant.
    kid_sizes: Ghost<Seq<(u64, u64)>>,
}

enum EnginePhase {
    AwaitRootStat,
    AwaitRootTarget,
    AwaitCanonical,
    AwaitList,
    Advancing,
    Finished,
}

/// Left-to-right saturating sum of `init` and the first components of `kids`.
pub open spec fn sat_fold(init: u64, xs: Seq<u64>) -> u64
    decreases xs.len(),
{
    if xs.len() == 0 {
        init
    } else {
        spec_sat_add(sat_fold(init, xs.drop_last()), xs.last())
    }
}

/// Every progress snapshot in the log is bounded by `p`.
pub open spec fn log_progress_below(log: Seq<ScanEvent>, p: ScanProgress) -> bool {
    forall|i: int|
        0 <= i < log.len() ==> match #[trigger] log[i].progress_of() {
            Some(q) => q.le(p),
            None => true,
        }
}

/// Progress snapshots appear in the log in non-decreasing order.
pub open spec fn log_progress_monotone(log: Seq<ScanEvent>) -> bool {
    forall|i: int, j: int|
        0 <= i <= j < log.len() ==> match (
            #[trigger] log[i].progress_of(),
            #[trigger] log[j].progress_of(),
        ) {
            (Some(p), Some(q)) => p.le(q),
            _ => true,
        }
}

pub open spec fn log_no_terminal(log: Seq<ScanEvent>) -> bool {
    forall|i: int| 0 <= i < log.len() ==> !(#[trigger] log[i]).is_terminal()
}

/// A terminal event, if present, is the last event; a reset only the first.
pub open spec fn log_well_formed(log: Seq<ScanEvent>) -> bool {
    &&& forall|i: int| 0 <= i < log.len() && (#[trigger] log[i]).is_terminal() ==> i == log.len() - 1
    &&& forall|i: int| 0 <= i < log.len() && (#[trigger] log[i]) is Reset ==> i == 0
}

/// A prefix stays a prefix when the longer sequence grows by one event.
proof fn lemma_prefix_push(a: Seq<ScanEvent>, b: Seq<ScanEvent>, ev: ScanEvent)
    requires
        a.is_prefix_of(b),
    ensures
        a.is_prefix_of(b.push(ev)),
        b.is_prefix_of(b.push(ev)),
{
    assert(b.push(ev).subrange(0, a.len() as int) =~= a);
    assert(b.push(ev).subrange(0, b.len() as int) =~= b);
}

/// Within a prefix, the two sequences agree pointwise.
proof fn lemma_prefix_index(a: Seq<ScanEvent>, b: Seq<ScanEvent>, k: int)
    requires
        a.is_prefix_of(b),
        0 <= k < a.len(),
    ensures
        a[k] == b[k],
{
    assert(a[k] == b.subrange(0, a.len() as int)[k]);
}

/// Prefixes compose.
proof fn lemma_prefix_trans(a: Seq<ScanEvent>, b: Seq<ScanEvent>, c: Seq<ScanEvent>)
    requires
        a.is_prefix_of(b),
        b.is_prefix_of(c),
    ensures
        a.is_prefix_of(c),
{
    assert forall|k: int| 0 <= k < a.len() implies c.subrange(0, a.len() as int)[k] == a[k] by {
        lemma_prefix_index(a, b, k);
        lemma_prefix_index(b, c, k);
    }
    assert(c.subrange(0, a.len() as int) =~= a);
}

/// Appending one event to a well-formed log keeps it well-formed, provided
/// a reset only opens an empty log and any carried progress snapshot is at
/// least as new as everything already delivered.
proof fn lemma_log_push_keeps_wf(log: Seq<ScanEvent>, bound: ScanProgress, ev: ScanEvent)
    requires
        log_well_formed(log),
        log_progress_monotone(log),
        log_progress_below(log, bound),
        log_no_terminal(log),
        ev is Reset ==> log.len() == 0,
        match ev.progress_of() {
            Some(q) => q.le(bound) && log_progress_below(log, q),
            None => true,
        },
    ensures
        log_well_formed(log.push(ev)),
        log_progress_monotone(log.push(ev)),
        log_progress_below(log.push(ev), bound),
        !ev.is_terminal() ==> log_no_terminal(log.push(ev)),
{
    let l2 = log.push(ev);
    assert forall|i: int| 0 <= i < l2.len() && (#[trigger] l2[i]).is_terminal() implies i == l2.len()
        - 1 by {
        if i < log.len() {
            assert(l2[i] == log[i]);
        }
    }
    assert forall|i: int| 0 <= i < l2.len() && (#[trigger] l2[i]) is Reset implies i == 0 by {
        if i < log.len() {
            assert(l2[i] == log[i]);
        }
    }
    assert forall|i: int, j: int| 0 <= i <= j < l2.len() implies match (
        #[trigger] l2[i].progress_of(),
        #[trigger] l2[j].progress_of(),
    ) {
        (Some(p), Some(q)) => p.le(q),
        _ => true,
    } by {
        if j < log.len() {
            assert(l2[i] == log[i] && l2[j] == log[j]);
        } else if i < log.len() {
            assert(l2[i] == log[i] && l2[j] == ev);
        }
    }
    assert forall|i: int| 0 <= i < l2.len() implies match (#[trigger] l2[i].progress_of()) {
        Some(q) => q.le(bound),
        None => true,
    } by {
        if i < log.len() {
            assert(l2[i] == log[i]);
        }
    }
    if !ev.is_terminal() {
        assert forall|i: int| 0 <= i < l2.len() implies !(#[trigger] l2[i]).is_terminal() by {
            if i < log.len() {
                assert(l2[i] == log[i]);
            }
        }
    }
}

/// Milliseconds since the Unix epoch. Relies on `std::time::SystemTime::now`
/// and `duration_since`; nothing is assumed of the result, which depends on
/// the wall clock.
#[verifier::external_body]
fn now_millis() -> u64 {
    match std::time::SystemTime::now().duration_since(std::time::UNIX_EPOCH) {
        Ok(d) => d.as_millis() as u64,
        Err(_) => 0,
    }
}

/// An entry is hidden when its name starts with a dot.
pub open spec fn spec_is_hidden(name: Seq<char>) -> bool {
    name.len() > 0 && name[0] == '.'
}

pub fn is_hidden(name: &String) -> (r: bool)
    ensures
        r == spec_is_hidden(name@),
{
    let n = name.as_str();
    if n.unicode_len() == 0 {
        false
    } else {
        n.get_char(0) == '.'
    }
}

/// The depth of a listed child: one below its parent, saturating at the
/// machine limit.
pub open spec fn spec_child_depth(parent_depth: nat) -> nat {
    if parent_depth >= usize::MAX as nat {
        usize::MAX as nat
    } else {
        parent_depth + 1
    }
}

/// Whether the display settings allow node updates for a listed child:
/// emission must be enabled for its parent, its name must pass the
/// hidden-file filter, and its depth must be within the configured limit.
/// This gate controls emission only; it never changes what is counted.
pub open spec fn spec_emission_gate(
    o: ScanOptions,
    parent_emit: bool,
    child_depth: nat,
    name: Seq<char>,
) -> bool {
    &&& parent_emit
    &&& (o.show_hidden || !spec_is_hidden(name))
    &&& (match o.max_depth {
        None => true,
        Some(m) => child_depth <= m as nat,
    })
}

/// How one listed entry is accounted, as decided from the scan flags and the
/// stat results alone. Display settings (`show_hidden`, `show_files`,
/// `max_depth`) play no part here: they gate only which node updates are
/// emitted, never what is counted.
#[derive(Debug, Clone, Copy, PartialEq, Eq, Structural)]
pub enum ChildAccounting {
    /// The stat (or the follow-up stat of a symlink target) failed: one
    /// warning, nothing counted.
    Warn,
    /// A terminal entry: counted with these apparent and allocated sizes.
    Count(u64, u64),
    /// A directory to descend into (the flag tells whether it was reached
    /// through a symlink).
    Descend(bool),
    /// A directory on another mount with one-file-system set: skipped
    /// silently, not counted.
    SkipMount,
}

/// The accounting decision for one listed entry. Its arguments are only the
/// two traversal flags, the root's mount id and the entry's stat results, so
/// any two option sets that agree on `follow_symlinks` and `one_file_system`
/// account every entry identically, whatever their display settings say.
pub open spec fn spec_child_accounting(
    follow_symlinks: bool,
    one_file_system: bool,
    root_fs: Option<u64>,
    stat: Result<EntryMeta, String>,
    target: Option<Result<EntryMeta, String>>,
) -> ChildAccounting {
    match stat {
        Err(_) => ChildAccounting::Warn,
        Ok(meta) => {
            if meta.is_symlink && !follow_symlinks {
                ChildAccounting::Count(meta.len, meta.allocated)
            } else {
                let resolved = if meta.is_symlink {
                    match target {
                        Some(Ok(m2)) => Some(m2),
                        _ => None,
                    }
                } else {
                    Some(meta)
                };
                match resolved {
                    None => ChildAccounting::Warn,
                    Some(r) => {
                        if one_file_system && r.is_dir && (match (root_fs, r.fs_id) {
                            (Some(a), Some(b)) => a != b,
                            _ => false,
                        }) {
                            ChildAccounting::SkipMount
                        } else if r.is_dir {
                            ChildAccounting::Descend(meta.is_symlink)
                        } else {
                            ChildAccounting::Count(r.len, r.allocated)
                        }
                    },
                }
            }
        },
    }
}

/// Totals and visit counts are independent of the display settings: the
/// accounting of an entry is a function of the traversal flags and the stat
/// results alone, so two scans of the same tree that differ only in
/// `show_hidden`, `show_files` or `max_depth` count every entry the same
/// way.
pub proof fn lemma_display_flags_do_not_affect_accounting(
    o1: ScanOptions,
    o2: ScanOptions,
    root_fs: Option<u64>,
    stat: Result<EntryMeta, String>,
    target: Option<Result<EntryMeta, String>>,
)
    requires
        o1.follow_symlinks == o2.follow_symlinks,
        o1.one_file_system == o2.one_file_system,
    ensures
        spec_child_accounting(o1.follow_symlinks, o1.one_file_system, root_fs, stat, target)
            == spec_child_accounting(o2.follow_symlinks, o2.one_file_system, root_fs, stat, target),
{
}

/// The running totals one directory listing updates: the scan-wide
/// progress counters and the listing directory's own accumulation.
#[verifier::ext_equal]
pub struct ListingTotals {
    pub warnings: u64,
    pub visited: u64,
    pub apparent_seen: u64,
    pub allocated_seen: u64,
    pub frame_apparent: u64,
    pub frame_allocated: u64,
    pub children: u64,
}

/// The resolved metadata of a listed entry: the target's stat for a symlink
/// that was followed, the entry's own stat otherwise. Meaningful only where
/// the accounting decision consulted it.
pub open spec fn spec_resolved_of(e: ListedEntry) -> EntryMeta {
    match e.stat {
        Ok(m) => if m.is_symlink {
            match e.target {
                Some(Ok(m2)) => m2,
                _ => m,
            }
        } else {
            m
        },
        Err(_) => EntryMeta {
            is_symlink: false,
            is_dir: false,
            is_file: false,
            len: 0,
            allocated: 0,
            fs_id: None,
        },
    }
}

/// How one listed item updates the totals: an unreadable item or a failed
/// stat charges one warning; a counted entry adds its sizes to the progress
/// counters and to the directory's totals and counts one child; a directory
/// to descend into and a fenced-out mount change no totals here.
pub open spec fn spec_absorb_item(
    follow: bool,
    one_fs: bool,
    rfs: Option<u64>,
    t: ListingTotals,
    item: ListedItem,
) -> ListingTotals {
    match item {
        ListedItem::Unreadable(_) => ListingTotals { warnings: spec_sat_add(t.warnings, 1), ..t },
        ListedItem::Entry(e) => match spec_child_accounting(follow, one_fs, rfs, e.stat, e.target) {
            ChildAccounting::Warn => ListingTotals { warnings: spec_sat_add(t.warnings, 1), ..t },
            ChildAccounting::Count(a, b) => ListingTotals {
                warnings: t.warnings,
                visited: spec_sat_add(t.visited, 1),
                apparent_seen: spec_sat_add(t.apparent_seen, a),
                allocated_seen: spec_sat_add(t.allocated_seen, b),
                frame_apparent: spec_sat_add(t.frame_apparent, a),
                frame_allocated: spec_sat_add(t.frame_allocated, b),
                children: spec_sat_add(t.children, 1),
            },
            _ => t,
        },
    }
}

/// The fold of [`spec_absorb_item`] over a whole listing, front to back.
pub open spec fn spec_absorb_listing(
    follow: bool,
    one_fs: bool,
    rfs: Option<u64>,
    t: ListingTotals,
    items: Seq<ListedItem>,
) -> ListingTotals
    decreases items.len(),
{
    if items.len() == 0 {
        t
    } else {
        spec_absorb_listing(
            follow,
            one_fs,
            rfs,
            spec_absorb_item(follow, one_fs, rfs, t, items[0]),
            items.drop_first(),
        )
    }
}

/// The directories a listing queues for descent, in listing order, as the
/// pending views the contracts speak of. `parent_emit` and `child_depth`
/// decide each queued child's emission gate.
pub open spec fn spec_descend_views(
    o: ScanOptions,
    rfs: Option<u64>,
    parent_emit: bool,
    child_depth: nat,
    items: Seq<ListedItem>,
) -> Seq<PendingView>
    decreases items.len(),
{
    if items.len() == 0 {
        Seq::<PendingView>::empty()
    } else {
        spec_descend_item(o, rfs, parent_emit, child_depth, items[0]) + spec_descend_views(
            o,
            rfs,
            parent_emit,
            child_depth,
            items.drop_first(),
        )
    }
}

pub open spec fn spec_descend_item(
    o: ScanOptions,
    rfs: Option<u64>,
    parent_emit: bool,
    child_depth: nat,
    item: ListedItem,
) -> Seq<PendingView> {
    match item {
        ListedItem::Entry(e) => match spec_child_accounting(
            o.follow_symlinks,
            o.one_file_system,
            rfs,
            e.stat,
            e.target,
        ) {
            ChildAccounting::Descend(is_symlink) => {
                let gate = spec_emission_gate(o, parent_emit, child_depth, e.name@);
                seq![
                    spec_pending_view(
                        e.path@,
                        is_symlink,
                        spec_resolved_of(e).len,
                        spec_resolved_of(e).allocated,
                        gate,
                        is_symlink || !gate,
                        child_depth,
                    ),
                ]
            },
            _ => Seq::<PendingView>::empty(),
        },
        ListedItem::Unreadable(_) => Seq::<PendingView>::empty(),
    }
}

/// A warning charged to this listed item carries the entry's own path.
pub open spec fn spec_item_entry_path(item: ListedItem, p: Seq<char>) -> bool {
    item matches ListedItem::Entry(e) && e.path@ == p
}

/// The node update one listing step may deliver for this listed entry:
/// either the entry's terminal summary, for counted entries under an open
/// emission gate with show-files on, or its provisional directory summary,
/// for non-symlink directories under an open gate. A suppressed entry, a
/// fenced-out mount, a symlinked directory (its provisional update waits
/// for the cycle check) and a failed stat get no update here.
pub open spec fn spec_entry_update_ok(
    o: ScanOptions,
    rfs: Option<u64>,
    parent_emit: bool,
    child_depth: nat,
    e: ListedEntry,
    nu: NodeSummary,
) -> bool {
    let gate = spec_emission_gate(o, parent_emit, child_depth, e.name@);
    &&& nu.path@ == e.path@
    &&& nu.children_count == 0
    &&& match spec_child_accounting(o.follow_symlinks, o.one_file_system, rfs, e.stat, e.target) {
        ChildAccounting::Count(a, b) => {
            &&& gate && o.show_files
            &&& nu.is_complete
            &&& nu.apparent_bytes == a
            &&& nu.allocated_bytes == b
            &&& (e.stat matches Ok(m) && nu.kind == (if m.is_symlink {
                FsEntryKind::Symlink
            } else if spec_resolved_of(e).is_file {
                FsEntryKind::File
            } else {
                FsEntryKind::Other
            }))
        },
        ChildAccounting::Descend(is_sym) => {
            &&& gate && !is_sym
            &&& !nu.is_complete
            &&& nu.kind is Dir
            &&& nu.apparent_bytes == spec_resolved_of(e).len
            &&& nu.allocated_bytes == spec_resolved_of(e).allocated
        },
        _ => false,
    }
}

pub open spec fn spec_item_update_ok(
    o: ScanOptions,
    rfs: Option<u64>,
    parent_emit: bool,
    child_depth: nat,
    item: ListedItem,
    nu: NodeSummary,
) -> bool {
    item matches ListedItem::Entry(e) && spec_entry_update_ok(o, rfs, parent_emit, child_depth, e, nu)
}

/// Every event one directory listing may deliver: a progress snapshot, a
/// warning charged to the listing directory or to one of its entries, or a
/// node update that [`spec_entry_update_ok`] allows for one of the listed
/// entries. In particular no node update is delivered for an entry the
/// display settings suppress.
pub open spec fn spec_listing_event_ok(
    o: ScanOptions,
    rfs: Option<u64>,
    dir_path: Seq<char>,
    parent_emit: bool,
    child_depth: nat,
    items: Seq<ListedItem>,
    ev: ScanEvent,
) -> bool {
    ||| ev is Progress
    ||| (ev matches ScanEvent::Warning { path, .. } && (path@ == dir_path || exists|i: int|
        0 <= i < items.len() && #[trigger] spec_item_entry_path(items[i], path@)))
    ||| (ev matches ScanEvent::NodeUpdated(nu) && exists|i: int|
        0 <= i < items.len() && #[trigger] spec_item_update_ok(o, rfs, parent_emit, child_depth, items[i], nu))
}

/// One item of a listing carries the running fold forward: absorbing the
/// front item and dropping it from the remainder keeps both the totals fold
/// and the queued-directories concatenation pointed at the same final
/// values.
proof fn lemma_absorb_step(
    o: ScanOptions,
    pe: bool,
    cd: nat,
    rfs: Option<u64>,
    t0: ListingTotals,
    items0: Seq<ListedItem>,
    pend0: Seq<PendingView>,
    cur_pre: ListingTotals,
    cur_post: ListingTotals,
    pend_pre: Seq<PendingView>,
    pend_post: Seq<PendingView>,
    pre_items: Seq<ListedItem>,
    post_items: Seq<ListedItem>,
    it: ListedItem,
)
    requires
        pre_items.len() > 0,
        it == pre_items[0],
        post_items == pre_items.drop_first(),
        cur_post == spec_absorb_item(o.follow_symlinks, o.one_file_system, rfs, cur_pre, it),
        pend_post == pend_pre + spec_descend_item(o, rfs, pe, cd, it),
        spec_absorb_listing(o.follow_symlinks, o.one_file_system, rfs, t0, items0)
            == spec_absorb_listing(
            o.follow_symlinks,
            o.one_file_system,
            rfs,
            cur_pre,
            pre_items,
        ),
        pend_pre + spec_descend_views(o, rfs, pe, cd, pre_items) == pend0 + spec_descend_views(
            o,
            rfs,
            pe,
            cd,
            items0,
        ),
    ensures
        spec_absorb_listing(o.follow_symlinks, o.one_file_system, rfs, t0, items0)
            == spec_absorb_listing(
            o.follow_symlinks,
            o.one_file_system,
            rfs,
            cur_post,
            post_items,
        ),
        pend_post + spec_descend_views(o, rfs, pe, cd, post_items) == pend0 + spec_descend_views(
            o,
            rfs,
            pe,
            cd,
            items0,
        ),
{
    let fol = o.follow_symlinks;
    let ofs = o.one_file_system;
    assert(spec_absorb_listing(fol, ofs, rfs, cur_pre, pre_items) == spec_absorb_listing(
        fol,
        ofs,
        rfs,
        cur_post,
        post_items,
    ));
    assert(spec_descend_views(o, rfs, pe, cd, pre_items) =~~= spec_descend_item(o, rfs, pe, cd, it)
        + spec_descend_views(o, rfs, pe, cd, post_items));
    assert(pend_post + spec_descend_views(o, rfs, pe, cd, post_items) =~~= pend_pre
        + spec_descend_views(o, rfs, pe, cd, pre_items));
}

/// The traversal engine for one scan.
pub struct ScanEngine {
    options: ScanOptions,
    tx: crossbeam_channel::Sender<ScanEvent>,
    cancel: Arc<AtomicBool>,
    progress: ScanProgress,
    root_fs: Option<u64>,
    emitted_progress_entries: u64,
    visited_symlink_dirs: Vec<String>,
    pending_progress: Option<ScanProgress>,
    dropped_node_updates: u64,
    deferred_progress_updates: u64,
    coalesced_progress_updates: u64,
    backpressure_warning_emitted: bool,
    channel_closed: bool,
    stack: Vec<DirFrame>,
    opening: Option<PendingChild>,
    phase: EnginePhase,
    /// The events accepted by the channel so far, in order.
    events: Ghost<Seq<ScanEvent>>,
}

/// The final summary a cancellation exit offers for one still-open
/// directory whose display gate is open: its path and kind, its aggregate
/// totals so far, and completeness.
spec fn spec_frame_final_summary(f: DirFrame, nu: NodeSummary) -> bool {
    &&& f.emit_updates
    &&& nu.path@ == f.path@
    &&& nu.apparent_bytes == f.apparent_total
    &&& nu.allocated_bytes == f.allocated_total
    &&& nu.children_count == f.children_count
    &&& nu.is_complete
    &&& nu.kind == (if f.is_symlink_dir {
        FsEntryKind::Symlink
    } else {
        FsEntryKind::Dir
    })
}

impl DirFrame {
    /// Totals are the saturating sum of the directory's own sizes and the
    /// accumulated children; the child count matches.
    spec fn wf(self) -> bool {
        &&& self.apparent_total == sat_fold(
            self.own_apparent,
            self.kid_sizes@.map_values(|k: (u64, u64)| k.0),
        )
        &&& self.allocated_total == sat_fold(
            self.own_allocated,
            self.kid_sizes@.map_values(|k: (u64, u64)| k.1),
        )
        &&& self.children_count as nat == (if self.kid_sizes@.len() > u64::MAX as nat {
            u64::MAX as nat
        } else {
            self.kid_sizes@.len()
        })
    }
}

impl ScanEngine {
    /// The sequence of events the channel has accepted so far.
    pub closed spec fn log(self) -> Seq<ScanEvent> {
        self.events@
    }

    /// The engine's current progress counters.
    pub closed spec fn cur_progress(self) -> ScanProgress {
        self.progress
    }

    pub closed spec fn finished(self) -> bool {
        self.phase is Finished
    }

    /// The channel reported every receiver gone; from then on the engine
    /// stays quiet.
    pub closed spec fn consumer_gone(self) -> bool {
        self.channel_closed
    }

    /// No progress snapshot is parked waiting for channel space; a fresh
    /// engine starts this way, so the stream a fatal root error closes is
    /// exactly the reset followed by the error.
    pub closed spec fn no_parked_progress(self) -> bool {
        self.pending_progress is None
    }

    /// Node updates discarded because the channel was full.
    pub closed spec fn dropped_updates(self) -> u64 {
        self.dropped_node_updates
    }

    /// Progress snapshots that could not be delivered at once.
    pub closed spec fn deferred_progress(self) -> u64 {
        self.deferred_progress_updates
    }

    /// Deferred snapshots that were overwritten by a newer one.
    pub closed spec fn coalesced_progress(self) -> u64 {
        self.coalesced_progress_updates
    }

    /// The one-shot backpressure warning has been recorded.
    pub closed spec fn backpressure_warned(self) -> bool {
        self.backpressure_warning_emitted
    }

    pub closed spec fn wants_stat(self) -> bool {
        self.phase is AwaitRootStat || self.phase is AwaitRootTarget
    }

    pub closed spec fn wants_list(self) -> bool {
        self.phase is AwaitList
    }

    pub closed spec fn wants_canonicalize(self) -> bool {
        self.phase is AwaitCanonical
    }

    pub closed spec fn wants_proceed(self) -> bool {
        self.phase is Advancing
    }

    /// The engine still waits for the first stat of the scan root.
    pub closed spec fn awaiting_root_stat(self) -> bool {
        self.phase is AwaitRootStat
    }

    /// The root is a symlink and the engine waits for its target's stat.
    pub closed spec fn awaiting_root_target(self) -> bool {
        self.phase is AwaitRootTarget
    }

    pub closed spec fn spec_options(self) -> ScanOptions {
        self.options
    }

    /// Channel-side well-formedness: the log orders progress snapshots, a
    /// terminal event closes it, and undelivered pending progress is at
    /// least as new as everything delivered.
    spec fn chan_wf(self) -> bool {
        &&& self.emitted_progress_entries <= self.progress.visited_entries
        &&& log_well_formed(self.log())
        &&& log_progress_monotone(self.log())
        &&& log_progress_below(self.log(), self.progress)
        &&& !self.finished() ==> log_no_terminal(self.log())
        &&& (log_no_terminal(self.log()) ==> match self.pending_progress {
            Some(p) => p.le(self.progress) && log_progress_below(self.log(), p),
            None => true,
        })
    }

    /// Traversal-side well-formedness: the phase matches the stack and the
    /// opening slot, and every frame aggregates correctly.
    spec fn frames_wf(self) -> bool {
        forall|i: int| 0 <= i < self.stack@.len() ==> (#[trigger] self.stack@[i]).wf()
    }

    spec fn walk_wf(self) -> bool {
        &&& self.frames_wf()
        &&& match self.opening {
            Some(o) => self.wants_canonicalize() && o.is_symlink_dir,
            None => !self.wants_canonicalize(),
        }
        &&& self.wants_list() ==> self.stack@.len() > 0
        &&& self.wants_stat() ==> self.stack@.len() == 0
    }

    /// The canonical paths of symlinked directories already visited.
    pub closed spec fn visited_views(self) -> Seq<Seq<char>> {
        self.visited_symlink_dirs@.map_values(|s: String| s@)
    }

    /// Depth of the traversal stack.
    pub closed spec fn stack_len(self) -> nat {
        self.stack@.len()
    }

    /// The engine's full invariant.
    pub closed spec fn wf(self) -> bool {
        self.chan_wf() && self.walk_wf()
    }

    /// Fields a governor step may change; the traversal state is untouched
    /// and progress only grows.
    spec fn governor_step(pre: Self, post: Self) -> bool {
        &&& post == ScanEngine {
            progress: post.progress,
            emitted_progress_entries: post.emitted_progress_entries,
            pending_progress: post.pending_progress,
            dropped_node_updates: post.dropped_node_updates,
            deferred_progress_updates: post.deferred_progress_updates,
            coalesced_progress_updates: post.coalesced_progress_updates,
            backpressure_warning_emitted: post.backpressure_warning_emitted,
            channel_closed: post.channel_closed,
            events: post.events,
            ..pre
        }
        &&& pre.progress.le(post.progress)
        &&& pre.log().is_prefix_of(post.log())
    }

    /// True once the consumer side is known gone or cancellation was
    /// signalled. Relies on nothing about the flag's value: the caller sets
    /// it from another thread at any time.
    fn should_cancel(&self) -> bool {
        self.channel_closed || self.cancel.load(Ordering::Acquire)
    }

    /// Offer the coalesced pending progress snapshot to the channel, keeping
    /// it pending if there is still no room. Callable whenever no terminal
    /// event has been delivered yet.
    fn try_flush_pending_progress(&mut self)
        requires
            old(self).chan_wf(),
            log_no_terminal(old(self).log()),
        ensures
            final(self).chan_wf(),
            log_no_terminal(final(self).log()),
            Self::governor_step(*old(self), *final(self)),
            final(self).progress == old(self).progress,
            final(self).emitted_progress_entries == old(self).emitted_progress_entries,
            final(self).dropped_node_updates == old(self).dropped_node_updates,
            final(self).deferred_progress_updates == old(self).deferred_progress_updates,
            final(self).coalesced_progress_updates == old(self).coalesced_progress_updates,
            final(self).backpressure_warning_emitted == old(self).backpressure_warning_emitted,
            old(self).pending_progress is None ==> (final(self).pending_progress is None
                && final(self).log() == old(self).log()),
            forall|k: int|
                old(self).log().len() <= k < final(self).log().len() ==> (#[trigger] final(self).log()[k]) is Progress,
    {
        if self.channel_closed {
            return;
        }
        let pending = match self.pending_progress {
            Some(p) => p,
            None => { return; },
        };
        match try_send_event(&self.tx, ScanEvent::Progress(pending)) {
            SendAttempt::Sent => {
                self.pending_progress = None;
                proof {
                    self.events@ = self.events@.push(ScanEvent::Progress(pending));
                    assert(old(self).log().is_prefix_of(self.log()));
                }
            },
            SendAttempt::Kept(_) => {},
            SendAttempt::Disconnected => {
                self.channel_closed = true;
            },
        }
        proof {
            assert(old(self).log().is_prefix_of(self.log()));
        }
    }

    /// Deliver a critical, non-terminal event: retry while the channel is
    /// full, flushing pending progress between attempts, and give up only
    /// when the consumer is gone.
    fn send_critical(&mut self, ev: ScanEvent)
        requires
            old(self).chan_wf(),
            !old(self).finished(),
            !ev.is_terminal(),
            ev.progress_of() is None,
            ev is Reset ==> old(self).log().len() == 0 && old(self).pending_progress is None,
        ensures
            final(self).chan_wf(),
            Self::governor_step(*old(self), *final(self)),
            final(self).progress == old(self).progress,
            final(self).emitted_progress_entries == old(self).emitted_progress_entries,
            final(self).dropped_node_updates == old(self).dropped_node_updates,
            final(self).deferred_progress_updates == old(self).deferred_progress_updates,
            final(self).coalesced_progress_updates == old(self).coalesced_progress_updates,
            final(self).backpressure_warning_emitted == old(self).backpressure_warning_emitted,
            old(self).pending_progress is None ==> final(self).pending_progress is None,
            !final(self).channel_closed ==> final(self).log().len() > old(self).log().len()
                && final(self).log().last() == ev,
            forall|k: int|
                old(self).log().len() <= k < final(self).log().len() ==> ((#[trigger] final(self).log()[k]) is Progress || final(self).log()[k] == ev),
            ev is Reset ==> (final(self).log().len() <= 1 && (forall|k: int|
                0 <= k < final(self).log().len() ==> (#[trigger] final(self).log()[k]) == ev)),
    {
        if self.channel_closed {
            return;
        }
        let ghost ev_g = ev;
        self.try_flush_pending_progress();
        let mut event = ev;
        let mut attempts: u64 = 0;
        loop
            invariant_except_break
                !self.finished(),
                (ev_g is Reset ==> self.log().len() == 0 && self.pending_progress is None
                    && old(self).log().len() == 0),
                forall|k: int|
                    old(self).log().len() <= k < self.log().len() ==> (#[trigger] self.log()[k]) is Progress,
            invariant
                old(self).pending_progress is None ==> self.pending_progress is None,
                self.chan_wf(),
                Self::governor_step(*old(self), *self),
                self.progress == old(self).progress,
                self.emitted_progress_entries == old(self).emitted_progress_entries,
                self.dropped_node_updates == old(self).dropped_node_updates,
                self.deferred_progress_updates == old(self).deferred_progress_updates,
                self.coalesced_progress_updates == old(self).coalesced_progress_updates,
                self.backpressure_warning_emitted == old(self).backpressure_warning_emitted,
                event == ev_g,
                !ev_g.is_terminal(),
                ev_g.progress_of() is None,
                attempts <= CRITICAL_RETRY_BUDGET,
            ensures
                old(self).pending_progress is None ==> self.pending_progress is None,
                self.chan_wf(),
                Self::governor_step(*old(self), *self),
                self.progress == old(self).progress,
                self.emitted_progress_entries == old(self).emitted_progress_entries,
                self.dropped_node_updates == old(self).dropped_node_updates,
                self.deferred_progress_updates == old(self).deferred_progress_updates,
                self.coalesced_progress_updates == old(self).coalesced_progress_updates,
                self.backpressure_warning_emitted == old(self).backpressure_warning_emitted,
                !self.channel_closed ==> self.log().len() > old(self).log().len()
                    && self.log().last() == ev_g,
                forall|k: int|
                    old(self).log().len() <= k < self.log().len() ==> ((#[trigger] self.log()[k]) is Progress || self.log()[k] == ev_g),
                ev_g is Reset ==> (self.log().len() <= 1 && (forall|k: int|
                    0 <= k < self.log().len() ==> (#[trigger] self.log()[k]) == ev_g)),
            decreases CRITICAL_RETRY_BUDGET - attempts,
        {
            if self.channel_closed {
                break;
            }
            if attempts >= CRITICAL_RETRY_BUDGET {
                let delivered = send_event_blocking(&self.tx, event);
                if delivered {
                    proof {
                        lemma_log_push_keeps_wf(self.events@, self.progress, ev_g);
                        match self.pending_progress {
                            Some(p) => lemma_log_push_keeps_wf(self.events@, p, ev_g),
                            None => (),
                        }
                        lemma_prefix_push(old(self).log(), self.events@, ev_g);
                        self.events@ = self.events@.push(ev_g);
                    }
                } else {
                    self.channel_closed = true;
                }
                break;
            }
            match send_event_timeout(&self.tx, event, CRITICAL_RETRY_MILLIS) {
                SendAttempt::Sent => {
                    proof {
                        lemma_log_push_keeps_wf(self.events@, self.progress, ev_g);
                        match self.pending_progress {
                            Some(p) => lemma_log_push_keeps_wf(self.events@, p, ev_g),
                            None => (),
                        }
                        lemma_prefix_push(old(self).log(), self.events@, ev_g);
                        self.events@ = self.events@.push(ev_g);
                    }
                    break;
                },
                SendAttempt::Kept(returned) => {
                    event = returned;
                    attempts = attempts + 1;
                    let ghost prev = *self;
                    self.try_flush_pending_progress();
                    proof {
                        assert forall|k: int|
                            old(self).log().len() <= k < self.log().len() implies (
                        #[trigger] self.log()[k]) is Progress by {
                            if k < prev.log().len() {
                                lemma_prefix_index(prev.log(), self.log(), k);
                            }
                        }
                    }
                },
                SendAttempt::Disconnected => {
                    self.channel_closed = true;
                    break;
                },
            }
        }
    }

    /// Deliver the terminal event of the scan, with the same retry policy as
    /// other critical events. The phase must already be `Finished`, so that
    /// nothing is sent afterwards.
    fn send_terminal(&mut self, ev: ScanEvent)
        requires
            old(self).chan_wf(),
            old(self).finished(),
            log_no_terminal(old(self).log()),
            ev.is_terminal(),
            (ev matches ScanEvent::Complete(p) ==> p == old(self).progress),
        ensures
            final(self).chan_wf(),
            Self::governor_step(*old(self), *final(self)),
            final(self).progress == old(self).progress,
            !final(self).channel_closed ==> final(self).log().len() > old(self).log().len()
                && final(self).log().last() == ev,
            forall|k: int|
                old(self).log().len() <= k < final(self).log().len() ==> ((#[trigger] final(self).log()[k]) is Progress || final(self).log()[k] == ev),
            old(self).pending_progress is None ==> forall|k: int|
                old(self).log().len() <= k < final(self).log().len() ==> (#[trigger] final(self).log()[k]) == ev,
            log_no_terminal(final(self).log()) || final(self).log().last() == ev,
    {
        if self.channel_closed {
            return;
        }
        let ghost ev_g = ev;
        self.try_flush_pending_progress();
        let mut event = ev;
        let mut attempts: u64 = 0;
        loop
            invariant_except_break
                log_no_terminal(self.log()),
                forall|k: int|
                    old(self).log().len() <= k < self.log().len() ==> (#[trigger] self.log()[k]) is Progress,
                old(self).pending_progress is None ==> (self.pending_progress is None && self.log()
                    == old(self).log()),
            invariant
                self.chan_wf(),
                self.finished(),
                Self::governor_step(*old(self), *self),
                self.progress == old(self).progress,
                event == ev_g,
                ev_g.is_terminal(),
                (ev_g matches ScanEvent::Complete(p) ==> p == old(self).progress),
                attempts <= CRITICAL_RETRY_BUDGET,
            ensures
                self.chan_wf(),
                Self::governor_step(*old(self), *self),
                self.progress == old(self).progress,
                !self.channel_closed ==> self.log().len() > old(self).log().len()
                    && self.log().last() == ev_g,
                forall|k: int|
                    old(self).log().len() <= k < self.log().len() ==> ((#[trigger] self.log()[k]) is Progress || self.log()[k] == ev_g),
                old(self).pending_progress is None ==> forall|k: int|
                    old(self).log().len() <= k < self.log().len() ==> (#[trigger] self.log()[k])
                        == ev_g,
                log_no_terminal(self.log()) || self.log().last() == ev_g,
            decreases CRITICAL_RETRY_BUDGET - attempts,
        {
            if self.channel_closed {
                break;
            }
            if attempts >= CRITICAL_RETRY_BUDGET {
                let delivered = send_event_blocking(&self.tx, event);
                if delivered {
                    proof {
                        lemma_log_push_keeps_wf(self.events@, self.progress, ev_g);
                        lemma_prefix_push(old(self).log(), self.events@, ev_g);
                        self.events@ = self.events@.push(ev_g);
                        assert(self.log().last() == ev_g);
                    }
                } else {
                    self.channel_closed = true;
                }
                break;
            }
            match send_event_timeout(&self.tx, event, CRITICAL_RETRY_MILLIS) {
                SendAttempt::Sent => {
                    proof {
                        lemma_log_push_keeps_wf(self.events@, self.progress, ev_g);
                        lemma_prefix_push(old(self).log(), self.events@, ev_g);
                        self.events@ = self.events@.push(ev_g);
                        assert(self.log().last() == ev_g);
                    }
                    break;
                },
                SendAttempt::Kept(returned) => {
                    event = returned;
                    attempts = attempts + 1;
                    let ghost prev = *self;
                    self.try_flush_pending_progress();
                    proof {
                        assert forall|k: int|
                            old(self).log().len() <= k < self.log().len() implies (
                        #[trigger] self.log()[k]) is Progress by {
                            if k < prev.log().len() {
                                lemma_prefix_index(prev.log(), self.log(), k);
                            }
                        }
                    }
                },
                SendAttempt::Disconnected => {
                    self.channel_closed = true;
                    break;
                },
            }
        }
    }

    /// Offer one node update to the channel; when it is full, count the
    /// update as dropped rather than wait. Never blocks: one non-blocking
    /// attempt decides between delivery, one counted drop, or noticing the
    /// consumer is gone.
    fn send_node_update(&mut self, summary: NodeSummary)
        requires
            old(self).chan_wf(),
            !old(self).finished(),
        ensures
            final(self).chan_wf(),
            Self::governor_step(*old(self), *final(self)),
            final(self).progress == old(self).progress,
            final(self).emitted_progress_entries == old(self).emitted_progress_entries,
            final(self).backpressure_warning_emitted == old(self).backpressure_warning_emitted,
            final(self).dropped_updates() == old(self).dropped_updates() || final(self).dropped_updates() == spec_sat_add(old(self).dropped_updates(), 1),
            final(self).deferred_progress() == old(self).deferred_progress(),
            final(self).coalesced_progress() == old(self).coalesced_progress(),
            forall|k: int|
                old(self).log().len() <= k < final(self).log().len() ==> ((#[trigger] final(self).log()[k]) is Progress || final(self).log()[k] == ScanEvent::NodeUpdated(summary)),
    {
        if self.channel_closed {
            return;
        }
        self.try_flush_pending_progress();
        if self.channel_closed {
            return;
        }
        let ghost ev_g = ScanEvent::NodeUpdated(summary);
        match try_send_event(&self.tx, ScanEvent::NodeUpdated(summary)) {
            SendAttempt::Sent => {
                proof {
                    self.events@ = self.events@.push(ev_g);
                }
            },
            SendAttempt::Kept(_) => {
                self.dropped_node_updates = sat_add(self.dropped_node_updates, 1);
            },
            SendAttempt::Disconnected => {
                self.channel_closed = true;
            },
        }
        proof {
            assert(old(self).log().is_prefix_of(self.log()));
        }
    }

    /// Offer the current progress counters to the channel. When the channel
    /// is full the snapshot is parked in the single pending slot, replacing
    /// (and counting) any older undelivered snapshot, so that snapshots are
    /// delivered in order.
    fn send_progress_snapshot(&mut self)
        requires
            old(self).chan_wf(),
            !old(self).finished(),
        ensures
            final(self).chan_wf(),
            Self::governor_step(*old(self), *final(self)),
            final(self).progress == old(self).progress,
            final(self).emitted_progress_entries == old(self).emitted_progress_entries,
            final(self).backpressure_warning_emitted == old(self).backpressure_warning_emitted,
            final(self).dropped_node_updates == old(self).dropped_node_updates,
            final(self).deferred_progress() == old(self).deferred_progress() || final(self).deferred_progress() == spec_sat_add(old(self).deferred_progress(), 1),
            final(self).coalesced_progress() == old(self).coalesced_progress() || final(self).coalesced_progress() == spec_sat_add(old(self).coalesced_progress(), 1),
            final(self).coalesced_progress() != old(self).coalesced_progress() ==> final(self).deferred_progress() == spec_sat_add(old(self).deferred_progress(), 1),
            !final(self).consumer_gone() ==> (match final(self).pending_progress {
                Some(p) => p == old(self).progress,
                None => true,
            }),
            forall|k: int|
                old(self).log().len() <= k < final(self).log().len() ==> (#[trigger] final(self).log()[k]) is Progress,
    {
        if self.channel_closed {
            return;
        }
        self.try_flush_pending_progress();
        if self.channel_closed {
            return;
        }
        let snap = self.progress;
        if self.pending_progress.is_some() {
            // The flush just failed, so the channel is full: coalesce into
            // the pending slot, newest snapshot wins.
            self.deferred_progress_updates = sat_add(self.deferred_progress_updates, 1);
            self.coalesced_progress_updates = sat_add(self.coalesced_progress_updates, 1);
            self.pending_progress = Some(snap);
        } else {
            match try_send_event(&self.tx, ScanEvent::Progress(snap)) {
                SendAttempt::Sent => {
                    proof {
                        self.events@ = self.events@.push(ScanEvent::Progress(snap));
                    }
                },
                SendAttempt::Kept(_) => {
                    self.deferred_progress_updates = sat_add(self.deferred_progress_updates, 1);
                    self.pending_progress = Some(snap);
                },
                SendAttempt::Disconnected => {
                    self.channel_closed = true;
                },
            }
        }
        proof {
            assert(old(self).log().is_prefix_of(self.log()));
        }
    }

    /// Record one visited entry and its sizes, and offer a progress snapshot
    /// every [`PROGRESS_EMIT_EVERY`] entries.
    fn bump_entry(&mut self, apparent: u64, allocated: u64)
        requires
            old(self).chan_wf(),
            !old(self).finished(),
        ensures
            final(self).chan_wf(),
            Self::governor_step(*old(self), *final(self)),
            final(self).progress.visited_entries == spec_sat_add(old(self).progress.visited_entries, 1),
            final(self).progress.apparent_bytes_seen == spec_sat_add(old(self).progress.apparent_bytes_seen, apparent),
            final(self).progress.allocated_bytes_seen == spec_sat_add(old(self).progress.allocated_bytes_seen, allocated),
            final(self).progress.warnings == old(self).progress.warnings,
            final(self).backpressure_warning_emitted == old(self).backpressure_warning_emitted,
            final(self).dropped_node_updates == old(self).dropped_node_updates,
            spec_sat_add(old(self).progress.visited_entries, 1) - old(self).emitted_progress_entries
                < PROGRESS_EMIT_EVERY ==> (final(self).emitted_progress_entries == old(self).emitted_progress_entries
                && final(self).log() == old(self).log()),
            spec_sat_add(old(self).progress.visited_entries, 1) - old(self).emitted_progress_entries
                >= PROGRESS_EMIT_EVERY ==> final(self).emitted_progress_entries == final(self).progress.visited_entries,
            forall|k: int|
                old(self).log().len() <= k < final(self).log().len() ==> (#[trigger] final(self).log()[k]) is Progress,
    {
        self.progress.visited_entries = sat_add(self.progress.visited_entries, 1);
        self.progress.apparent_bytes_seen = sat_add(self.progress.apparent_bytes_seen, apparent);
        self.progress.allocated_bytes_seen = sat_add(self.progress.allocated_bytes_seen, allocated);
        if self.progress.visited_entries - self.emitted_progress_entries >= PROGRESS_EMIT_EVERY {
            self.emitted_progress_entries = self.progress.visited_entries;
            self.send_progress_snapshot();
        }
    }

    /// Record one warning and deliver it as a critical event.
    fn bump_warning(&mut self, path: String, message: String)
        requires
            old(self).chan_wf(),
            !old(self).finished(),
        ensures
            final(self).chan_wf(),
            Self::governor_step(*old(self), *final(self)),
            final(self).progress.warnings == spec_sat_add(old(self).progress.warnings, 1),
            final(self).progress.visited_entries == old(self).progress.visited_entries,
            final(self).progress.apparent_bytes_seen == old(self).progress.apparent_bytes_seen,
            final(self).progress.allocated_bytes_seen == old(self).progress.allocated_bytes_seen,
            final(self).backpressure_warning_emitted == old(self).backpressure_warning_emitted,
            !final(self).channel_closed ==> final(self).log().len() > old(self).log().len()
                && (final(self).log().last() matches ScanEvent::Warning { path: p, .. } && p == path),
            forall|k: int|
                old(self).log().len() <= k < final(self).log().len() ==> ((#[trigger] final(self).log()[k]) is Progress || (final(self).log()[k]
                    matches ScanEvent::Warning { path: p, .. } && p@ == path@)),
    {
        self.progress.warnings = sat_add(self.progress.warnings, 1);
        self.send_critical(ScanEvent::Warning { path, message });
    }

    /// Offer a progress snapshot right now, regardless of cadence.
    fn emit_progress_now(&mut self)
        requires
            old(self).chan_wf(),
            !old(self).finished(),
        ensures
            final(self).chan_wf(),
            Self::governor_step(*old(self), *final(self)),
            final(self).progress == old(self).progress,
            final(self).backpressure_warning_emitted == old(self).backpressure_warning_emitted,
            forall|k: int|
                old(self).log().len() <= k < final(self).log().len() ==> (#[trigger] final(self).log()[k]) is Progress,
    {
        self.emitted_progress_entries = self.progress.visited_entries;
        self.send_progress_snapshot();
    }

    /// If any node update was dropped or any progress snapshot deferred,
    /// surface that once, as a critical warning, before the scan ends: the
    /// warning is sent exactly when losses occurred and none was reported
    /// yet, it counts as one warning, and the flag it sets makes every
    /// later call a no-op, so the loss report is never repeated.
    fn emit_backpressure_warning_if_needed(&mut self)
        requires
            old(self).chan_wf(),
            !old(self).finished(),
        ensures
            final(self).chan_wf(),
            Self::governor_step(*old(self), *final(self)),
            (old(self).backpressure_warned() || old(self).consumer_gone() || (old(self).dropped_updates() == 0 && old(self).deferred_progress() == 0)) ==> *final(self)
                == *old(self),
            !(old(self).backpressure_warned() || old(self).consumer_gone() || (old(self).dropped_updates() == 0 && old(self).deferred_progress() == 0)) ==> (final(self).backpressure_warned()
                && final(self).cur_progress().warnings == spec_sat_add(
                old(self).cur_progress().warnings,
                1,
            ) && final(self).cur_progress().visited_entries == old(self).cur_progress().visited_entries
                && final(self).cur_progress().apparent_bytes_seen == old(self).cur_progress().apparent_bytes_seen
                && final(self).cur_progress().allocated_bytes_seen == old(self).cur_progress().allocated_bytes_seen
                && (!final(self).consumer_gone() ==> final(self).log().len() > old(self).log().len()
                && (final(self).log().last() matches ScanEvent::Warning { path, .. } && path@
                == old(self).spec_options().root@))),
            forall|k: int|
                old(self).log().len() <= k < final(self).log().len() ==> ((#[trigger] final(self).log()[k]) is Progress || (final(self).log()[k]
                    matches ScanEvent::Warning { path: p, .. } && p@
                    == old(self).spec_options().root@)),
    {
        if self.backpressure_warning_emitted || self.channel_closed {
            return;
        }
        if self.dropped_node_updates == 0 && self.deferred_progress_updates == 0 {
            return;
        }
        self.backpressure_warning_emitted = true;
        self.progress.warnings = sat_add(self.progress.warnings, 1);
        let mut message = String::new();
        message.append("scanner backpressure: dropped ");
        message.append(u64_to_string(self.dropped_node_updates).as_str());
        message.append(" node updates; deferred ");
        message.append(u64_to_string(self.deferred_progress_updates).as_str());
        message.append(" progress updates (");
        message.append(u64_to_string(self.coalesced_progress_updates).as_str());
        message.append(" coalesced)");
        let path = self.options.root.clone();
        self.send_critical(ScanEvent::Warning { path, message });
    }

    /// Add one child's sizes to a frame's running totals (saturating) and
    /// count it.
    fn accumulate_child(frame: &mut DirFrame, a: u64, b: u64)
        requires
            old(frame).wf(),
        ensures
            final(frame).wf(),
            final(frame).apparent_total == spec_sat_add(old(frame).apparent_total, a),
            final(frame).allocated_total == spec_sat_add(old(frame).allocated_total, b),
            final(frame).children_count == spec_sat_add(old(frame).children_count, 1),
            final(frame).path == old(frame).path,
            final(frame).depth == old(frame).depth,
            final(frame).is_symlink_dir == old(frame).is_symlink_dir,
            final(frame).own_apparent == old(frame).own_apparent,
            final(frame).own_allocated == old(frame).own_allocated,
            final(frame).emit_updates == old(frame).emit_updates,
            final(frame).pending == old(frame).pending,
    {
        frame.apparent_total = sat_add(frame.apparent_total, a);
        frame.allocated_total = sat_add(frame.allocated_total, b);
        frame.children_count = sat_add(frame.children_count, 1);
        proof {
            frame.kid_sizes@ = frame.kid_sizes@.push((a, b));
            assert(frame.kid_sizes@.map_values(|k: (u64, u64)| k.0) =~= old(
                frame,
            ).kid_sizes@.map_values(|k: (u64, u64)| k.0).push(a));
            assert(frame.kid_sizes@.map_values(|k: (u64, u64)| k.1) =~= old(
                frame,
            ).kid_sizes@.map_values(|k: (u64, u64)| k.1).push(b));
            assert(frame.kid_sizes@.map_values(|k: (u64, u64)| k.0).drop_last() =~= old(
                frame,
            ).kid_sizes@.map_values(|k: (u64, u64)| k.0));
            assert(frame.kid_sizes@.map_values(|k: (u64, u64)| k.1).drop_last() =~= old(
                frame,
            ).kid_sizes@.map_values(|k: (u64, u64)| k.1));
        }
    }

    /// Count one terminal entry (its sizes go into the progress counters) and
    /// emit its summary when asked to; returns the sizes it contributes to
    /// the parent's totals.
    fn summarize_non_dir(&mut self, path: String, kind: FsEntryKind, meta: EntryMeta, emit: bool) -> (r: (
        u64,
        u64,
    ))
        requires
            old(self).chan_wf(),
            !old(self).finished(),
        ensures
            final(self).chan_wf(),
            Self::governor_step(*old(self), *final(self)),
            r == (meta.len, meta.allocated),
            final(self).cur_progress().warnings == old(self).cur_progress().warnings,
            final(self).cur_progress().visited_entries == spec_sat_add(
                old(self).cur_progress().visited_entries,
                1,
            ),
            final(self).cur_progress().apparent_bytes_seen == spec_sat_add(
                old(self).cur_progress().apparent_bytes_seen,
                meta.len,
            ),
            final(self).cur_progress().allocated_bytes_seen == spec_sat_add(
                old(self).cur_progress().allocated_bytes_seen,
                meta.allocated,
            ),
            forall|k: int|
                old(self).log().len() <= k < final(self).log().len() ==> ((#[trigger] final(self).log()[k]) is Progress || (final(self).log()[k]
                    matches ScanEvent::NodeUpdated(nu) && emit && nu.path@ == path@ && nu.kind
                    == kind && nu.apparent_bytes == meta.len && nu.allocated_bytes
                    == meta.allocated && nu.children_count == 0 && nu.is_complete)),
    {
        self.bump_entry(meta.len, meta.allocated);
        if emit {
            let ghost p1 = *self;
            let s = NodeSummary {
                path: path.clone(),
                kind,
                apparent_bytes: meta.len,
                allocated_bytes: meta.allocated,
                children_count: 0,
                is_complete: true,
                last_updated: now_millis(),
            };
            self.send_node_update(s);
            proof {
                lemma_prefix_trans(old(self).log(), p1.log(), self.log());
                assert forall|k: int|
                    old(self).log().len() <= k < self.log().len() implies ((
                #[trigger] self.log()[k]) is Progress || (self.log()[k]
                    matches ScanEvent::NodeUpdated(nu) && emit && nu.path@ == path@ && nu.kind
                    == kind && nu.apparent_bytes == meta.len && nu.allocated_bytes
                    == meta.allocated && nu.children_count == 0 && nu.is_complete)) by {
                    if k < p1.log().len() {
                        lemma_prefix_index(p1.log(), self.log(), k);
                    }
                }
            }
        }
        (meta.len, meta.allocated)
    }

    /// Close the scan successfully: surface any backpressure loss, offer a
    /// final progress snapshot, then deliver `Complete`.
    fn finish_complete(&mut self)
        requires
            old(self).chan_wf(),
            old(self).frames_wf(),
            !old(self).finished(),
            old(self).opening is None,
        ensures
            final(self).wf(),
            final(self).finished(),
            old(self).progress.le(final(self).progress),
            old(self).log().is_prefix_of(final(self).log()),
            final(self).options == old(self).options,
            final(self).cur_progress().visited_entries == old(self).cur_progress().visited_entries,
            final(self).cur_progress().apparent_bytes_seen == old(self).cur_progress().apparent_bytes_seen,
            final(self).cur_progress().allocated_bytes_seen == old(self).cur_progress().allocated_bytes_seen,
            !final(self).consumer_gone() ==> final(self).log().len() > 0 && (final(self).log().last()
                matches ScanEvent::Complete(p) && p == final(self).cur_progress()),
            forall|k: int|
                old(self).log().len() <= k < final(self).log().len() ==> ((#[trigger] final(self).log()[k]) is Progress || (final(self).log()[k]
                    matches ScanEvent::Warning { path, .. } && path@
                    == old(self).spec_options().root@) || final(self).log()[k] is Complete),
    {
        let ghost s0 = *self;
        self.emit_backpressure_warning_if_needed();
        let ghost s1 = *self;
        self.emit_progress_now();
        proof {
            lemma_prefix_trans(s0.log(), s1.log(), self.log());
        }
        let ghost s2 = *self;
        let snapshot = self.progress;
        self.phase = EnginePhase::Finished;
        self.send_terminal(ScanEvent::Complete(snapshot));
        proof {
            lemma_prefix_trans(s0.log(), s2.log(), self.log());
            assert forall|k: int|
                s0.log().len() <= k < self.log().len() implies ((#[trigger] self.log()[k])
                is Progress || (self.log()[k] matches ScanEvent::Warning { path, .. } && path@
                == s0.spec_options().root@) || self.log()[k] is Complete) by {
                if k < s1.log().len() {
                    lemma_prefix_index(s1.log(), self.log(), k);
                } else if k < s2.log().len() {
                    lemma_prefix_index(s2.log(), self.log(), k);
                }
            }
        }
    }

    /// Close the scan after the cancel flag was observed (or the consumer
    /// vanished): surface any backpressure loss, offer each still-open
    /// directory its final summary with the totals aggregated so far
    /// (deepest first, so children still precede their parents), then
    /// deliver `Cancelled`.
    fn finish_cancelled(&mut self)
        requires
            old(self).chan_wf(),
            old(self).frames_wf(),
            !old(self).finished(),
        ensures
            final(self).wf(),
            final(self).finished(),
            old(self).progress.le(final(self).progress),
            old(self).log().is_prefix_of(final(self).log()),
            final(self).options == old(self).options,
            !final(self).consumer_gone() ==> final(self).log().len() > 0 && final(self).log().last() is Cancelled,
            forall|k: int|
                old(self).log().len() <= k < final(self).log().len() ==> ((#[trigger] final(self).log()[k]) is Progress || (final(self).log()[k]
                    matches ScanEvent::Warning { path, .. } && path@
                    == old(self).spec_options().root@) || final(self).log()[k] is Cancelled || (
                final(self).log()[k] matches ScanEvent::NodeUpdated(nu) && exists|i: int|
                    0 <= i < old(self).stack@.len() && spec_frame_final_summary(
                        #[trigger] old(self).stack@[i],
                        nu,
                    ))),
    {
        let ghost s0 = *self;
        self.emit_backpressure_warning_if_needed();
        proof {
            assert(self.stack@ =~= s0.stack@.subrange(0, self.stack@.len() as int));
        }
        loop
            invariant
                self.chan_wf(),
                !self.finished(),
                self.options == old(self).options,
                old(self).progress.le(self.progress),
                old(self).log().is_prefix_of(self.log()),
                self.frames_wf(),
                self.stack@.len() <= old(self).stack@.len(),
                self.stack@ == old(self).stack@.subrange(0, self.stack@.len() as int),
                self.opening == old(self).opening,
                self.phase == old(self).phase,
                forall|k: int|
                    old(self).log().len() <= k < self.log().len() ==> ((#[trigger] self.log()[k]) is Progress || (self.log()[k]
                        matches ScanEvent::Warning { path, .. } && path@
                        == old(self).spec_options().root@) || (self.log()[k]
                        matches ScanEvent::NodeUpdated(nu) && exists|i: int|
                        0 <= i < old(self).stack@.len() && spec_frame_final_summary(
                            #[trigger] old(self).stack@[i],
                            nu,
                        ))),
            ensures
                self.chan_wf(),
                !self.finished(),
                self.frames_wf(),
                self.options == old(self).options,
                old(self).progress.le(self.progress),
                old(self).log().is_prefix_of(self.log()),
                forall|k: int|
                    old(self).log().len() <= k < self.log().len() ==> ((#[trigger] self.log()[k]) is Progress || (self.log()[k]
                        matches ScanEvent::Warning { path, .. } && path@
                        == old(self).spec_options().root@) || (self.log()[k]
                        matches ScanEvent::NodeUpdated(nu) && exists|i: int|
                        0 <= i < old(self).stack@.len() && spec_frame_final_summary(
                            #[trigger] old(self).stack@[i],
                            nu,
                        ))),
            decreases self.stack@.len(),
        {
            let ghost pre_len = self.stack@.len() as int;
            let top = match self.stack.pop() {
                Some(t) => t,
                None => { break; },
            };
            proof {
                assert(top == old(self).stack@[pre_len - 1]);
                assert(self.stack@ =~= old(self).stack@.subrange(0, pre_len - 1));
            }
            if top.emit_updates {
                let s = NodeSummary {
                    path: top.path.clone(),
                    kind: if top.is_symlink_dir {
                        FsEntryKind::Symlink
                    } else {
                        FsEntryKind::Dir
                    },
                    apparent_bytes: top.apparent_total,
                    allocated_bytes: top.allocated_total,
                    children_count: top.children_count,
                    is_complete: true,
                    last_updated: now_millis(),
                };
                let ghost p1 = *self;
                self.send_node_update(s);
                proof {
                    lemma_prefix_trans(old(self).log(), p1.log(), self.log());
                    assert forall|k: int|
                        old(self).log().len() <= k < self.log().len() implies ((
                    #[trigger] self.log()[k]) is Progress || (self.log()[k]
                        matches ScanEvent::Warning { path, .. } && path@
                        == old(self).spec_options().root@) || (self.log()[k]
                        matches ScanEvent::NodeUpdated(nu) && exists|i: int|
                        0 <= i < old(self).stack@.len() && spec_frame_final_summary(
                            #[trigger] old(self).stack@[i],
                            nu,
                        ))) by {
                        if k < p1.log().len() {
                            lemma_prefix_index(p1.log(), self.log(), k);
                        } else if !(self.log()[k] is Progress) {
                            assert(self.log()[k] == ScanEvent::NodeUpdated(s));
                            assert(0 <= pre_len - 1 < old(self).stack@.len());
                            assert(spec_frame_final_summary(old(self).stack@[pre_len - 1], s));
                        }
                    }
                }
            }
        }
        let ghost s1 = *self;
        self.opening = None;
        self.phase = EnginePhase::Finished;
        self.send_terminal(ScanEvent::Cancelled);
        proof {
            lemma_prefix_trans(old(self).log(), s1.log(), self.log());
            assert forall|k: int|
                old(self).log().len() <= k < self.log().len() implies ((
            #[trigger] self.log()[k]) is Progress || (self.log()[k]
                matches ScanEvent::Warning { path, .. } && path@ == old(self).spec_options().root@)
                || self.log()[k] is Cancelled || (self.log()[k]
                matches ScanEvent::NodeUpdated(nu) && exists|i: int|
                0 <= i < old(self).stack@.len() && spec_frame_final_summary(
                    #[trigger] old(self).stack@[i],
                    nu,
                ))) by {
                if k < s1.log().len() {
                    lemma_prefix_index(s1.log(), self.log(), k);
                }
            }
        }
    }

    /// Close the scan with a fatal error (the scan root could not be
    /// statted): deliver `Error`, with no `Complete`.
    fn finish_error(&mut self, message: String)
        requires
            old(self).chan_wf(),
            old(self).frames_wf(),
            !old(self).finished(),
            old(self).opening is None,
        ensures
            final(self).wf(),
            final(self).finished(),
            old(self).progress.le(final(self).progress),
            old(self).log().is_prefix_of(final(self).log()),
            final(self).options == old(self).options,
            !final(self).consumer_gone() ==> final(self).log().len() > 0 && final(self).log().last() is Error,
            old(self).pending_progress is None ==> forall|k: int|
                old(self).log().len() <= k < final(self).log().len() ==> (#[trigger] final(self).log()[k]) is Error,
            forall|k: int|
                old(self).log().len() <= k < final(self).log().len() ==> ((#[trigger] final(self).log()[k]) is Progress || final(self).log()[k] is Error),
    {
        self.phase = EnginePhase::Finished;
        self.send_terminal(ScanEvent::Error(message));
    }

    /// Begin scanning one directory: emit its provisional summary when owed
    /// and wait for its listing.
    fn push_frame(&mut self, child: PendingChild)
        requires
            old(self).chan_wf(),
            old(self).frames_wf(),
            !old(self).finished(),
            old(self).opening is None,
        ensures
            final(self).wf(),
            final(self).wants_list(),
            final(self).stack_len() == old(self).stack_len() + 1,
            old(self).progress.le(final(self).progress),
            old(self).log().is_prefix_of(final(self).log()),
            final(self).options == old(self).options,
            final(self).progress == old(self).progress,
            final(self).visited_views() == old(self).visited_views(),
            forall|i: int|
                0 <= i < old(self).stack@.len() ==> final(self).stack@[i] == old(self).stack@[i],
            final(self).stack@.last().path@ == child.path@,
            final(self).stack@.last().own_apparent == child.meta.len,
            final(self).stack@.last().own_allocated == child.meta.allocated,
            final(self).stack@.last().apparent_total == child.meta.len,
            final(self).stack@.last().allocated_total == child.meta.allocated,
            final(self).stack@.last().children_count == 0,
            final(self).stack@.last().pending@.len() == 0,
            final(self).stack@.last().emit_updates == child.emit_updates,
            final(self).stack@.last().depth == child.depth,
            !(child.need_initial_emit && child.emit_updates) ==> final(self).log() == old(self).log(),
            forall|k: int|
                old(self).log().len() <= k < final(self).log().len() ==> ((#[trigger] final(self).log()[k]) is Progress || (final(self).log()[k]
                    matches ScanEvent::NodeUpdated(nu) && child.need_initial_emit
                    && child.emit_updates && nu.path@ == child.path@
                    && nu.apparent_bytes == child.meta.len && nu.allocated_bytes
                    == child.meta.allocated && nu.children_count == 0 && !nu.is_complete)),
    {
        let own_apparent = child.meta.len;
        let own_allocated = child.meta.allocated;
        if child.need_initial_emit && child.emit_updates {
            let s = NodeSummary {
                path: child.path.clone(),
                kind: if child.is_symlink_dir {
                    FsEntryKind::Symlink
                } else {
                    FsEntryKind::Dir
                },
                apparent_bytes: own_apparent,
                allocated_bytes: own_allocated,
                children_count: 0,
                is_complete: false,
                last_updated: now_millis(),
            };
            self.send_node_update(s);
        }
        let frame = DirFrame {
            path: child.path,
            depth: child.depth,
            is_symlink_dir: child.is_symlink_dir,
            own_apparent,
            own_allocated,
            apparent_total: own_apparent,
            allocated_total: own_allocated,
            children_count: 0,
            emit_updates: child.emit_updates,
            pending: Vec::new(),
            kid_sizes: Ghost(Seq::empty()),
        };
        proof {
            assert(frame.kid_sizes@.map_values(|k: (u64, u64)| k.0) =~= Seq::<u64>::empty());
            assert(frame.kid_sizes@.map_values(|k: (u64, u64)| k.1) =~= Seq::<u64>::empty());
            assert(frame.wf());
        }
        let ghost st = self.stack@;
        self.stack.push(frame);
        proof {
            assert forall|i: int| 0 <= i < self.stack@.len() implies (#[trigger] self.stack@[i]).wf() by {
                if i < st.len() {
                    assert(self.stack@[i] == st[i]);
                }
            }
        }
        self.phase = EnginePhase::AwaitList;
    }

    /// Start on one directory child: check for cancellation, then either
    /// descend directly or, for a symlinked directory, ask for its canonical
    /// path first (the cycle check).
    fn enter_dir(&mut self, child: PendingChild)
        requires
            old(self).chan_wf(),
            old(self).frames_wf(),
            !old(self).finished(),
            old(self).opening is None,
        ensures
            final(self).wf(),
            old(self).progress.le(final(self).progress),
            old(self).log().is_prefix_of(final(self).log()),
            final(self).options == old(self).options,
            (final(self).finished() && !final(self).consumer_gone()) ==> final(self).log().len()
                > 0 && final(self).log().last().is_terminal(),
            Self::spec_cancelled_exit(*final(self)) || ((child.is_symlink_dir ==> (final(self).wants_canonicalize()
                && final(self).opening_view() == Some(pending_view(child)) && final(self).stack@
                == old(self).stack@ && final(self).log() == old(self).log() && final(self).progress
                == old(self).progress)) && (!child.is_symlink_dir ==> (final(self).wants_list()
                && final(self).stack@.len() == old(self).stack@.len() + 1 && (forall|i: int|
                0 <= i < old(self).stack@.len() ==> final(self).stack@[i] == old(self).stack@[i])
                && final(self).stack@.last().path@ == child.path@
                && final(self).stack@.last().own_apparent == child.meta.len
                && final(self).stack@.last().own_allocated == child.meta.allocated
                && final(self).stack@.last().apparent_total == child.meta.len
                && final(self).stack@.last().allocated_total == child.meta.allocated
                && final(self).stack@.last().children_count == 0
                && final(self).stack@.last().pending@.len() == 0
                && final(self).stack@.last().emit_updates == child.emit_updates
                && final(self).stack@.last().depth == child.depth
                && final(self).progress == old(self).progress))),
            forall|k: int|
                old(self).log().len() <= k < final(self).log().len() ==> ((#[trigger] final(self).log()[k]) is Progress || (final(self).log()[k]
                    matches ScanEvent::Warning { path, .. } && path@
                    == old(self).spec_options().root@) || final(self).log()[k] is Cancelled || (
                final(self).log()[k] matches ScanEvent::NodeUpdated(nu) && ((exists|i: int|
                    0 <= i < old(self).stack@.len() && spec_frame_final_summary(
                        #[trigger] old(self).stack@[i],
                        nu,
                    )) || (child.need_initial_emit && child.emit_updates && nu.path@ == child.path@
                    && nu.apparent_bytes == child.meta.len && nu.allocated_bytes
                    == child.meta.allocated && nu.children_count == 0 && !nu.is_complete)))),
    {
        if self.should_cancel() {
            self.finish_cancelled();
            return;
        }
        if child.is_symlink_dir {
            self.opening = Some(child);
            self.phase = EnginePhase::AwaitCanonical;
        } else {
            self.push_frame(child);
        }
    }

    /// One step of the walk between filesystem requests: finalize the
    /// finished directory on top of the stack (emitting its aggregate
    /// summary and folding its totals into its parent), open its next
    /// queued child, or close the scan when the stack has run out. Once
    /// cancellation is observed, each still-open directory is offered a
    /// final summary with its totals aggregated so far and `Cancelled`
    /// closes the stream.
    pub fn proceed(&mut self)
        requires
            old(self).wf(),
            old(self).wants_proceed(),
        ensures
            final(self).wf(),
            old(self).cur_progress().le(final(self).cur_progress()),
            old(self).log().is_prefix_of(final(self).log()),
            final(self).spec_options() == old(self).spec_options(),
            (final(self).finished() && !final(self).consumer_gone()) ==> final(self).log().len()
                > 0 && final(self).log().last().is_terminal(),
            old(self).stack_len() == 0 ==> (Self::spec_cancelled_exit(*final(self))
                || Self::spec_complete_exit(*final(self))),
            (old(self).stack_len() > 0 && old(self).frame_pending_views(
                old(self).stack_len() - 1,
            ).len() > 0) ==> (Self::spec_cancelled_exit(*final(self)) || ((
            old(self).frame_pending_views(old(self).stack_len() - 1)[0].is_symlink
                ==> (final(self).wants_canonicalize() && final(self).opening_view() == Some(
                old(self).frame_pending_views(old(self).stack_len() - 1)[0],
            ) && final(self).stack_len() == old(self).stack_len() && final(self).log() == old(self).log())) && (!old(self).frame_pending_views(old(self).stack_len() - 1)[0].is_symlink
                ==> (final(self).wants_list() && final(self).stack_len() == old(self).stack_len()
                + 1 && final(self).frame_path(final(self).stack_len() - 1) == old(self).frame_pending_views(old(self).stack_len() - 1)[0].path && final(self).frame_own(
                final(self).stack_len() - 1,
            ) == (old(self).frame_pending_views(old(self).stack_len() - 1)[0].apparent, old(self).frame_pending_views(old(self).stack_len() - 1)[0].allocated) && final(self).frame_totals(final(self).stack_len() - 1) == final(self).frame_own(
                final(self).stack_len() - 1,
            ) && final(self).frame_children_count(final(self).stack_len() - 1) == 0 && final(self).frame_pending_views(final(self).stack_len() - 1).len() == 0 && final(self).frame_emit(
                final(self).stack_len() - 1,
            ) == old(self).frame_pending_views(old(self).stack_len() - 1)[0].emit && final(self).frame_depth(final(self).stack_len() - 1) == old(self).frame_pending_views(
                old(self).stack_len() - 1,
            )[0].depth)) && final(self).cur_progress() == old(self).cur_progress() && final(self).frame_pending_views(
                old(self).stack_len() - 1,
            ) == old(self).frame_pending_views(old(self).stack_len() - 1).drop_first() && final(self).frame_totals(old(self).stack_len() - 1) == old(self).frame_totals(
                old(self).stack_len() - 1,
            ))),
            (old(self).stack_len() > 0 && old(self).frame_pending_views(
                old(self).stack_len() - 1,
            ).len() == 0) ==> (Self::spec_cancelled_exit(*final(self)) || (
            final(self).cur_progress().visited_entries == spec_sat_add(
                old(self).cur_progress().visited_entries,
                1,
            ) && final(self).cur_progress().apparent_bytes_seen == spec_sat_add(
                old(self).cur_progress().apparent_bytes_seen,
                old(self).frame_own(old(self).stack_len() - 1).0,
            ) && final(self).cur_progress().allocated_bytes_seen == spec_sat_add(
                old(self).cur_progress().allocated_bytes_seen,
                old(self).frame_own(old(self).stack_len() - 1).1,
            ) && (old(self).stack_len() >= 2 ==> (final(self).wants_proceed() && final(self).stack_len() == old(self).stack_len() - 1 && final(self).cur_progress().warnings
                == old(self).cur_progress().warnings && final(self).frame_totals(
                final(self).stack_len() - 1,
            ) == (spec_sat_add(
                old(self).frame_totals(old(self).stack_len() - 2).0,
                old(self).frame_totals(old(self).stack_len() - 1).0,
            ), spec_sat_add(
                old(self).frame_totals(old(self).stack_len() - 2).1,
                old(self).frame_totals(old(self).stack_len() - 1).1,
            )) && final(self).frame_children_count(final(self).stack_len() - 1) == spec_sat_add(
                old(self).frame_children_count(old(self).stack_len() - 2),
                1,
            ) && final(self).frame_pending_views(final(self).stack_len() - 1) == old(self).frame_pending_views(old(self).stack_len() - 2))) && (old(self).stack_len() == 1
                ==> (final(self).finished() && (!final(self).consumer_gone() ==> final(self).log().len() > 0 && (final(self).log().last() matches ScanEvent::Complete(p) && p
                == final(self).cur_progress())))))),
            forall|k: int|
                old(self).log().len() <= k < final(self).log().len() ==> Self::spec_proceed_event_ok(
                    *old(self),
                    #[trigger] final(self).log()[k],
                ),
    {
        let ghost n = old(self).stack_len() as int;
        if self.should_cancel() {
            self.finish_cancelled();
            proof {
                assert forall|k: int|
                    old(self).log().len() <= k < self.log().len() implies Self::spec_proceed_event_ok(
                *old(self),
                #[trigger] self.log()[k],
                ) by {
                    match self.log()[k] {
                        ScanEvent::NodeUpdated(nu) => {
                            let i = choose|i: int|
                                0 <= i < old(self).stack@.len() && spec_frame_final_summary(
                                    #[trigger] old(self).stack@[i],
                                    nu,
                                );
                            assert(old(self).frame_path(i) == nu.path@ && old(self).frame_emit(i));
                        },
                        _ => {},
                    }
                }
            }
            return;
        }
        let mut top = match self.stack.pop() {
            Some(t) => t,
            None => {
                self.finish_complete();
                return;
            },
        };
        if top.pending.len() > 0 {
            let child = top.pending.remove(0);
            let ghost st = self.stack@;
            self.stack.push(top);
            proof {
                assert forall|i: int| 0 <= i < self.stack@.len() implies (#[trigger] self.stack@[i]).wf() by {
                    if i < st.len() {
                        assert(self.stack@[i] == st[i]);
                    }
                }
                assert(self.frame_pending_views(self.stack_len() - 1) =~= old(self).frame_pending_views(old(self).stack_len() - 1).drop_first());
                assert(pending_view(child) == old(self).frame_pending_views(n - 1)[0]);
            }
            let ghost ep = *self;
            self.enter_dir(child);
            proof {
                assert forall|k: int|
                    old(self).log().len() <= k < self.log().len() implies Self::spec_proceed_event_ok(
                *old(self),
                #[trigger] self.log()[k],
                ) by {
                    match self.log()[k] {
                        ScanEvent::NodeUpdated(nu) => {
                            if exists|i: int|
                                0 <= i < ep.stack@.len() && spec_frame_final_summary(
                                    #[trigger] ep.stack@[i],
                                    nu,
                                ) {
                                let i = choose|i: int|
                                    0 <= i < ep.stack@.len() && spec_frame_final_summary(
                                        #[trigger] ep.stack@[i],
                                        nu,
                                    );
                                assert(ep.stack@[i].path@ == old(self).stack@[i].path@
                                    && ep.stack@[i].emit_updates
                                    == old(self).stack@[i].emit_updates);
                                assert(old(self).frame_path(i) == nu.path@ && old(self).frame_emit(
                                    i,
                                ));
                            } else {
                                assert(old(self).frame_pending_views(n - 1).len() > 0);
                                assert(old(self).frame_pending_views(n - 1)[0].first_due
                                    && old(self).frame_pending_views(n - 1)[0].emit);
                            }
                        },
                        _ => {},
                    }
                }
            }
            return;
        }
        let summary = NodeSummary {
            path: top.path.clone(),
            kind: if top.is_symlink_dir {
                FsEntryKind::Symlink
            } else {
                FsEntryKind::Dir
            },
            apparent_bytes: top.apparent_total,
            allocated_bytes: top.allocated_total,
            children_count: top.children_count,
            is_complete: true,
            last_updated: now_millis(),
        };
        proof {
            assert(top == old(self).stack@[n - 1]);
            assert(old(self).frame_pending_views(n - 1).len() == 0);
        }
        let ghost g0 = *self;
        self.bump_entry(top.own_apparent, top.own_allocated);
        let ghost ga = *self;
        if top.emit_updates {
            self.send_node_update(summary);
            proof {
                lemma_prefix_trans(g0.log(), ga.log(), self.log());
            }
        }
        let ghost gb = *self;
        proof {
            assert forall|k: int|
                g0.log().len() <= k < gb.log().len() implies ((#[trigger] gb.log()[k]) is Progress
                || (gb.log()[k]
                matches ScanEvent::NodeUpdated(nu) && old(self).frame_emit(n - 1)
                && nu.path@ == old(self).frame_path(n - 1)
                && nu.apparent_bytes == old(self).frame_totals(n - 1).0 && nu.allocated_bytes
                == old(self).frame_totals(n - 1).1 && nu.children_count
                == old(self).frame_children_count(n - 1) && nu.is_complete)) by {
                if k < ga.log().len() {
                    lemma_prefix_index(ga.log(), gb.log(), k);
                }
            }
        }
        match self.stack.pop() {
            None => {
                let ghost prev3 = *self;
                self.finish_complete();
                proof {
                    lemma_prefix_trans(old(self).log(), prev3.log(), self.log());
                    assert forall|k: int|
                        old(self).log().len() <= k < self.log().len() implies Self::spec_proceed_event_ok(
                    *old(self),
                    #[trigger] self.log()[k],
                    ) by {
                        if k < gb.log().len() {
                            lemma_prefix_index(gb.log(), self.log(), k);
                        }
                    }
                }
            },
            Some(mut parent) => {
                proof {
                    assert(parent == old(self).stack@[n - 2]);
                }
                Self::accumulate_child(&mut parent, top.apparent_total, top.allocated_total);
                let ghost st = self.stack@;
                self.stack.push(parent);
                proof {
                    assert forall|i: int| 0 <= i < self.stack@.len() implies (#[trigger] self.stack@[i]).wf() by {
                        if i < st.len() {
                            assert(self.stack@[i] == st[i]);
                        }
                    }
                    assert(self.frame_pending_views(self.stack_len() - 1) =~= old(self).frame_pending_views(n - 2));
                    assert forall|k: int|
                        old(self).log().len() <= k < self.log().len() implies Self::spec_proceed_event_ok(
                    *old(self),
                    #[trigger] self.log()[k],
                    ) by {}
                }
            },
        }
    }

    /// Whether this canonical path was already entered through a symlink in
    /// this scan.
    fn visited_contains(&self, canon: &String) -> (r: bool)
        ensures
            r == self.visited_views().contains(canon@),
    {
        let mut i: usize = 0;
        let n = self.visited_symlink_dirs.len();
        while i < n
            invariant
                i <= n,
                n == self.visited_symlink_dirs@.len(),
                forall|j: int| 0 <= j < i ==> self.visited_views()[j] != canon@,
            decreases n - i,
        {
            if self.visited_symlink_dirs[i].eq(canon) {
                proof {
                    assert(self.visited_views()[i as int] == canon@);
                }
                return true;
            }
            i += 1;
        }
        proof {
            assert forall|j: int| 0 <= j < self.visited_views().len() implies self.visited_views()[j]
                != canon@ by {
                assert(j < i);
            }
        }
        false
    }

    /// Set up a scan of `options.root` that reports through `tx` and stops
    /// when `cancel` is set. The reset event opens the stream at once; the
    /// first request the new engine makes is a stat of the root.
    pub fn new(
        options: ScanOptions,
        tx: crossbeam_channel::Sender<ScanEvent>,
        cancel: Arc<AtomicBool>,
    ) -> (r: ScanEngine)
        ensures
            r.wf(),
            r.cur_progress().is_zero(),
            r.spec_options() == options,
            r.no_parked_progress(),
            r.log().len() <= 1,
            forall|k: int|
                0 <= k < r.log().len() ==> ((#[trigger] r.log()[k]) matches ScanEvent::Reset {
                    root,
                } && root == options.root),
            !r.consumer_gone() ==> (r.log().len() == 1 && !r.finished() && r.awaiting_root_stat()),
    {
        let mut engine = ScanEngine {
            options,
            tx,
            cancel,
            progress: ScanProgress::default(),
            root_fs: None,
            emitted_progress_entries: 0,
            visited_symlink_dirs: Vec::new(),
            pending_progress: None,
            dropped_node_updates: 0,
            deferred_progress_updates: 0,
            coalesced_progress_updates: 0,
            backpressure_warning_emitted: false,
            channel_closed: false,
            stack: Vec::new(),
            opening: None,
            phase: EnginePhase::AwaitRootStat,
            events: Ghost(Seq::empty()),
        };
        let root = engine.options.root.clone();
        engine.send_critical(ScanEvent::Reset { root });
        if engine.channel_closed {
            engine.phase = EnginePhase::Finished;
        }
        engine
    }

    /// The one filesystem operation the engine is waiting for. `Done` means
    /// the scan is over and the terminal event (when the consumer was still
    /// listening) has been delivered.
    pub fn next_request(&self) -> (r: ScanRequest)
        requires
            self.wf(),
        ensures
            (r is Done) == self.finished(),
            (r is Stat) == self.wants_stat(),
            (r is ListDir) == self.wants_list(),
            (r is Canonicalize) == self.wants_canonicalize(),
            (r is Proceed) == self.wants_proceed(),
    {
        match &self.phase {
            EnginePhase::AwaitRootStat => ScanRequest::Stat {
                path: self.options.root.clone(),
                follow: false,
            },
            EnginePhase::AwaitRootTarget => ScanRequest::Stat {
                path: self.options.root.clone(),
                follow: true,
            },
            EnginePhase::AwaitCanonical => {
                match &self.opening {
                    Some(o) => ScanRequest::Canonicalize { path: o.path.clone() },
                    None => {
                        proof {
                            assert(false);
                        }
                        vstd::pervasive::unreached()
                    },
                }
            },
            EnginePhase::AwaitList => {
                let n = self.stack.len();
                ScanRequest::ListDir { path: self.stack[n - 1].path.clone() }
            },
            EnginePhase::Advancing => ScanRequest::Proceed,
            EnginePhase::Finished => ScanRequest::Done,
        }
    }

    /// Answer a `Stat` request. A failed stat of the root is fatal (`Error`);
    /// a failed follow of a symlinked root is one warning and an empty
    /// completed scan. Otherwise the walk starts on the resolved root.
    pub fn on_stat(&mut self, result: Result<EntryMeta, String>)
        requires
            old(self).wf(),
            old(self).wants_stat(),
        ensures
            final(self).wf(),
            old(self).cur_progress().le(final(self).cur_progress()),
            old(self).log().is_prefix_of(final(self).log()),
            final(self).spec_options() == old(self).spec_options(),
            (final(self).finished() && !final(self).consumer_gone()) ==> final(self).log().len()
                > 0 && final(self).log().last().is_terminal(),
            result is Err ==> final(self).finished(),
            (old(self).awaiting_root_stat() && result is Err && !final(self).consumer_gone())
                ==> (final(self).log().len() > 0 && final(self).log().last() is Error),
            (old(self).awaiting_root_target() && result is Err) ==> (spec_sat_add(
                old(self).cur_progress().warnings,
                1,
            ) <= final(self).cur_progress().warnings && (!final(self).consumer_gone() ==> final(self).log().len() > 0 && final(self).log().last() is Complete)),
            (old(self).awaiting_root_stat() ==> (result matches Ok(m) ==> (((m.is_symlink
                && !old(self).spec_options().follow_symlinks) ==> (Self::spec_cancelled_exit(
                *final(self),
            ) || (Self::spec_complete_exit(*final(self)) && final(self).cur_progress().visited_entries
                == spec_sat_add(old(self).cur_progress().visited_entries, 1)))) && ((m.is_symlink
                && old(self).spec_options().follow_symlinks) ==> (Self::spec_cancelled_exit(
                *final(self),
            ) || final(self).awaiting_root_target())) && ((!m.is_symlink && m.is_dir)
                ==> (Self::spec_cancelled_exit(*final(self)) || (final(self).wants_list()
                && final(self).stack_len() == 1 && final(self).frame_path(0) == old(self).spec_options().root@
                && final(self).frame_own(0) == (m.len, m.allocated)))) && ((!m.is_symlink
                && !m.is_dir) ==> (Self::spec_cancelled_exit(*final(self)) || (
            Self::spec_complete_exit(*final(self)) && final(self).cur_progress().visited_entries
                == spec_sat_add(old(self).cur_progress().visited_entries, 1))))))),
            (old(self).awaiting_root_target() ==> (result matches Ok(m) ==> ((m.is_dir ==> (
            Self::spec_cancelled_exit(*final(self)) || (final(self).wants_canonicalize() && final(self).opening_view() == Some(
                spec_pending_view(
                    old(self).spec_options().root@,
                    true,
                    m.len,
                    m.allocated,
                    true,
                    true,
                    0,
                ),
            )))) && (!m.is_dir ==> (Self::spec_cancelled_exit(*final(self)) || (
            Self::spec_complete_exit(*final(self)) && final(self).cur_progress().visited_entries
                == spec_sat_add(old(self).cur_progress().visited_entries, 1))))))),
            (old(self).awaiting_root_stat() && result is Err && old(self).no_parked_progress())
                ==> forall|k: int|
                old(self).log().len() <= k < final(self).log().len() ==> (#[trigger] final(self).log()[k]) is Error,
            forall|k: int|
                old(self).log().len() <= k < final(self).log().len() ==> ((#[trigger] final(self).log()[k]) is Progress || final(self).log()[k] is Complete
                    || final(self).log()[k] is Error || final(self).log()[k] is Cancelled || (
                final(self).log()[k] matches ScanEvent::Warning { path, .. } && path@
                    == old(self).spec_options().root@) || (final(self).log()[k]
                    matches ScanEvent::NodeUpdated(nu) && nu.path@ == old(self).spec_options().root@
                    && nu.children_count == 0 && (result matches Ok(m) && nu.apparent_bytes == m.len
                    && nu.allocated_bytes == m.allocated) && (nu.is_complete
                    ==> old(self).spec_options().show_files))),
    {
        let follow_stage = match &self.phase {
            EnginePhase::AwaitRootTarget => true,
            _ => false,
        };
        if !follow_stage {
            match result {
                Err(e) => {
                    let mut msg = String::new();
                    msg.append("failed to stat ");
                    msg.append(self.options.root.as_str());
                    msg.append(": ");
                    msg.append(e.as_str());
                    self.finish_error(msg);
                },
                Ok(meta) => {
                    self.root_fs = if self.options.one_file_system {
                        meta.fs_id
                    } else {
                        None
                    };
                    if self.should_cancel() {
                        self.finish_cancelled();
                        return;
                    }
                    if meta.is_symlink && !self.options.follow_symlinks {
                        let path = self.options.root.clone();
                        let emit = self.options.show_files;
                        let ghost prev = *self;
                        let _sizes = self.summarize_non_dir(path, FsEntryKind::Symlink, meta, emit);
                        let ghost mid = *self;
                        self.finish_complete();
                        proof {
                            lemma_prefix_trans(old(self).log(), prev.log(), self.log());
                            assert forall|k: int|
                                old(self).log().len() <= k < self.log().len() implies ((
                            #[trigger] self.log()[k]) is Progress || self.log()[k] is Complete || (
                            self.log()[k] matches ScanEvent::Warning { path: wp, .. } && wp@
                                == old(self).spec_options().root@) || (self.log()[k]
                                matches ScanEvent::NodeUpdated(nu) && nu.path@
                                == old(self).spec_options().root@ && nu.children_count == 0
                                && nu.apparent_bytes == meta.len && nu.allocated_bytes
                                == meta.allocated && (nu.is_complete
                                ==> old(self).spec_options().show_files))) by {
                                if k < mid.log().len() {
                                    lemma_prefix_index(mid.log(), self.log(), k);
                                }
                            }
                        }
                    } else if meta.is_symlink {
                        self.phase = EnginePhase::AwaitRootTarget;
                    } else {
                        self.root_resolved(meta, false);
                    }
                },
            }
        } else {
            match result {
                Err(e) => {
                    let mut msg = String::new();
                    msg.append("cannot follow symlink target: ");
                    msg.append(e.as_str());
                    let path = self.options.root.clone();
                    let ghost prev = *self;
                    self.bump_warning(path, msg);
                    let ghost mid = *self;
                    self.finish_complete();
                    proof {
                        lemma_prefix_trans(old(self).log(), prev.log(), self.log());
                        assert forall|k: int|
                            old(self).log().len() <= k < self.log().len() implies ((
                        #[trigger] self.log()[k]) is Progress || self.log()[k] is Complete || (
                        self.log()[k] matches ScanEvent::Warning { path: wp, .. } && wp@
                            == old(self).spec_options().root@)) by {
                            if k < mid.log().len() {
                                lemma_prefix_index(mid.log(), self.log(), k);
                            }
                        }
                    }
                },
                Ok(meta) => {
                    self.root_resolved(meta, true);
                },
            }
        }
    }

    /// Continue the walk on the root's resolved metadata: descend when it is
    /// a directory, otherwise summarize the single entry and complete.
    fn root_resolved(&mut self, meta: EntryMeta, via_symlink: bool)
        requires
            old(self).chan_wf(),
            old(self).frames_wf(),
            !old(self).finished(),
            old(self).opening is None,
        ensures
            final(self).wf(),
            old(self).progress.le(final(self).progress),
            old(self).log().is_prefix_of(final(self).log()),
            final(self).options == old(self).options,
            (final(self).finished() && !final(self).consumer_gone()) ==> final(self).log().len()
                > 0 && final(self).log().last().is_terminal(),
            Self::spec_cancelled_exit(*final(self)) || (((meta.is_dir && via_symlink) ==> (
            final(self).wants_canonicalize() && final(self).opening_view() == Some(
                spec_pending_view(
                    old(self).spec_options().root@,
                    true,
                    meta.len,
                    meta.allocated,
                    true,
                    true,
                    0,
                ),
            ))) && ((meta.is_dir && !via_symlink) ==> (final(self).wants_list() && final(self).stack_len() == old(self).stack_len() + 1 && final(self).frame_path(
                final(self).stack_len() - 1,
            ) == old(self).spec_options().root@ && final(self).frame_own(
                final(self).stack_len() - 1,
            ) == (meta.len, meta.allocated) && final(self).frame_emit(
                final(self).stack_len() - 1,
            ) && final(self).frame_depth(final(self).stack_len() - 1) == 0)) && (!meta.is_dir
                ==> (Self::spec_complete_exit(*final(self))
                && final(self).cur_progress().visited_entries == spec_sat_add(
                old(self).cur_progress().visited_entries,
                1,
            )))),
            forall|k: int|
                old(self).log().len() <= k < final(self).log().len() ==> ((#[trigger] final(self).log()[k]) is Progress || final(self).log()[k] is Complete
                    || final(self).log()[k] is Cancelled || (final(self).log()[k]
                    matches ScanEvent::Warning { path, .. } && path@
                    == old(self).spec_options().root@) || (final(self).log()[k]
                    matches ScanEvent::NodeUpdated(nu) && ((nu.path@
                    == old(self).spec_options().root@ && nu.apparent_bytes == meta.len
                    && nu.allocated_bytes == meta.allocated && nu.children_count == 0
                    && (nu.is_complete ==> old(self).spec_options().show_files)) || (exists|i: int|
                    0 <= i < old(self).stack@.len() && spec_frame_final_summary(
                        #[trigger] old(self).stack@[i],
                        nu,
                    ))))),
    {
        if meta.is_dir {
            let child = PendingChild {
                path: self.options.root.clone(),
                depth: 0,
                is_symlink_dir: via_symlink,
                meta,
                need_initial_emit: true,
                emit_updates: true,
            };
            self.enter_dir(child);
        } else {
            let kind = if via_symlink {
                FsEntryKind::Symlink
            } else if meta.is_file {
                FsEntryKind::File
            } else {
                FsEntryKind::Other
            };
            let path = self.options.root.clone();
            let emit = self.options.show_files;
            let ghost prev = *self;
            let _sizes = self.summarize_non_dir(path, kind, meta, emit);
            let ghost mid = *self;
            self.finish_complete();
            proof {
                lemma_prefix_trans(old(self).log(), prev.log(), self.log());
                assert forall|k: int|
                    old(self).log().len() <= k < self.log().len() implies ((
                #[trigger] self.log()[k]) is Progress || self.log()[k] is Complete || (
                self.log()[k] matches ScanEvent::Warning { path: wp, .. } && wp@
                    == old(self).spec_options().root@) || (self.log()[k]
                    matches ScanEvent::NodeUpdated(nu) && nu.path@
                    == old(self).spec_options().root@ && nu.apparent_bytes == meta.len
                    && nu.allocated_bytes == meta.allocated && nu.children_count == 0 && (
                nu.is_complete ==> old(self).spec_options().show_files))) by {
                    if k < mid.log().len() {
                        lemma_prefix_index(mid.log(), self.log(), k);
                    }
                }
            }
        }
    }

    /// Answer a `Canonicalize` request for a symlinked directory. A repeated
    /// canonical path is a symlink cycle: it is charged exactly one warning
    /// and its subtree is skipped; a fresh one is recorded and entered.
    pub fn on_canonicalize(&mut self, result: Result<String, String>)
        requires
            old(self).wf(),
            old(self).wants_canonicalize(),
        ensures
            final(self).wf(),
            old(self).cur_progress().le(final(self).cur_progress()),
            old(self).log().is_prefix_of(final(self).log()),
            final(self).spec_options() == old(self).spec_options(),
            (final(self).finished() && !final(self).consumer_gone()) ==> final(self).log().len()
                > 0 && final(self).log().last().is_terminal(),
            (result is Err ==> (final(self).wants_proceed() && final(self).cur_progress().warnings
                == spec_sat_add(old(self).cur_progress().warnings, 1)
                && final(self).cur_progress().visited_entries == old(self).cur_progress().visited_entries
                && final(self).stack_len() == old(self).stack_len() && final(self).visited_views()
                == old(self).visited_views())),
            (result matches Ok(c) ==> ((old(self).visited_views().contains(c@) ==> (
            final(self).wants_proceed() && final(self).cur_progress().warnings == spec_sat_add(
                old(self).cur_progress().warnings,
                1,
            ) && final(self).cur_progress().visited_entries == old(self).cur_progress().visited_entries
                && final(self).stack_len() == old(self).stack_len() && final(self).visited_views()
                == old(self).visited_views())) && (!old(self).visited_views().contains(c@)
                ==> (final(self).wants_list()
                && final(self).stack_len() == old(self).stack_len() + 1
                && final(self).cur_progress().warnings == old(self).cur_progress().warnings
                && final(self).visited_views() == old(self).visited_views().push(c@)
                && (old(self).opening_view() matches Some(v) && final(self).frame_path(
                    final(self).stack_len() - 1,
                ) == v.path && final(self).frame_own(final(self).stack_len() - 1) == (
                v.apparent,
                v.allocated,
                ) && final(self).frame_totals(final(self).stack_len() - 1) == (
                v.apparent,
                v.allocated,
                ) && final(self).frame_children_count(final(self).stack_len() - 1) == 0
                    && final(self).frame_pending_views(final(self).stack_len() - 1).len() == 0
                    && final(self).frame_emit(final(self).stack_len() - 1) == v.emit
                    && final(self).frame_depth(final(self).stack_len() - 1) == v.depth))))),
            ((result is Err || (result matches Ok(c) && old(self).visited_views().contains(c@)))
                && !final(self).consumer_gone()) ==> (final(self).log().len() > old(self).log().len()
                && (final(self).log().last() matches ScanEvent::Warning { path, .. } && (
            old(self).opening_view() matches Some(v) && path@ == v.path))),
            forall|k: int|
                old(self).log().len() <= k < final(self).log().len() ==> ((#[trigger] final(self).log()[k]) is Progress || (final(self).log()[k]
                    matches ScanEvent::Warning { path, .. } && (old(self).opening_view()
                    matches Some(v) && path@ == v.path)) || (final(self).log()[k]
                    matches ScanEvent::NodeUpdated(nu) && (old(self).opening_view()
                    matches Some(v) && v.first_due && v.emit && nu.path@ == v.path
                    && nu.apparent_bytes == v.apparent && nu.allocated_bytes == v.allocated
                    && nu.children_count == 0 && !nu.is_complete))),
    {
        let child = self.opening.take().unwrap();
        match result {
            Err(e) => {
                let mut msg = String::new();
                msg.append("cannot canonicalize symlink dir: ");
                msg.append(e.as_str());
                self.bump_warning(child.path, msg);
                self.phase = EnginePhase::Advancing;
            },
            Ok(canon) => {
                if self.visited_contains(&canon) {
                    let mut msg = String::new();
                    msg.append("detected symlink cycle, skipping traversal");
                    self.bump_warning(child.path, msg);
                    self.phase = EnginePhase::Advancing;
                } else {
                    let ghost vv = self.visited_views();
                    let ghost cv = canon@;
                    self.visited_symlink_dirs.push(canon);
                    proof {
                        assert(self.visited_views() =~= vv.push(cv));
                    }
                    self.push_frame(child);
                }
            },
        }
    }

    /// Account one listed item against the scan counters and the listing
    /// directory's frame: an unreadable slot or a failed stat charges one
    /// warning, a terminal entry is counted (and summarized when the display
    /// settings allow), a directory is queued for descent (its provisional
    /// summary emitted when owed), and a directory on another mount is
    /// skipped silently with one-file-system on. The events this step may
    /// deliver are pinned by [`spec_entry_update_ok`].
    fn absorb_item(&mut self, top: &mut DirFrame, item: ListedItem)
        requires
            old(self).chan_wf(),
            !old(self).finished(),
            old(top).wf(),
        ensures
            final(self).chan_wf(),
            !final(self).finished(),
            final(top).wf(),
            final(self).options == old(self).options,
            final(self).root_fs == old(self).root_fs,
            final(self).stack@ == old(self).stack@,
            final(self).opening == old(self).opening,
            old(self).progress.le(final(self).progress),
            old(self).log().is_prefix_of(final(self).log()),
            final(top).path == old(top).path,
            final(top).depth == old(top).depth,
            final(top).is_symlink_dir == old(top).is_symlink_dir,
            final(top).own_apparent == old(top).own_apparent,
            final(top).own_allocated == old(top).own_allocated,
            final(top).emit_updates == old(top).emit_updates,
            (ListingTotals {
                warnings: final(self).progress.warnings,
                visited: final(self).progress.visited_entries,
                apparent_seen: final(self).progress.apparent_bytes_seen,
                allocated_seen: final(self).progress.allocated_bytes_seen,
                frame_apparent: final(top).apparent_total,
                frame_allocated: final(top).allocated_total,
                children: final(top).children_count,
            }) == spec_absorb_item(
                old(self).options.follow_symlinks,
                old(self).options.one_file_system,
                old(self).root_fs,
                (ListingTotals {
                    warnings: old(self).progress.warnings,
                    visited: old(self).progress.visited_entries,
                    apparent_seen: old(self).progress.apparent_bytes_seen,
                    allocated_seen: old(self).progress.allocated_bytes_seen,
                    frame_apparent: old(top).apparent_total,
                    frame_allocated: old(top).allocated_total,
                    children: old(top).children_count,
                }),
                item,
            ),
            final(top).pending@.map_values(|c: PendingChild| pending_view(c)) == old(top).pending@.map_values(|c: PendingChild| pending_view(c)) + spec_descend_item(
                old(self).options,
                old(self).root_fs,
                old(top).emit_updates,
                spec_child_depth(old(top).depth as nat),
                item,
            ),
            forall|k: int|
                old(self).log().len() <= k < final(self).log().len() ==> ((#[trigger] final(self).log()[k]) is Progress || (final(self).log()[k]
                    matches ScanEvent::Warning { path, .. } && (path@ == old(top).path@
                    || spec_item_entry_path(item, path@))) || (final(self).log()[k]
                    matches ScanEvent::NodeUpdated(nu) && spec_item_update_ok(
                    old(self).options,
                    old(self).root_fs,
                    old(top).emit_updates,
                    spec_child_depth(old(top).depth as nat),
                    item,
                    nu,
                ))),
    {
        let ghost o_g = self.options;
        let ghost rfs = self.root_fs;
        let ghost pe = top.emit_updates;
        let ghost cd = spec_child_depth(top.depth as nat);
        let ghost it_g = item;
        match item {
            ListedItem::Unreadable(cause) => {
                let mut msg = String::new();
                msg.append("cannot read entry: ");
                msg.append(cause.as_str());
                self.bump_warning(top.path.clone(), msg);
                proof {
                    assert(spec_descend_item(o_g, rfs, pe, cd, it_g)
                        =~~= Seq::<PendingView>::empty());
                    assert(top.pending@.map_values(|c: PendingChild| pending_view(c))
                        =~~= old(top).pending@.map_values(|c: PendingChild| pending_view(c))
                        + spec_descend_item(o_g, rfs, pe, cd, it_g));
                }
            },
            ListedItem::Entry(entry) => {
                let ghost e_g = entry;
                let child_depth = if top.depth == usize::MAX {
                    usize::MAX
                } else {
                    top.depth + 1
                };
                let show = self.options.show_hidden || !is_hidden(&entry.name);
                let within = match self.options.max_depth {
                    None => true,
                    Some(m) => child_depth <= m,
                };
                let child_emit = top.emit_updates && show && within;
                proof {
                    assert(it_g == ListedItem::Entry(e_g));
                    assert(child_depth as nat == cd);
                    assert(child_emit == spec_emission_gate(o_g, pe, cd, e_g.name@));
                }
                let ghost acc = spec_child_accounting(
                    self.options.follow_symlinks,
                    self.options.one_file_system,
                    self.root_fs,
                    entry.stat,
                    entry.target,
                );
                match entry.stat {
                    Err(cause) => {
                        proof {
                            assert(acc is Warn);
                        }
                        let mut msg = String::new();
                        msg.append("cannot stat path: ");
                        msg.append(cause.as_str());
                        self.bump_warning(entry.path, msg);
                        proof {
                            assert(spec_descend_item(o_g, rfs, pe, cd, it_g)
                                =~~= Seq::<PendingView>::empty());
                            assert(top.pending@.map_values(|c: PendingChild| pending_view(c))
                                =~~= old(top).pending@.map_values(|c: PendingChild| pending_view(c))
                                + spec_descend_item(o_g, rfs, pe, cd, it_g));
                        }
                    },
                    Ok(meta) => {
                        if meta.is_symlink && !self.options.follow_symlinks {
                            proof {
                                assert(acc == ChildAccounting::Count(meta.len, meta.allocated));
                            }
                            let emit = child_emit && self.options.show_files;
                            let sizes = self.summarize_non_dir(
                                entry.path,
                                FsEntryKind::Symlink,
                                meta,
                                emit,
                            );
                            Self::accumulate_child(top, sizes.0, sizes.1);
                            proof {
                                assert(spec_descend_item(o_g, rfs, pe, cd, it_g)
                                    =~~= Seq::<PendingView>::empty());
                                assert(top.pending@.map_values(|c: PendingChild| pending_view(c))
                                    =~~= old(top).pending@.map_values(|c: PendingChild| pending_view(c))
                                    + spec_descend_item(o_g, rfs, pe, cd, it_g));
                                assert forall|k: int|
                                    old(self).log().len() <= k < self.log().len() implies ((#[trigger] self.log()[k])
                                    is Progress || (self.log()[k] matches ScanEvent::NodeUpdated(nu)
                                    && spec_item_update_ok(o_g, rfs, pe, cd, it_g, nu))) by {
                                    if !(self.log()[k] is Progress) {
                                        assert(self.log()[k] matches ScanEvent::NodeUpdated(nu)
                                            && spec_entry_update_ok(o_g, rfs, pe, cd, e_g, nu));
                                    }
                                }
                            }
                        } else {
                            let resolved_opt: Option<EntryMeta> = if meta.is_symlink {
                                self.follow_target(&entry)
                            } else {
                                Some(meta)
                            };
                            match resolved_opt {
                                None => {
                                    proof {
                                        assert(acc is Warn);
                                        assert(spec_descend_item(o_g, rfs, pe, cd, it_g)
                                            =~~= Seq::<PendingView>::empty());
                                        assert(top.pending@.map_values(|c: PendingChild| pending_view(c))
                                            =~~= old(top).pending@.map_values(|c: PendingChild| pending_view(c))
                                            + spec_descend_item(o_g, rfs, pe, cd, it_g));
                                    }
                                },
                                Some(resolved) => {
                                    let mount_skip = self.options.one_file_system
                                        && resolved.is_dir && (match (self.root_fs, resolved.fs_id) {
                                        (Some(a), Some(b)) => a != b,
                                        _ => false,
                                    });
                                    if mount_skip {
                                        // A different mount with one-file-system on: the
                                        // subtree is fenced out silently.
                                        proof {
                                            assert(acc is SkipMount);
                                            assert(spec_descend_item(o_g, rfs, pe, cd, it_g)
                                                =~~= Seq::<PendingView>::empty());
                                            assert(top.pending@.map_values(|c: PendingChild| pending_view(c))
                                                =~~= old(top).pending@.map_values(|c: PendingChild| pending_view(c))
                                                + spec_descend_item(o_g, rfs, pe, cd, it_g));
                                        }
                                    } else if resolved.is_dir {
                                        proof {
                                            assert(acc == ChildAccounting::Descend(
                                                meta.is_symlink,
                                            ));
                                            assert(resolved == spec_resolved_of(e_g));
                                        }
                                        let emitted_initial = if !meta.is_symlink && child_emit {
                                            let s = NodeSummary {
                                                path: entry.path.clone(),
                                                kind: FsEntryKind::Dir,
                                                apparent_bytes: resolved.len,
                                                allocated_bytes: resolved.allocated,
                                                children_count: 0,
                                                is_complete: false,
                                                last_updated: now_millis(),
                                            };
                                            self.send_node_update(s);
                                            proof {
                                                assert forall|k: int|
                                                    old(self).log().len() <= k < self.log().len() implies ((#[trigger] self.log()[k])
                                                    is Progress || (self.log()[k] matches ScanEvent::NodeUpdated(nu)
                                                    && spec_item_update_ok(o_g, rfs, pe, cd, it_g, nu))) by {
                                                    if !(self.log()[k] is Progress) {
                                                        assert(self.log()[k] matches ScanEvent::NodeUpdated(nu)
                                                            && spec_entry_update_ok(o_g, rfs, pe, cd, e_g, nu));
                                                    }
                                                }
                                            }
                                            true
                                        } else {
                                            false
                                        };
                                        let ghost pp = top.pending@;
                                        top.pending.push(
                                            PendingChild {
                                                path: entry.path,
                                                depth: child_depth,
                                                is_symlink_dir: meta.is_symlink,
                                                meta: resolved,
                                                need_initial_emit: !emitted_initial,
                                                emit_updates: child_emit,
                                            },
                                        );
                                        proof {
                                            assert(top.pending@.map_values(
                                                |c: PendingChild| pending_view(c),
                                            ) =~~= pp.map_values(
                                                |c: PendingChild| pending_view(c),
                                            ).push(
                                                spec_pending_view(
                                                    e_g.path@,
                                                    meta.is_symlink,
                                                    spec_resolved_of(e_g).len,
                                                    spec_resolved_of(e_g).allocated,
                                                    child_emit,
                                                    meta.is_symlink || !child_emit,
                                                    cd,
                                                ),
                                            ));
                                            assert(top.pending@.map_values(
                                                |c: PendingChild| pending_view(c),
                                            ) =~~= old(top).pending@.map_values(
                                                |c: PendingChild| pending_view(c),
                                            ) + spec_descend_item(o_g, rfs, pe, cd, it_g));
                                        }
                                    } else {
                                        proof {
                                            assert(resolved == spec_resolved_of(e_g));
                                            assert(acc == ChildAccounting::Count(
                                                resolved.len,
                                                resolved.allocated,
                                            ));
                                        }
                                        let kind = if meta.is_symlink {
                                            FsEntryKind::Symlink
                                        } else if resolved.is_file {
                                            FsEntryKind::File
                                        } else {
                                            FsEntryKind::Other
                                        };
                                        let emit = child_emit && self.options.show_files;
                                        let sizes = self.summarize_non_dir(
                                            entry.path,
                                            kind,
                                            resolved,
                                            emit,
                                        );
                                        Self::accumulate_child(top, sizes.0, sizes.1);
                                        proof {
                                            assert(spec_descend_item(o_g, rfs, pe, cd, it_g)
                                                =~~= Seq::<PendingView>::empty());
                                            assert(top.pending@.map_values(|c: PendingChild| pending_view(c))
                                                =~~= old(top).pending@.map_values(|c: PendingChild| pending_view(c))
                                                + spec_descend_item(o_g, rfs, pe, cd, it_g));
                                            assert forall|k: int|
                                                old(self).log().len() <= k < self.log().len() implies ((#[trigger] self.log()[k])
                                                is Progress || (self.log()[k] matches ScanEvent::NodeUpdated(nu)
                                                && spec_item_update_ok(o_g, rfs, pe, cd, it_g, nu))) by {
                                                if !(self.log()[k] is Progress) {
                                                    assert(self.log()[k] matches ScanEvent::NodeUpdated(nu)
                                                        && spec_entry_update_ok(o_g, rfs, pe, cd, e_g, nu));
                                                }
                                            }
                                        }
                                    }
                                },
                            }
                        }
                    },
                }
            },
        }
    }

    /// Resolve a symlinked entry's target from the listing: the follow-up
    /// stat's metadata, or one warning charged to the entry when the caller
    /// could not provide it.
    fn follow_target(&mut self, entry: &ListedEntry) -> (r: Option<EntryMeta>)
        requires
            old(self).chan_wf(),
            !old(self).finished(),
        ensures
            final(self).chan_wf(),
            !final(self).finished(),
            final(self).options == old(self).options,
            final(self).root_fs == old(self).root_fs,
            final(self).stack@ == old(self).stack@,
            final(self).opening == old(self).opening,
            old(self).log().is_prefix_of(final(self).log()),
            old(self).progress.le(final(self).progress),
            r == (match entry.target {
                Some(Ok(m2)) => Some(m2),
                _ => None::<EntryMeta>,
            }),
            r is Some ==> (*final(self) == *old(self)),
            r is None ==> (final(self).progress.warnings == spec_sat_add(
                old(self).progress.warnings,
                1,
            ) && final(self).progress.visited_entries == old(self).progress.visited_entries
                && final(self).progress.apparent_bytes_seen
                == old(self).progress.apparent_bytes_seen
                && final(self).progress.allocated_bytes_seen
                == old(self).progress.allocated_bytes_seen),
            forall|k: int|
                old(self).log().len() <= k < final(self).log().len() ==> ((#[trigger] final(self).log()[k]) is Progress || (final(self).log()[k]
                    matches ScanEvent::Warning { path, .. } && path@ == entry.path@)),
    {
        match &entry.target {
            Some(Ok(m2)) => Some(*m2),
            Some(Err(cause)) => {
                let mut msg = String::new();
                msg.append("cannot follow symlink target: ");
                msg.append(cause.as_str());
                self.bump_warning(entry.path.clone(), msg);
                None
            },
            None => {
                let mut msg = String::new();
                msg.append("cannot follow symlink target: no metadata");
                self.bump_warning(entry.path.clone(), msg);
                None
            },
        }
    }

    /// Answer a `ListDir` request for the directory on top of the stack:
    /// account every entry (warnings for unreadable ones, totals for
    /// terminal ones, a queue slot for child directories), emit what the
    /// display settings allow, then descend into the first queued child or
    /// fold the finished directory into its parent. An unreadable directory
    /// is one warning and closes with its own sizes only. Every event this
    /// step delivers is pinned by [`spec_listing_event_ok`]: in particular
    /// no node update is delivered for an entry the display settings
    /// suppress.
    #[verifier::rlimit(100)]
    pub fn on_list_dir(&mut self, result: Result<Vec<ListedItem>, String>)
        requires
            old(self).wf(),
            old(self).wants_list(),
        ensures
            final(self).wf(),
            old(self).cur_progress().le(final(self).cur_progress()),
            old(self).log().is_prefix_of(final(self).log()),
            final(self).spec_options() == old(self).spec_options(),
            (final(self).finished() && !final(self).consumer_gone()) ==> final(self).log().len()
                > 0 && final(self).log().last().is_terminal(),
            result is Err ==> (final(self).wants_proceed() && final(self).stack_len() == old(self).stack_len() && final(self).cur_progress().warnings == spec_sat_add(
                old(self).cur_progress().warnings,
                1,
            ) && final(self).cur_progress().visited_entries == old(self).cur_progress().visited_entries
                && final(self).frame_totals(old(self).stack_len() - 1) == old(self).frame_totals(
                old(self).stack_len() - 1,
            ) && final(self).frame_pending_views(old(self).stack_len() - 1) == old(self).frame_pending_views(old(self).stack_len() - 1)),
            result is Err ==> forall|k: int|
                old(self).log().len() <= k < final(self).log().len() ==> ((#[trigger] final(self).log()[k]) is Progress || (final(self).log()[k]
                    matches ScanEvent::Warning { path, .. } && path@ == old(self).frame_path(
                    old(self).stack_len() - 1,
                ))),
            (result matches Ok(items) ==> (Self::spec_cancelled_exit(*final(self)) || (
            final(self).wants_proceed() && final(self).stack_len() == old(self).stack_len()
                && final(self).listing_totals_at(old(self).stack_len() - 1)
                == spec_absorb_listing(
                old(self).spec_options().follow_symlinks,
                old(self).spec_options().one_file_system,
                old(self).spec_root_fs(),
                old(self).listing_totals_at(old(self).stack_len() - 1),
                items@,
            ) && final(self).frame_pending_views(old(self).stack_len() - 1) == old(self).frame_pending_views(old(self).stack_len() - 1) + spec_descend_views(
                old(self).spec_options(),
                old(self).spec_root_fs(),
                old(self).frame_emit(old(self).stack_len() - 1),
                spec_child_depth(old(self).frame_depth(old(self).stack_len() - 1)),
                items@,
            ) && final(self).frame_emit(old(self).stack_len() - 1) == old(self).frame_emit(
                old(self).stack_len() - 1,
            ) && final(self).frame_depth(old(self).stack_len() - 1) == old(self).frame_depth(
                old(self).stack_len() - 1,
            )))),
            (result matches Ok(items) ==> forall|k: int|
                old(self).log().len() <= k < final(self).log().len() ==> (spec_listing_event_ok(
                    old(self).spec_options(),
                    old(self).spec_root_fs(),
                    old(self).frame_path(old(self).stack_len() - 1),
                    old(self).frame_emit(old(self).stack_len() - 1),
                    spec_child_depth(old(self).frame_depth(old(self).stack_len() - 1)),
                    items@,
                    #[trigger] final(self).log()[k],
                ) || Self::spec_cancel_wrapup_event(*old(self), final(self).log()[k]))),
    {
        let ghost st0 = self.stack@;
        let ghost n = old(self).stack_len() as int;
        let ghost o_g = self.options;
        let ghost rfs = self.root_fs;
        let ghost t0 = old(self).listing_totals_at(n - 1);
        let ghost pend0 = old(self).frame_pending_views(n - 1);
        let ghost dpath = old(self).frame_path(n - 1);
        let ghost demit = old(self).frame_emit(n - 1);
        let ghost cdep = spec_child_depth(old(self).frame_depth(n - 1));
        let mut top = match self.stack.pop() {
            Some(t) => t,
            None => {
                proof {
                    assert(false);
                }
                vstd::pervasive::unreached()
            },
        };
        proof {
            assert(top == old(self).stack@[n - 1]);
            assert forall|i: int| 0 <= i < self.stack@.len() implies (#[trigger] self.stack@[i]).wf() by {
                assert(self.stack@[i] == st0.drop_last()[i]);
            }
        }
        match result {
            Err(e) => {
                let mut msg = String::new();
                msg.append("cannot read directory: ");
                msg.append(e.as_str());
                self.bump_warning(top.path.clone(), msg);
                let ghost st = self.stack@;
                self.stack.push(top);
                proof {
                    assert forall|i: int| 0 <= i < self.stack@.len() implies (#[trigger] self.stack@[i]).wf() by {
                        if i < st.len() {
                            assert(self.stack@[i] == st[i]);
                        }
                    }
                }
                self.phase = EnginePhase::Advancing;
                proof {
                    assert(self.stack@[n - 1] == old(self).stack@[n - 1]);
                    assert(self.frame_totals(n - 1) == old(self).frame_totals(n - 1));
                    assert(self.frame_pending_views(n - 1) =~~= pend0);
                }
            },
            Ok(items_in) => {
                let ghost items0 = items_in@;
                let mut items = items_in;
                let ghost mut done: int = 0;
                proof {
                    assert(top.pending@.map_values(|c: PendingChild| pending_view(c)) =~~= pend0);
                    assert(items@ =~= items0.skip(0));
                }
                loop
                    invariant
                        result matches Ok(items_r) && items0 == items_r@,
                        self.chan_wf(),
                        self.frames_wf(),
                        !self.finished(),
                        self.opening is None,
                        top.wf(),
                        old(self).progress.le(self.progress),
                        old(self).log().is_prefix_of(self.log()),
                        self.options == old(self).options,
                        o_g == old(self).spec_options(),
                        rfs == old(self).spec_root_fs(),
                        self.root_fs == rfs,
                        n == old(self).stack_len(),
                        1 <= n,
                        t0 == old(self).listing_totals_at(n - 1),
                        pend0 == old(self).frame_pending_views(n - 1),
                        dpath == old(self).frame_path(n - 1),
                        demit == old(self).frame_emit(n - 1),
                        cdep == spec_child_depth(old(self).frame_depth(n - 1)),
                        top.path@ == dpath,
                        top.emit_updates == demit,
                        top.depth as nat == old(self).frame_depth(n - 1),
                        spec_child_depth(top.depth as nat) == cdep,
                        self.stack@ == old(self).stack@.drop_last(),
                        0 <= done <= items0.len(),
                        items@ == items0.skip(done),
                        spec_absorb_listing(
                            o_g.follow_symlinks,
                            o_g.one_file_system,
                            rfs,
                            t0,
                            items0,
                        ) == spec_absorb_listing(
                            o_g.follow_symlinks,
                            o_g.one_file_system,
                            rfs,
                            (ListingTotals {
                                warnings: self.progress.warnings,
                                visited: self.progress.visited_entries,
                                apparent_seen: self.progress.apparent_bytes_seen,
                                allocated_seen: self.progress.allocated_bytes_seen,
                                frame_apparent: top.apparent_total,
                                frame_allocated: top.allocated_total,
                                children: top.children_count,
                            }),
                            items@,
                        ),
                        top.pending@.map_values(|c: PendingChild| pending_view(c))
                            + spec_descend_views(o_g, rfs, demit, cdep, items@) == pend0
                            + spec_descend_views(o_g, rfs, demit, cdep, items0),
                        forall|k: int|
                            old(self).log().len() <= k < self.log().len()
                                ==> spec_listing_event_ok(
                                o_g,
                                rfs,
                                dpath,
                                demit,
                                cdep,
                                items0,
                                #[trigger] self.log()[k],
                            ),
                    ensures
                        items@.len() == 0,
                        self.chan_wf(),
                        self.frames_wf(),
                        !self.finished(),
                        self.opening is None,
                        top.wf(),
                        old(self).progress.le(self.progress),
                        old(self).log().is_prefix_of(self.log()),
                        self.options == old(self).options,
                        self.root_fs == rfs,
                        top.path@ == dpath,
                        top.emit_updates == demit,
                        top.depth as nat == old(self).frame_depth(n - 1),
                        spec_child_depth(top.depth as nat) == cdep,
                        self.stack@ == old(self).stack@.drop_last(),
                        spec_absorb_listing(
                            o_g.follow_symlinks,
                            o_g.one_file_system,
                            rfs,
                            t0,
                            items0,
                        ) == spec_absorb_listing(
                            o_g.follow_symlinks,
                            o_g.one_file_system,
                            rfs,
                            (ListingTotals {
                                warnings: self.progress.warnings,
                                visited: self.progress.visited_entries,
                                apparent_seen: self.progress.apparent_bytes_seen,
                                allocated_seen: self.progress.allocated_bytes_seen,
                                frame_apparent: top.apparent_total,
                                frame_allocated: top.allocated_total,
                                children: top.children_count,
                            }),
                            items@,
                        ),
                        top.pending@.map_values(|c: PendingChild| pending_view(c))
                            + spec_descend_views(o_g, rfs, demit, cdep, items@) == pend0
                            + spec_descend_views(o_g, rfs, demit, cdep, items0),
                        forall|k: int|
                            old(self).log().len() <= k < self.log().len()
                                ==> spec_listing_event_ok(
                                o_g,
                                rfs,
                                dpath,
                                demit,
                                cdep,
                                items0,
                                #[trigger] self.log()[k],
                            ),
                    decreases items@.len(),
                {
                    if items.len() == 0 {
                        break;
                    }
                    if self.should_cancel() {
                        let ghost st = self.stack@;
                        self.stack.push(top);
                        proof {
                            assert forall|i: int|
                                0 <= i < self.stack@.len() implies (#[trigger] self.stack@[i]).wf() by {
                                if i < st.len() {
                                    assert(self.stack@[i] == st[i]);
                                }
                            }
                        }
                        let ghost fc = *self;
                        self.finish_cancelled();
                        proof {
                            lemma_prefix_trans(old(self).log(), fc.log(), self.log());
                            assert forall|k: int|
                                old(self).log().len() <= k < self.log().len() implies (
                            spec_listing_event_ok(
                                o_g,
                                rfs,
                                dpath,
                                demit,
                                cdep,
                                items0,
                                #[trigger] self.log()[k],
                            ) || Self::spec_cancel_wrapup_event(*old(self), self.log()[k])) by {
                                if k < fc.log().len() {
                                    lemma_prefix_index(fc.log(), self.log(), k);
                                } else {
                                    match self.log()[k] {
                                        ScanEvent::NodeUpdated(nu) => {
                                            assert(exists|i: int|
                                                0 <= i < fc.stack@.len()
                                                    && spec_frame_final_summary(
                                                    #[trigger] fc.stack@[i],
                                                    nu,
                                                ));
                                            let i = choose|i: int|
                                                0 <= i < fc.stack@.len()
                                                    && spec_frame_final_summary(
                                                    #[trigger] fc.stack@[i],
                                                    nu,
                                                );
                                            assert(fc.stack@[i].path@ == old(self).stack@[i].path@
                                                && fc.stack@[i].emit_updates
                                                == old(self).stack@[i].emit_updates);
                                            assert(old(self).frame_path(i) == nu.path@
                                                && old(self).frame_emit(i));
                                        },
                                        _ => {},
                                    }
                                }
                            }
                        }
                        return;
                    }
                    let ghost pre_items = items@;
                    let ghost cur_pre = (ListingTotals {
                        warnings: self.progress.warnings,
                        visited: self.progress.visited_entries,
                        apparent_seen: self.progress.apparent_bytes_seen,
                        allocated_seen: self.progress.allocated_bytes_seen,
                        frame_apparent: top.apparent_total,
                        frame_allocated: top.allocated_total,
                        children: top.children_count,
                    });
                    let ghost pend_pre = top.pending@.map_values(
                        |c: PendingChild| pending_view(c),
                    );
                    let item = items.remove(0);
                    let ghost it_g = item;
                    proof {
                        assert(items@ =~= pre_items.drop_first());
                        assert(it_g == pre_items[0]);
                        assert(it_g == items0[done]);
                    }
                    let ghost p1 = *self;
                    self.absorb_item(&mut top, item);
                    proof {
                        lemma_prefix_trans(old(self).log(), p1.log(), self.log());
                        assert forall|k: int|
                            old(self).log().len() <= k < self.log().len()
                                implies spec_listing_event_ok(
                            o_g,
                            rfs,
                            dpath,
                            demit,
                            cdep,
                            items0,
                            #[trigger] self.log()[k],
                        ) by {
                            if k < p1.log().len() {
                                lemma_prefix_index(p1.log(), self.log(), k);
                            } else {
                                match self.log()[k] {
                                    ScanEvent::Warning { path, .. } => {
                                        if path@ != dpath {
                                            assert(spec_item_entry_path(items0[done], path@));
                                        }
                                    },
                                    ScanEvent::NodeUpdated(nu) => {
                                        assert(spec_item_update_ok(
                                            o_g,
                                            rfs,
                                            demit,
                                            cdep,
                                            items0[done],
                                            nu,
                                        ));
                                    },
                                    _ => {},
                                }
                            }
                        }
                        lemma_absorb_step(
                            o_g,
                            demit,
                            cdep,
                            rfs,
                            t0,
                            items0,
                            pend0,
                            cur_pre,
                            (ListingTotals {
                                warnings: self.progress.warnings,
                                visited: self.progress.visited_entries,
                                apparent_seen: self.progress.apparent_bytes_seen,
                                allocated_seen: self.progress.allocated_bytes_seen,
                                frame_apparent: top.apparent_total,
                                frame_allocated: top.allocated_total,
                                children: top.children_count,
                            }),
                            pend_pre,
                            top.pending@.map_values(|c: PendingChild| pending_view(c)),
                            pre_items,
                            items@,
                            it_g,
                        );
                        done = done + 1;
                        assert(items@ =~= items0.skip(done));
                    }
                }
                let ghost st = self.stack@;
                self.stack.push(top);
                proof {
                    assert forall|i: int| 0 <= i < self.stack@.len() implies (#[trigger] self.stack@[i]).wf() by {
                        if i < st.len() {
                            assert(self.stack@[i] == st[i]);
                        }
                    }
                }
                self.phase = EnginePhase::Advancing;
                proof {
                    assert(self.stack@.len() == old(self).stack@.len());
                    assert(items@ =~= Seq::<ListedItem>::empty());
                    assert(spec_descend_views(o_g, rfs, demit, cdep, items@)
                        =~~= Seq::<PendingView>::empty());
                    assert(self.frame_pending_views(n - 1) =~~= self.stack@[n - 1].pending@.map_values(
                        |c: PendingChild| pending_view(c),
                    ));
                    assert(self.frame_pending_views(n - 1) =~~= pend0 + spec_descend_views(
                        o_g,
                        rfs,
                        demit,
                        cdep,
                        items0,
                    ));
                    assert(self.listing_totals_at(n - 1) == spec_absorb_listing(
                        o_g.follow_symlinks,
                        o_g.one_file_system,
                        rfs,
                        t0,
                        items0,
                    ));
                }
            },
        }
    }

    /// Aggregation, per directory: at every moment of the scan, a directory's
    /// running totals are exactly the saturating sum of its own sizes and the
    /// sizes its finished children contributed, and its child count matches.
    /// The final summary a directory emits carries these totals.
    pub proof fn lemma_frame_aggregation(self, i: int)
        requires
            self.wf(),
            0 <= i < self.stack_len(),
        ensures
            self.frame_totals(i).0 == sat_fold(
                self.frame_own(i).0,
                self.frame_kid_sizes(i).map_values(|k: (u64, u64)| k.0),
            ),
            self.frame_totals(i).1 == sat_fold(
                self.frame_own(i).1,
                self.frame_kid_sizes(i).map_values(|k: (u64, u64)| k.1),
            ),
    {
    }

    /// Progress monotonicity: across the events a scan has delivered, the
    /// progress snapshots (including the one inside `Complete`) never
    /// decrease in any of their four counters.
    pub proof fn lemma_progress_monotone(self, i: int, j: int)
        requires
            self.wf(),
            0 <= i <= j < self.log().len(),
        ensures
            match (self.log()[i].progress_of(), self.log()[j].progress_of()) {
                (Some(p), Some(q)) => p.le(q),
                _ => true,
            },
    {
    }

    /// Stream shape: a reset can only open the delivered stream, a terminal
    /// event (`Complete`, `Error` or `Cancelled`) can only close it, and no
    /// terminal event is delivered while the scan is still running.
    pub proof fn lemma_stream_shape(self, i: int)
        requires
            self.wf(),
            0 <= i < self.log().len(),
        ensures
            self.log()[i] is Reset ==> i == 0,
            self.log()[i].is_terminal() ==> i == self.log().len() - 1,
            !self.finished() ==> !self.log()[i].is_terminal(),
    {
    }

    /// The totals of the directory currently being aggregated at stack
    /// position `i`.
    pub closed spec fn frame_totals(self, i: int) -> (u64, u64) {
        (self.stack@[i].apparent_total, self.stack@[i].allocated_total)
    }

    /// The directory's own apparent and allocated sizes.
    pub closed spec fn frame_own(self, i: int) -> (u64, u64) {
        (self.stack@[i].own_apparent, self.stack@[i].own_allocated)
    }

    /// The sizes contributed so far by the directory's finished children.
    pub closed spec fn frame_kid_sizes(self, i: int) -> Seq<(u64, u64)> {
        self.stack@[i].kid_sizes@
    }

    /// The path of the directory at stack position `i`.
    pub closed spec fn frame_path(self, i: int) -> Seq<char> {
        self.stack@[i].path@
    }

    /// The running child count of the directory at stack position `i`.
    pub closed spec fn frame_children_count(self, i: int) -> u64 {
        self.stack@[i].children_count
    }

    /// Whether node updates are emitted for the directory at stack position
    /// `i` (its own display gate).
    pub closed spec fn frame_emit(self, i: int) -> bool {
        self.stack@[i].emit_updates
    }

    /// The depth of the directory at stack position `i` below the scan root.
    pub closed spec fn frame_depth(self, i: int) -> nat {
        self.stack@[i].depth as nat
    }

    /// The children of the directory at stack position `i` that are listed
    /// but not yet scanned, oldest first.
    pub closed spec fn frame_pending_views(self, i: int) -> Seq<PendingView> {
        self.stack@[i].pending@.map_values(|c: PendingChild| pending_view(c))
    }

    /// The mount identifier of the scan root, where one-file-system is on
    /// and the platform reported one.
    pub closed spec fn spec_root_fs(self) -> Option<u64> {
        self.root_fs
    }

    /// The totals a listing of the directory at stack position `i` updates.
    pub open spec fn listing_totals_at(self, i: int) -> ListingTotals {
        ListingTotals {
            warnings: self.cur_progress().warnings,
            visited: self.cur_progress().visited_entries,
            apparent_seen: self.cur_progress().apparent_bytes_seen,
            allocated_seen: self.cur_progress().allocated_bytes_seen,
            frame_apparent: self.frame_totals(i).0,
            frame_allocated: self.frame_totals(i).1,
            children: self.frame_children_count(i),
        }
    }

    /// The symlinked directory whose canonical path the engine is waiting
    /// for, if any.
    pub closed spec fn opening_view(self) -> Option<PendingView> {
        match self.opening {
            Some(c) => Some(pending_view(c)),
            None => None,
        }
    }

    /// The step observed the cancel flag (or the consumer gone) and closed
    /// the scan; when the consumer is still attached, `Cancelled` is the
    /// last delivered event.
    pub open spec fn spec_cancelled_exit(post: Self) -> bool {
        &&& post.finished()
        &&& (!post.consumer_gone() ==> post.log().len() > 0 && post.log().last() is Cancelled)
    }

    /// Every event a cancellation exit may deliver: the directories still
    /// open each get a final summary under their own path (when their
    /// display gate allows it), the one-shot backpressure warning is charged
    /// to the scan root, and `Cancelled` closes the stream.
    pub open spec fn spec_cancel_wrapup_event(pre: Self, ev: ScanEvent) -> bool {
        ||| ev is Cancelled
        ||| (ev matches ScanEvent::Warning { path, .. } && path@ == pre.spec_options().root@)
        ||| (ev matches ScanEvent::NodeUpdated(nu) && nu.is_complete && exists|i: int|
            0 <= i < pre.stack_len() && #[trigger] pre.frame_path(i) == nu.path@ && pre.frame_emit(i))
    }

    /// Every event one advancing step may deliver: a progress snapshot, the
    /// one-shot backpressure warning (charged to the root), `Complete`, a
    /// cancellation wrap-up event, the finalized top directory's aggregate
    /// summary (exactly its running totals, only when its display gate is
    /// open), or the provisional summary of the child being opened (exactly
    /// its own sizes, only when its first update is due and its gate open).
    pub open spec fn spec_proceed_event_ok(pre: Self, ev: ScanEvent) -> bool {
        let n = pre.stack_len() as int;
        ||| ev is Progress
        ||| ev is Complete
        ||| (ev matches ScanEvent::Warning { path, .. } && path@ == pre.spec_options().root@)
        ||| Self::spec_cancel_wrapup_event(pre, ev)
        ||| (n > 0 && pre.frame_pending_views(n - 1).len() == 0 && (ev
            matches ScanEvent::NodeUpdated(nu) && pre.frame_emit(n - 1) && nu.path@
            == pre.frame_path(n - 1) && nu.apparent_bytes == pre.frame_totals(n - 1).0
            && nu.allocated_bytes == pre.frame_totals(n - 1).1 && nu.children_count
            == pre.frame_children_count(n - 1) && nu.is_complete))
        ||| (n > 0 && pre.frame_pending_views(n - 1).len() > 0 && (ev
            matches ScanEvent::NodeUpdated(nu) && ({
            let v = pre.frame_pending_views(n - 1)[0];
            &&& v.first_due && v.emit
            &&& nu.path@ == v.path
            &&& nu.apparent_bytes == v.apparent
            &&& nu.allocated_bytes == v.allocated
            &&& nu.children_count == 0
            &&& !nu.is_complete
        })))
    }

    /// The scan closed successfully; when the consumer is still attached,
    /// `Complete` with the final counters is the last delivered event.
    pub open spec fn spec_complete_exit(post: Self) -> bool {
        &&& post.finished()
        &&& (!post.consumer_gone() ==> post.log().len() > 0 && (post.log().last()
            matches ScanEvent::Complete(p) && p == post.cur_progress()))
    }
}

} // verus!
