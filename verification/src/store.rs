//! The consumer-side tree store: the latest summary per path, the
//! insertion-ordered lists of immediate children, the scan lifecycle state,
//! and subtree pruning. Everything here is mutated by a single consumer; the
//! only bridge to the scanner is the event channel it drains.

use vstd::prelude::*;
use vstd::string::*;

use crate::channel::{try_recv_event, RecvAttempt};
use crate::model::{FsEntryKind, NodeSummary, ScanEvent, ScanProgress, SizeMetric, SortMode};
use crate::text::{
    chars_le, contains_str, file_name_of, in_subtree, lemma_chars_le_total,
    lemma_chars_le_transitive, lower_of, lowercase, outside_subtree, spec_contains,
    spec_file_name, spec_in_subtree, str_le, u64_to_string,
};

verus! {

/// How many queued events one drain call applies at most, so a tick's
/// latency stays bounded no matter how fast the scanner produces.
pub const MAX_EVENTS_PER_TICK: usize = 8192;

/// Lifecycle of the active scan, as the consumer sees it.
#[derive(Debug, Clone)]
pub enum ScanState {
    Idle,
    Scanning(ScanProgress),
    Complete(ScanProgress),
    Error(String),
    Cancelled,
}

impl ScanState {
    /// One-line status text for the header.
    pub fn as_status(&self) -> (r: String)
        ensures
            self is Idle ==> r@ == "idle"@,
            (self matches ScanState::Scanning(p) ==> r@ == "scanning (entries: "@
                + crate::text::spec_digits(p.visited_entries as nat) + ", warnings: "@
                + crate::text::spec_digits(p.warnings as nat) + ")"@),
            (self matches ScanState::Complete(p) ==> r@ == "complete (entries: "@
                + crate::text::spec_digits(p.visited_entries as nat) + ", warnings: "@
                + crate::text::spec_digits(p.warnings as nat) + ")"@),
            (self matches ScanState::Error(m) ==> r@ == "error: "@ + m@),
            self is Cancelled ==> r@ == "cancelled"@,
    {
        match self {
            ScanState::Idle => String::from_str("idle"),
            ScanState::Scanning(p) => {
                let mut s = String::from_str("scanning (entries: ");
                s.append(u64_to_string(p.visited_entries).as_str());
                s.append(", warnings: ");
                s.append(u64_to_string(p.warnings).as_str());
                s.append(")");
                s
            },
            ScanState::Complete(p) => {
                let mut s = String::from_str("complete (entries: ");
                s.append(u64_to_string(p.visited_entries).as_str());
                s.append(", warnings: ");
                s.append(u64_to_string(p.warnings).as_str());
                s.append(")");
                s
            },
            ScanState::Error(m) => {
                let mut s = String::from_str("error: ");
                s.append(m.as_str());
                s
            },
            ScanState::Cancelled => String::from_str("cancelled"),
        }
    }

    pub fn is_scanning(&self) -> (r: bool)
        ensures
            r == (self is Scanning),
    {
        match self {
            ScanState::Scanning(_) => true,
            _ => false,
        }
    }

    /// The progress counters while scanning or after completion.
    pub fn progress(&self) -> (r: Option<ScanProgress>)
        ensures
            r == (match *self {
                ScanState::Scanning(p) => Some(p),
                ScanState::Complete(p) => Some(p),
                _ => None::<ScanProgress>,
            }),
    {
        match self {
            ScanState::Scanning(p) => Some(*p),
            ScanState::Complete(p) => Some(*p),
            _ => None,
        }
    }
}

/// Selection index clamped into `[0, len - 1]`.
pub open spec fn spec_clamp_index(next: int, len: int) -> int {
    if next < 0 {
        0
    } else if next > len - 1 {
        len - 1
    } else {
        next
    }
}

/// The scroll offset the table uses so that the selected row stays visible:
/// the old offset, clamped to the end of the list, then pulled up or down
/// just enough to cover the selection.
pub open spec fn spec_scroll_offset_calc(current: int, selected: int, len: int, visible: int) -> int {
    if len == 0 {
        0
    } else if visible == 0 {
        if selected < len - 1 {
            selected
        } else {
            len - 1
        }
    } else {
        let maxo = if len >= visible {
            len - visible
        } else {
            0
        };
        let o1 = if current < maxo {
            current
        } else {
            maxo
        };
        let o2 = if selected < o1 {
            selected
        } else if selected >= o1 + visible {
            selected + 1 - visible
        } else {
            o1
        };
        if o2 < maxo {
            o2
        } else {
            maxo
        }
    }
}

/// Keep the selected row inside the visible window: clamp the previous
/// offset, then move it as little as possible so that
/// `offset <= selected < offset + visible_rows` whenever the window has any
/// height and the selection is in range.
pub fn compute_scroll_offset(
    current_offset: usize,
    selected_index: usize,
    len: usize,
    visible_rows: usize,
) -> (r: usize)
    ensures
        r as int == spec_scroll_offset_calc(
            current_offset as int,
            selected_index as int,
            len as int,
            visible_rows as int,
        ),
        (len > 0 && visible_rows > 0 && selected_index < len) ==> (r <= selected_index
            && selected_index < r + visible_rows),
{
    if len == 0 {
        return 0;
    }
    if visible_rows == 0 {
        return if selected_index < len - 1 {
            selected_index
        } else {
            len - 1
        };
    }
    let max_offset = if len >= visible_rows {
        len - visible_rows
    } else {
        0
    };
    let mut offset = if current_offset < max_offset {
        current_offset
    } else {
        max_offset
    };
    if selected_index < offset {
        offset = selected_index;
    } else if selected_index - offset >= visible_rows {
        offset = selected_index - visible_rows + 1;
    }
    if offset > max_offset {
        offset = max_offset;
    }
    offset
}

/// One parent's list of immediate children, in first-seen order.
pub struct ChildrenEntry {
    pub key: String,
    pub paths: Vec<String>,
}

spec fn seq_has_node(ns: Seq<NodeSummary>, p: Seq<char>) -> bool {
    exists|i: int| 0 <= i < ns.len() && (#[trigger] ns[i]).path@ == p
}

spec fn seq_node_index(ns: Seq<NodeSummary>, p: Seq<char>) -> int {
    choose|i: int| 0 <= i < ns.len() && (#[trigger] ns[i]).path@ == p
}

spec fn seq_has_key(cs: Seq<ChildrenEntry>, k: Seq<char>) -> bool {
    exists|i: int| 0 <= i < cs.len() && (#[trigger] cs[i]).key@ == k
}

spec fn seq_key_index(cs: Seq<ChildrenEntry>, k: Seq<char>) -> int {
    choose|i: int| 0 <= i < cs.len() && (#[trigger] cs[i]).key@ == k
}

/// The incremental tree built from scan events, together with the view
/// settings of the query layer (sort order, metric, filter, selection).
pub struct TreeStore {
    nodes: Vec<NodeSummary>,
    children: Vec<ChildrenEntry>,
    startup_root: String,
    current_root: String,
    active_scan_root: Option<String>,
    scan_state: ScanState,
    warnings: Vec<String>,
    message: Option<String>,
    sort_mode: SortMode,
    metric: SizeMetric,
    filter: String,
    filter_mode: bool,
    selected_index: usize,
    table_scroll_offset: usize,
}

impl TreeStore {
    pub closed spec fn spec_current_root(self) -> String {
        self.current_root
    }

    pub closed spec fn spec_startup_root(self) -> String {
        self.startup_root
    }

    pub closed spec fn spec_scan_state(self) -> ScanState {
        self.scan_state
    }

    pub closed spec fn spec_active_scan_root(self) -> Option<String> {
        self.active_scan_root
    }

    pub closed spec fn spec_sort_mode(self) -> SortMode {
        self.sort_mode
    }

    pub closed spec fn spec_metric(self) -> SizeMetric {
        self.metric
    }

    pub closed spec fn spec_filter(self) -> String {
        self.filter
    }

    pub closed spec fn spec_filter_mode(self) -> bool {
        self.filter_mode
    }

    pub closed spec fn spec_selected_index(self) -> usize {
        self.selected_index
    }

    pub closed spec fn spec_scroll_offset(self) -> usize {
        self.table_scroll_offset
    }

    pub closed spec fn spec_warnings(self) -> Seq<String> {
        self.warnings@
    }

    pub closed spec fn spec_message(self) -> Option<String> {
        self.message
    }

    /// Everything outside the two maps agrees.
    pub closed spec fn only_maps_changed(a: Self, b: Self) -> bool {
        b == (TreeStore { nodes: b.nodes, children: b.children, ..a })
    }

    /// The maps, roots, scan state and warnings agree; only the view
    /// preferences (sort, metric, filter, selection, message) may differ.
    pub closed spec fn same_core(a: Self, b: Self) -> bool {
        b == (TreeStore {
            sort_mode: b.sort_mode,
            metric: b.metric,
            filter: b.filter,
            filter_mode: b.filter_mode,
            selected_index: b.selected_index,
            table_scroll_offset: b.table_scroll_offset,
            message: b.message,
            ..a
        })
    }
    /// There is a summary stored for this path.
    pub closed spec fn has_node(self, p: Seq<char>) -> bool {
        seq_has_node(self.nodes@, p)
    }

    pub closed spec fn node_index(self, p: Seq<char>) -> int {
        seq_node_index(self.nodes@, p)
    }

    /// The summary stored for a path.
    pub closed spec fn node_at(self, p: Seq<char>) -> NodeSummary {
        self.nodes@[self.node_index(p)]
    }

    /// There is a children list recorded under this parent path.
    pub closed spec fn has_children_key(self, k: Seq<char>) -> bool {
        seq_has_key(self.children@, k)
    }

    pub closed spec fn children_index(self, k: Seq<char>) -> int {
        seq_key_index(self.children@, k)
    }

    /// The recorded children of a parent, in first-seen order.
    pub closed spec fn children_at(self, k: Seq<char>) -> Seq<Seq<char>> {
        self.children@[self.children_index(k)].paths@.map_values(|s: String| s@)
    }

    spec fn nodes_unique(self) -> bool {
        forall|i: int, j: int|
            0 <= i < j < self.nodes@.len() ==> (#[trigger] self.nodes@[i]).path@ != (
            #[trigger] self.nodes@[j]).path@
    }

    spec fn children_unique(self) -> bool {
        forall|i: int, j: int|
            0 <= i < j < self.children@.len() ==> (#[trigger] self.children@[i]).key@ != (
            #[trigger] self.children@[j]).key@
    }

    /// Every path in any children list has a summary in `nodes`.
    spec fn children_closed(self) -> bool {
        forall|i: int, j: int|
            0 <= i < self.children@.len() && 0 <= j < self.children@[i].paths@.len()
                ==> self.has_node(#[trigger] self.children@[i].paths@[j]@)
    }

    /// No children list names the same path twice.
    spec fn children_lists_distinct(self) -> bool {
        forall|i: int, j1: int, j2: int|
            0 <= i < self.children@.len() && 0 <= j1 < j2 < self.children@[i].paths@.len() ==> (
            #[trigger] self.children@[i].paths@[j1]@) != (#[trigger] self.children@[i].paths@[j2]@)
    }

    /// Store invariant: unique keys in both maps, children lists only name
    /// stored nodes, and no list names a path twice.
    pub closed spec fn wf(self) -> bool {
        self.nodes_unique() && self.children_unique() && self.children_closed()
            && self.children_lists_distinct()
    }

    /// A recorded child appears in its parent's list exactly once.
    pub proof fn lemma_children_distinct(self, k: Seq<char>, j1: int, j2: int)
        requires
            self.wf(),
            self.has_children_key(k),
            0 <= j1 < j2 < self.children_at(k).len(),
        ensures
            self.children_at(k)[j1] != self.children_at(k)[j2],
    {
        let i = self.children_index(k);
        assert(self.children_at(k)[j1] == self.children@[i].paths@[j1]@);
        assert(self.children_at(k)[j2] == self.children@[i].paths@[j2]@);
    }

    /// A fresh, empty store looking at `startup_root`.
    pub fn new(startup_root: String, metric: SizeMetric) -> (r: TreeStore)
        ensures
            r.wf(),
            forall|p: Seq<char>| !r.has_node(p),
            forall|k: Seq<char>| !r.has_children_key(k),
            r.spec_current_root() == startup_root,
            r.spec_startup_root() == startup_root,
            r.spec_metric() == metric,
            r.spec_sort_mode() == SortMode::SizeDesc,
            r.spec_scan_state() is Idle,
    {
        let current_root = startup_root.clone();
        TreeStore {
            nodes: Vec::new(),
            children: Vec::new(),
            startup_root,
            current_root,
            active_scan_root: None,
            scan_state: ScanState::Idle,
            warnings: Vec::new(),
            message: None,
            sort_mode: SortMode::SizeDesc,
            metric,
            filter: String::new(),
            filter_mode: false,
            selected_index: 0,
            table_scroll_offset: 0,
        }
    }

    fn find_node(&self, path: &String) -> (r: Option<usize>)
        ensures
            match r {
                Some(i) => i < self.nodes@.len() && self.nodes@[i as int].path@ == path@
                    && self.has_node(path@),
                None => !self.has_node(path@),
            },
    {
        let n = self.nodes.len();
        let mut i: usize = 0;
        while i < n
            invariant
                i <= n,
                n == self.nodes@.len(),
                forall|j: int| 0 <= j < i ==> (#[trigger] self.nodes@[j]).path@ != path@,
            decreases n - i,
        {
            if self.nodes[i].path.eq(path) {
                return Some(i);
            }
            i += 1;
        }
        None
    }

    fn find_children(&self, key: &String) -> (r: Option<usize>)
        ensures
            match r {
                Some(i) => i < self.children@.len() && self.children@[i as int].key@ == key@
                    && self.has_children_key(key@),
                None => !self.has_children_key(key@),
            },
    {
        let n = self.children.len();
        let mut i: usize = 0;
        while i < n
            invariant
                i <= n,
                n == self.children@.len(),
                forall|j: int| 0 <= j < i ==> (#[trigger] self.children@[j]).key@ != key@,
            decreases n - i,
        {
            if self.children[i].key.eq(key) {
                return Some(i);
            }
            i += 1;
        }
        None
    }

    /// Store the latest summary for `node.path`. The first sighting of a
    /// path also registers it at the end of its parent's children list;
    /// later updates replace the summary in place and leave every children
    /// list untouched.
    pub fn upsert_node(&mut self, node: NodeSummary)
        requires
            old(self).wf(),
        ensures
            final(self).wf(),
            final(self).has_node(node.path@),
            final(self).node_at(node.path@) == node,
            forall|p: Seq<char>|
                p != node.path@ ==> (#[trigger] final(self).has_node(p)) == old(self).has_node(p),
            forall|p: Seq<char>|
                p != node.path@ && old(self).has_node(p) ==> (#[trigger] final(self).node_at(p))
                    == old(self).node_at(p),
            old(self).has_node(node.path@) ==> ((forall|k: Seq<char>|
                (#[trigger] final(self).has_children_key(k)) == old(self).has_children_key(k))
                && (forall|k: Seq<char>|
                old(self).has_children_key(k) ==> (#[trigger] final(self).children_at(k)) == old(
                    self,
                ).children_at(k))),
            (!old(self).has_node(node.path@) ==> (match crate::text::spec_parent(node.path@) {
                Some(pp) => (final(self).has_children_key(pp) && final(self).children_at(pp) == (
                if old(self).has_children_key(pp) {
                    old(self).children_at(pp)
                } else {
                    Seq::<Seq<char>>::empty()
                }).push(node.path@) && (forall|k: Seq<char>|
                    k != pp ==> (#[trigger] final(self).has_children_key(k)) == old(self).has_children_key(k)) && (forall|k: Seq<char>|
                    k != pp && old(self).has_children_key(k) ==> (#[trigger] final(self).children_at(k)) == old(self).children_at(k))),
                None => ((forall|k: Seq<char>|
                    (#[trigger] final(self).has_children_key(k)) == old(self).has_children_key(
                        k,
                    )) && (forall|k: Seq<char>|
                    old(self).has_children_key(k) ==> (#[trigger] final(self).children_at(k))
                        == old(self).children_at(k))),
            })),
            Self::only_maps_changed(*old(self), *final(self)),
    {
        let ghost pre = *self;
        match self.find_node(&node.path) {
            Some(i) => {
                let ghost key = node.path@;
                self.nodes.remove(i);
                self.nodes.insert(i, node);
                proof {
                    assert(self.nodes@ =~= pre.nodes@.update(i as int, node));
                    assert(self.nodes@[i as int].path@ == key);
                    assert forall|p: Seq<char>|
                        p != key && pre.has_node(p) implies #[trigger] self.has_node(p) by {
                        let j = pre.node_index(p);
                        assert(self.nodes@[j] == pre.nodes@[j]);
                    }
                    assert forall|p: Seq<char>|
                        p != key && pre.has_node(p) implies (#[trigger] self.node_at(p))
                        == pre.node_at(p) by {
                        let j = pre.node_index(p);
                        assert(self.nodes@[j] == pre.nodes@[j]);
                        assert(self.has_node(p));
                        let j2 = self.node_index(p);
                        if j2 != j {
                            assert(self.nodes@[j2].path@ == p);
                            if j2 == i {
                                assert(false);
                            } else {
                                assert(pre.nodes@[j2].path@ == p);
                                assert(false);
                            }
                        }
                    }
                    assert forall|p: Seq<char>|
                        p != key && self.has_node(p) implies pre.has_node(p) by {
                        let j = self.node_index(p);
                        assert(pre.nodes@[j] == self.nodes@[j] || j == i);
                    }
                    assert(self.has_node(key));
                    let j2 = self.node_index(key);
                    if j2 != i {
                        assert(self.nodes@[j2] == pre.nodes@[j2]);
                        assert(false);
                    }
                    assert(self.node_at(key) == node);
                    assert forall|a: int, b: int|
                        0 <= a < b < self.nodes@.len() implies (#[trigger] self.nodes@[a]).path@
                        != (#[trigger] self.nodes@[b]).path@ by {
                        assert(pre.nodes@[a].path@ != pre.nodes@[b].path@);
                        assert(self.nodes@[a].path@ == pre.nodes@[a].path@ || a == i);
                        assert(self.nodes@[b].path@ == pre.nodes@[b].path@ || b == i);
                    }
                    assert forall|a: int, j: int|
                        0 <= a < self.children@.len() && 0 <= j < self.children@[a].paths@.len()
                        implies self.has_node(#[trigger] self.children@[a].paths@[j]@) by {
                        assert(pre.has_node(pre.children@[a].paths@[j]@));
                    }
                }
            },
            None => {
                let parent = crate::text::parent_of(&node.path);
                let ghost key = node.path@;
                let path_copy = node.path.clone();
                self.nodes.push(node);
                proof {
                    assert forall|p: Seq<char>|
                        p != key && pre.has_node(p) implies #[trigger] self.has_node(p) by {
                        let j = pre.node_index(p);
                        assert(self.nodes@[j] == pre.nodes@[j]);
                    }
                    assert forall|p: Seq<char>|
                        p != key && pre.has_node(p) implies (#[trigger] self.node_at(p))
                        == pre.node_at(p) by {
                        let j = pre.node_index(p);
                        assert(self.nodes@[j] == pre.nodes@[j]);
                        assert(self.has_node(p));
                        let j2 = self.node_index(p);
                        if j2 != j {
                            if j2 < pre.nodes@.len() {
                                assert(pre.nodes@[j2].path@ == p);
                                assert(false);
                            } else {
                                assert(self.nodes@[j2].path@ == key);
                                assert(false);
                            }
                        }
                    }
                    assert(self.has_node(key)) by {
                        assert(self.nodes@[pre.nodes@.len() as int].path@ == key);
                    }
                    assert forall|p: Seq<char>|
                        p != key && self.has_node(p) implies pre.has_node(p) by {
                        let j = self.node_index(p);
                        if j < pre.nodes@.len() {
                            assert(pre.nodes@[j].path@ == p);
                        } else {
                            assert(self.nodes@[j].path@ == key);
                            assert(false);
                        }
                    }
                    let j2 = self.node_index(key);
                    if j2 < pre.nodes@.len() {
                        assert(pre.nodes@[j2].path@ == key);
                        assert(false);
                    }
                    assert forall|a: int, b: int|
                        0 <= a < b < self.nodes@.len() implies (#[trigger] self.nodes@[a]).path@
                        != (#[trigger] self.nodes@[b]).path@ by {
                        if b < pre.nodes@.len() {
                            assert(pre.nodes@[a].path@ != pre.nodes@[b].path@);
                        } else {
                            assert(self.nodes@[b].path@ == key);
                            assert(pre.nodes@[a].path@ != key);
                        }
                    }
                }
                match parent {
                    None => {
                        proof {
                            self.lemma_children_closed_grows(pre);
                        }
                    },
                    Some(parent_path) => {
                        match self.find_children(&parent_path) {
                            Some(ci) => {
                                let ghost cpre = *self;
                                let mut entry = self.children.remove(ci);
                                entry.paths.push(path_copy);
                                self.children.insert(ci, entry);
                                proof {
                                    assert(self.children@.len() == cpre.children@.len());
                                    assert forall|a: int|
                                        0 <= a < self.children@.len() && a != ci implies
                                        self.children@[a] == cpre.children@[a] by {}
                                    assert(self.children@[ci as int].key@
                                        == cpre.children@[ci as int].key@);
                                    assert(self.children@[ci as int].paths@
                                        =~= cpre.children@[ci as int].paths@.push(path_copy));
                                    assert forall|a: int, b: int|
                                        0 <= a < b < self.children@.len() implies (
                                    #[trigger] self.children@[a]).key@ != (
                                    #[trigger] self.children@[b]).key@ by {
                                        assert(cpre.children@[a].key@ != cpre.children@[b].key@);
                                    }
                                    assert forall|a: int, j: int|
                                        0 <= a < self.children@.len() && 0 <= j
                                            < self.children@[a].paths@.len() implies self.has_node(
                                        #[trigger] self.children@[a].paths@[j]@,
                                    ) by {
                                        if a == ci && j == cpre.children@[a].paths@.len() {
                                            assert(self.children@[a].paths@[j]@ == key);
                                        } else {
                                            assert(cpre.children@[a].paths@[j]
                                                == self.children@[a].paths@[j]);
                                            assert(cpre.has_node(cpre.children@[a].paths@[j]@));
                                        }
                                    }
                                    let pp = parent_path@;
                                    assert(self.has_children_key(pp)) by {
                                        assert(self.children@[ci as int].key@ == pp);
                                    }
                                    let x = self.children_index(pp);
                                    if x != ci {
                                        assert(self.children@[x].key@ == pp);
                                        assert(cpre.children@[x].key@ == pp);
                                        assert(false);
                                    }
                                    assert(old(self).has_children_key(pp)) by {
                                        assert(old(self).children@[ci as int].key@ == pp);
                                    }
                                    let y = old(self).children_index(pp);
                                    if y != ci {
                                        assert(old(self).children@[y].key@ == pp);
                                        assert(false);
                                    }
                                    assert(self.children_at(pp) =~= old(self).children_at(
                                        pp,
                                    ).push(key));
                                    assert forall|k: Seq<char>| k != pp implies (
                                    #[trigger] self.has_children_key(k)) == old(self).has_children_key(k) by {
                                        if self.has_children_key(k) {
                                            let z = self.children_index(k);
                                            assert(self.children@[z].key@ == k);
                                            if z == ci {
                                                assert(false);
                                            }
                                            assert(old(self).children@[z].key@ == k);
                                        }
                                        if old(self).has_children_key(k) {
                                            let z = old(self).children_index(k);
                                            assert(old(self).children@[z].key@ == k);
                                            if z == ci {
                                                assert(false);
                                            }
                                            assert(self.children@[z].key@ == k);
                                        }
                                    }
                                    assert forall|k: Seq<char>|
                                        k != pp && old(self).has_children_key(k) implies (
                                    #[trigger] self.children_at(k)) == old(self).children_at(k) by {
                                        let z = old(self).children_index(k);
                                        if z == ci {
                                            assert(false);
                                        }
                                        assert(self.children@[z] == old(self).children@[z]);
                                        assert(self.has_children_key(k)) by {
                                            assert(self.children@[z].key@ == k);
                                        }
                                        let z2 = self.children_index(k);
                                        if z2 != z {
                                            assert(self.children@[z2].key@ == k);
                                            if z2 == ci {
                                                assert(false);
                                            }
                                            assert(cpre.children@[z2].key@ == k);
                                            assert(false);
                                        }
                                    }
                                    assert(self.nodes@ == cpre.nodes@);
                                    assert forall|p: Seq<char>|
                                        p != node.path@ implies (#[trigger] self.has_node(p))
                                        == pre.has_node(p) by {
                                        assert(cpre.has_node(p) == pre.has_node(p));
                                    }
                                    assert forall|p: Seq<char>|
                                        p != node.path@ && pre.has_node(p) implies (
                                    #[trigger] self.node_at(p)) == pre.node_at(p) by {
                                        assert(cpre.node_at(p) == pre.node_at(p));
                                        assert(cpre.has_node(p));
                                    }
                                    assert(self.has_node(node.path@)) by {
                                        assert(cpre.has_node(node.path@));
                                    }
                                    assert(self.node_at(node.path@) == node) by {
                                        assert(cpre.node_at(node.path@) == node);
                                        assert(cpre.has_node(node.path@));
                                    }
                                }
                            },
                            None => {
                                let ghost cpre = *self;
                                let mut paths: Vec<String> = Vec::new();
                                paths.push(path_copy);
                                let entry = ChildrenEntry { key: parent_path, paths };
                                self.children.push(entry);
                                proof {
                                    assert forall|a: int, b: int|
                                        0 <= a < b < self.children@.len() implies (
                                    #[trigger] self.children@[a]).key@ != (
                                    #[trigger] self.children@[b]).key@ by {
                                        if b < cpre.children@.len() {
                                            assert(cpre.children@[a].key@
                                                != cpre.children@[b].key@);
                                        } else {
                                            assert(cpre.children@[a].key@
                                                == self.children@[a].key@);
                                            assert(cpre.has_children_key(self.children@[a].key@));
                                        }
                                    }
                                    assert forall|a: int, j: int|
                                        0 <= a < self.children@.len() && 0 <= j
                                            < self.children@[a].paths@.len() implies self.has_node(
                                        #[trigger] self.children@[a].paths@[j]@,
                                    ) by {
                                        if a < cpre.children@.len() {
                                            assert(cpre.children@[a] == self.children@[a]);
                                            assert(cpre.has_node(cpre.children@[a].paths@[j]@));
                                        } else {
                                            assert(self.children@[a].paths@[j]@ == key);
                                        }
                                    }
                                    let pp = parent_path@;
                                    let last = cpre.children@.len() as int;
                                    assert(self.has_children_key(pp)) by {
                                        assert(self.children@[last].key@ == pp);
                                    }
                                    let x = self.children_index(pp);
                                    if x != last {
                                        assert(self.children@[x].key@ == pp);
                                        assert(cpre.children@[x].key@ == pp);
                                        assert(false);
                                    }
                                    assert(!old(self).has_children_key(pp));
                                    assert(self.children_at(pp) =~= Seq::<Seq<char>>::empty().push(
                                        key,
                                    ));
                                    assert forall|k: Seq<char>| k != pp implies (
                                    #[trigger] self.has_children_key(k)) == old(self).has_children_key(k) by {
                                        if self.has_children_key(k) {
                                            let z = self.children_index(k);
                                            assert(self.children@[z].key@ == k);
                                            if z == last {
                                                assert(false);
                                            }
                                            assert(old(self).children@[z].key@ == k);
                                        }
                                        if old(self).has_children_key(k) {
                                            let z = old(self).children_index(k);
                                            assert(old(self).children@[z].key@ == k);
                                            assert(self.children@[z].key@ == k);
                                        }
                                    }
                                    assert forall|k: Seq<char>|
                                        k != pp && old(self).has_children_key(k) implies (
                                    #[trigger] self.children_at(k)) == old(self).children_at(k) by {
                                        let z = old(self).children_index(k);
                                        assert(self.children@[z] == old(self).children@[z]);
                                        assert(self.has_children_key(k)) by {
                                            assert(self.children@[z].key@ == k);
                                        }
                                        let z2 = self.children_index(k);
                                        if z2 != z {
                                            assert(self.children@[z2].key@ == k);
                                            if z2 == last {
                                                assert(false);
                                            }
                                            assert(cpre.children@[z2].key@ == k);
                                            assert(false);
                                        }
                                    }
                                    assert(self.nodes@ == cpre.nodes@);
                                    assert forall|p: Seq<char>|
                                        p != node.path@ implies (#[trigger] self.has_node(p))
                                        == pre.has_node(p) by {
                                        assert(cpre.has_node(p) == pre.has_node(p));
                                    }
                                    assert forall|p: Seq<char>|
                                        p != node.path@ && pre.has_node(p) implies (
                                    #[trigger] self.node_at(p)) == pre.node_at(p) by {
                                        assert(cpre.node_at(p) == pre.node_at(p));
                                        assert(cpre.has_node(p));
                                    }
                                    assert(self.has_node(node.path@)) by {
                                        assert(cpre.has_node(node.path@));
                                    }
                                    assert(self.node_at(node.path@) == node) by {
                                        assert(cpre.node_at(node.path@) == node);
                                        assert(cpre.has_node(node.path@));
                                    }
                                }
                            },
                        }
                    },
                }
            },
        }
    }

    /// Every element of a filtered sequence comes from the original one.
    proof fn lemma_filter_element_from(s: Seq<Seq<char>>, pred: spec_fn(Seq<char>) -> bool, j: int)
        requires
            0 <= j < s.filter(pred).len(),
        ensures
            exists|j0: int| 0 <= j0 < s.len() && s[j0] == s.filter(pred)[j],
        decreases s.len(),
    {
        reveal(Seq::filter);
        if s.len() > 0 {
            let f = s.filter(pred);
            let fd = s.drop_last().filter(pred);
            if pred(s.last()) {
                if j < fd.len() {
                    Self::lemma_filter_element_from(s.drop_last(), pred, j);
                    let j0 = choose|j0: int|
                        0 <= j0 < s.drop_last().len() && s.drop_last()[j0] == fd[j];
                    assert(s[j0] == f[j]);
                } else {
                    assert(f[j] == s.last());
                    assert(s[s.len() - 1] == f[j]);
                }
            } else {
                Self::lemma_filter_element_from(s.drop_last(), pred, j);
                let j0 = choose|j0: int|
                    0 <= j0 < s.drop_last().len() && s.drop_last()[j0] == fd[j];
                assert(s[j0] == f[j]);
            }
        }
    }

    /// Filtering keeps a duplicate-free sequence duplicate-free.
    proof fn lemma_filter_keeps_distinct(s: Seq<Seq<char>>, pred: spec_fn(Seq<char>) -> bool)
        requires
            forall|a: int, b: int| 0 <= a < b < s.len() ==> s[a] != s[b],
        ensures
            forall|a: int, b: int|
                0 <= a < b < s.filter(pred).len() ==> s.filter(pred)[a] != s.filter(pred)[b],
        decreases s.len(),
    {
        reveal(Seq::filter);
        if s.len() > 0 {
            let d = s.drop_last();
            assert forall|a: int, b: int| 0 <= a < b < d.len() implies d[a] != d[b] by {
                assert(d[a] == s[a] && d[b] == s[b]);
            }
            Self::lemma_filter_keeps_distinct(d, pred);
            let fd = d.filter(pred);
            let f = s.filter(pred);
            if pred(s.last()) {
                assert(f == fd.push(s.last()));
                assert forall|a: int| 0 <= a < fd.len() implies fd[a] != s.last() by {
                    Self::lemma_filter_element_from(d, pred, a);
                    let j0 = choose|j0: int| 0 <= j0 < d.len() && d[j0] == d.filter(pred)[a];
                    assert(d[j0] == s[j0]);
                    assert(s[j0] != s[s.len() - 1]);
                }
                assert forall|a: int, b: int| 0 <= a < b < f.len() implies f[a] != f[b] by {
                    if b < fd.len() {
                        assert(f[a] == fd[a] && f[b] == fd[b]);
                    } else {
                        assert(f[b] == s.last());
                        assert(f[a] == fd[a]);
                    }
                }
            }
        }
    }

    /// Remove every node whose path equals `root` or is nested under it,
    /// drop the children lists recorded under such paths, and strip such
    /// paths from every remaining children list. Invoked before rescanning
    /// `root`, so stale data from an earlier scan of that subtree cannot
    /// linger. Afterwards no key in the node map and no member of any
    /// children list lies in the pruned subtree.
    #[verifier::loop_isolation(false)]
    pub fn prune_subtree(&mut self, root: &String)
        requires
            old(self).wf(),
        ensures
            final(self).wf(),
            forall|p: Seq<char>|
                #[trigger] final(self).has_node(p) <==> (old(self).has_node(p)
                    && !spec_in_subtree(p, root@)),
            forall|p: Seq<char>|
                old(self).has_node(p) && !spec_in_subtree(p, root@) ==> (#[trigger] final(self).node_at(p))
                    == old(self).node_at(p),
            forall|k: Seq<char>|
                #[trigger] final(self).has_children_key(k) <==> (old(self).has_children_key(k)
                    && !spec_in_subtree(k, root@)),
            forall|k: Seq<char>|
                #[trigger] final(self).has_children_key(k) ==> final(self).children_at(k) == old(
                    self,
                ).children_at(k).filter(outside_subtree(root@)),
            Self::only_maps_changed(*old(self), *final(self)),
            final(self).spec_current_root() == old(self).spec_current_root(),
            final(self).spec_scan_state() == old(self).spec_scan_state(),
            final(self).spec_selected_index() == old(self).spec_selected_index(),
    {
        let ghost rootv = root@;
        let ghost orig = self.nodes@;
        let mut kept: Vec<NodeSummary> = Vec::new();
        while self.nodes.len() > 0
            invariant
                (*self == (TreeStore { nodes: self.nodes, ..*old(self) })),
                self.nodes@.len() <= orig.len(),
                self.nodes@ == orig.skip(orig.len() - self.nodes@.len()),
                forall|a: int, b: int|
                    0 <= a < b < kept@.len() ==> (#[trigger] kept@[a]).path@ != (
                    #[trigger] kept@[b]).path@,
                forall|p: Seq<char>|
                    #[trigger] seq_has_node(kept@, p) ==> (!spec_in_subtree(p, rootv)
                        && seq_has_node(orig, p) && (exists|j: int|
                        0 <= j < orig.len() - self.nodes@.len() && (#[trigger] orig[j]).path@ == p)
                        && kept@[seq_node_index(kept@, p)] == orig[seq_node_index(orig, p)]),
                forall|j: int|
                    0 <= j < orig.len() - self.nodes@.len() && !spec_in_subtree(
                        (#[trigger] orig[j]).path@,
                        rootv,
                    ) ==> seq_has_node(kept@, orig[j].path@),
            decreases self.nodes@.len(),
        {
            let ghost i = orig.len() - self.nodes@.len();
            let ghost kpre = kept@;
            let n = self.nodes.remove(0);
            proof {
                assert(n == orig[i]);
                assert(self.nodes@ =~= orig.skip(i + 1));
            }
            if !in_subtree(&n.path, root) {
                let ghost np = n.path@;
                kept.push(n);
                proof {
                    assert(!seq_has_node(kpre, np)) by {
                        if seq_has_node(kpre, np) {
                            let j = choose|j: int|
                                0 <= j < i && (#[trigger] orig[j]).path@ == np;
                            assert(orig[j].path@ == orig[i].path@);
                            assert(false);
                        }
                    }
                    assert forall|p: Seq<char>| #[trigger] seq_has_node(kept@, p) implies (
                    !spec_in_subtree(p, rootv) && seq_has_node(orig, p) && (exists|j: int|
                        0 <= j < i + 1 && (#[trigger] orig[j]).path@ == p) && kept@[seq_node_index(
                        kept@,
                        p,
                    )] == orig[seq_node_index(orig, p)]) by {
                        let x = seq_node_index(kept@, p);
                        if x < kpre.len() {
                            assert(kept@[x] == kpre[x]);
                            assert(seq_has_node(kpre, p));
                            let x0 = seq_node_index(kpre, p);
                            assert(kpre[x0] == kept@[x0]);
                            if x0 != x {
                                assert(false);
                            }
                        } else {
                            assert(kept@[x] == orig[i]);
                            assert(p == np);
                            let y = seq_node_index(orig, p);
                            assert(orig[y].path@ == p);
                            if y != i {
                                assert(false);
                            }
                        }
                    }
                    assert forall|j: int|
                        0 <= j < i + 1 && !spec_in_subtree((#[trigger] orig[j]).path@, rootv)
                        implies seq_has_node(kept@, orig[j].path@) by {
                        if j < i {
                            assert(seq_has_node(kpre, orig[j].path@));
                            let x0 = seq_node_index(kpre, orig[j].path@);
                            assert(kept@[x0] == kpre[x0]);
                        } else {
                            assert(kept@[kpre.len() as int].path@ == orig[j].path@);
                        }
                    }
                }
            } else {
                proof {
                    assert forall|j: int|
                        0 <= j < i + 1 && !spec_in_subtree((#[trigger] orig[j]).path@, rootv)
                        implies seq_has_node(kept@, orig[j].path@) by {
                        if j == i {
                            assert(false);
                        }
                    }
                }
            }
        }
        self.nodes = kept;

        let ghost corig = self.children@;
        let ghost mut processed: int = 0;
        let mut kept_children: Vec<ChildrenEntry> = Vec::new();
        while self.children.len() > 0
            invariant
                (*self == (TreeStore { nodes: self.nodes, children: self.children, ..*old(self) })),
                self.nodes@ == kept@,
                0 <= processed <= corig.len(),
                self.children@.len() + processed == corig.len(),
                self.children@ == corig.skip(processed),
                forall|a: int, b: int|
                    0 <= a < b < kept_children@.len() ==> (#[trigger] kept_children@[a]).key@ != (
                    #[trigger] kept_children@[b]).key@,
                forall|k: Seq<char>|
                    #[trigger] seq_has_key(kept_children@, k) ==> (!spec_in_subtree(k, rootv)
                        && seq_has_key(corig, k) && (exists|j: int|
                        0 <= j < processed && (#[trigger] corig[j]).key@
                            == k) && kept_children@[seq_key_index(kept_children@, k)].key@ == k
                        && kept_children@[seq_key_index(kept_children@, k)].paths@.map_values(
                        |s: String| s@,
                    ) == corig[seq_key_index(corig, k)].paths@.map_values(|s: String| s@).filter(
                        |m: Seq<char>| !spec_in_subtree(m, rootv),
                    )),
                forall|j: int|
                    0 <= j < processed && !spec_in_subtree(
                        (#[trigger] corig[j]).key@,
                        rootv,
                    ) ==> seq_has_key(kept_children@, corig[j].key@),
            decreases self.children@.len(),
        {
            let ghost i = processed;
            let ghost kpre = kept_children@;
            let mut entry = self.children.remove(0);
            proof {
                assert(entry == corig[i]);
                assert(self.children@ =~= corig.skip(i + 1));
            }
            if !in_subtree(&entry.key, root) {
                let ghost ekey = entry.key@;
                let ghost porig = entry.paths@;
                let mut kept_paths: Vec<String> = Vec::new();
                proof {
                    reveal_with_fuel(Seq::filter, 2);
                    assert(kept_paths@.map_values(|s: String| s@) =~= porig.subrange(
                        0,
                        0,
                    ).map_values(|s: String| s@).filter(outside_subtree(rootv)));
                }
                while entry.paths.len() > 0
                    invariant
                        entry.key@ == ekey,
                        entry.paths@.len() <= porig.len(),
                        entry.paths@ == porig.skip(porig.len() - entry.paths@.len()),
                        kept_paths@.map_values(|s: String| s@) == porig.subrange(
                            0,
                            porig.len() - entry.paths@.len(),
                        ).map_values(|s: String| s@).filter(outside_subtree(rootv)),
                    decreases entry.paths@.len(),
                {
                    let ghost pj = porig.len() - entry.paths@.len();
                    let ghost kp = kept_paths@;
                    let m = entry.paths.remove(0);
                    proof {
                        assert(m == porig[pj]);
                        assert(entry.paths@ =~= porig.skip(pj + 1));
                        assert(porig.subrange(0, pj + 1).map_values(|s: String| s@).drop_last()
                            =~= porig.subrange(0, pj).map_values(|s: String| s@));
                        assert(porig.subrange(0, pj + 1).map_values(|s: String| s@).last()
                            == porig[pj]@);
                    }
                    if !in_subtree(&m, root) {
                        kept_paths.push(m);
                        proof {
                            reveal_with_fuel(Seq::filter, 2);
                            assert(kept_paths@.map_values(|s: String| s@) =~= kp.map_values(
                                |s: String| s@,
                            ).push(porig[pj]@));
                            assert(outside_subtree(rootv)(porig[pj]@));
                            assert(porig.subrange(0, pj + 1).map_values(|s: String| s@).filter(
                                outside_subtree(rootv),
                            ) == porig.subrange(0, pj).map_values(|s: String| s@).filter(
                                outside_subtree(rootv),
                            ).push(porig[pj]@));
                        }
                    } else {
                        proof {
                            reveal_with_fuel(Seq::filter, 2);
                            assert(!outside_subtree(rootv)(porig[pj]@));
                            assert(porig.subrange(0, pj + 1).map_values(|s: String| s@).filter(
                                outside_subtree(rootv),
                            ) == porig.subrange(0, pj).map_values(|s: String| s@).filter(
                                outside_subtree(rootv),
                            ));
                        }
                    }
                }
                proof {
                    assert(porig.subrange(0, porig.len() as int) =~= porig);
                }
                entry.paths = kept_paths;
                kept_children.push(entry);
                proof {
                    assert(!seq_has_key(kpre, ekey)) by {
                        if seq_has_key(kpre, ekey) {
                            let j = choose|j: int|
                                0 <= j < processed && (#[trigger] corig[j]).key@ == ekey;
                            assert(corig[j].key@ == corig[i].key@);
                            assert(false);
                        }
                    }
                    assert forall|k: Seq<char>| #[trigger] seq_has_key(kept_children@, k) implies (
                    !spec_in_subtree(k, rootv) && seq_has_key(corig, k) && (exists|j: int|
                        0 <= j < i + 1 && (#[trigger] corig[j]).key@ == k) && kept_children@[
                        seq_key_index(kept_children@, k)].key@ == k && kept_children@[seq_key_index(
                        kept_children@,
                        k,
                    )].paths@.map_values(|s: String| s@) == corig[seq_key_index(
                        corig,
                        k,
                    )].paths@.map_values(|s: String| s@).filter(outside_subtree(rootv))) by {
                        let x = seq_key_index(kept_children@, k);
                        if x < kpre.len() {
                            assert(kept_children@[x] == kpre[x]);
                            assert(seq_has_key(kpre, k));
                            let x0 = seq_key_index(kpre, k);
                            assert(kpre[x0] == kept_children@[x0]);
                            if x0 != x {
                                assert(false);
                            }
                        } else {
                            assert(k == ekey);
                            let y = seq_key_index(corig, k);
                            assert(corig[y].key@ == k);
                            if y != i {
                                assert(false);
                            }
                        }
                    }
                    assert forall|j: int|
                        0 <= j < i + 1 && !spec_in_subtree((#[trigger] corig[j]).key@, rootv)
                        implies seq_has_key(kept_children@, corig[j].key@) by {
                        if j < i {
                            assert(seq_has_key(kpre, corig[j].key@));
                            let x0 = seq_key_index(kpre, corig[j].key@);
                            assert(kept_children@[x0] == kpre[x0]);
                        } else {
                            assert(kept_children@[kpre.len() as int].key@ == corig[j].key@);
                        }
                    }
                    processed = processed + 1;
                }
            } else {
                proof {
                    assert forall|j: int|
                        0 <= j < i + 1 && !spec_in_subtree((#[trigger] corig[j]).key@, rootv)
                        implies seq_has_key(kept_children@, corig[j].key@) by {
                        if j == i {
                            assert(false);
                        }
                    }
                    processed = processed + 1;
                }
            }
        }
        self.children = kept_children;

        proof {
            let fin = *self;
            let pre = *old(self);
            assert(fin.nodes@ == kept@);
            assert(fin.children@ == kept_children@);
            assert(pre.nodes@ == orig);
            assert(pre.children@ == corig);
            assert forall|p: Seq<char>|
                pre.has_node(p) && !spec_in_subtree(p, rootv) implies #[trigger] fin.has_node(p) by {
                let j = seq_node_index(pre.nodes@, p);
                assert(orig[j].path@ == p);
                assert(seq_has_node(kept@, orig[j].path@));
            }
            assert forall|k: Seq<char>|
                pre.has_children_key(k) && !spec_in_subtree(k, rootv) implies
                #[trigger] fin.has_children_key(k) by {
                let j = seq_key_index(pre.children@, k);
                assert(corig[j].key@ == k);
                assert(seq_has_key(kept_children@, corig[j].key@));
            }
            assert forall|k: Seq<char>| #[trigger] fin.has_children_key(k) implies
                fin.children_at(k) == pre.children_at(k).filter(outside_subtree(rootv)) by {
                assert(seq_has_key(kept_children@, k));
                let xk = seq_key_index(kept_children@, k);
                assert(kept_children@[xk].key@ == k);
                assert(kept_children@[xk].paths@.map_values(|s: String| s@) == corig[seq_key_index(
                    corig,
                    k,
                )].paths@.map_values(|s: String| s@).filter(outside_subtree(rootv)));
                assert(seq_key_index(fin.children@, k) == xk);
                assert(fin.children_at(k) == kept_children@[xk].paths@.map_values(|s: String| s@));
                assert(seq_has_key(corig, k));
                assert(seq_key_index(pre.children@, k) == seq_key_index(corig, k));
                assert(pre.children_at(k) == corig[seq_key_index(corig, k)].paths@.map_values(
                    |s: String| s@,
                ));
            }
            assert forall|i: int, j: int|
                0 <= i < fin.children@.len() && 0 <= j < fin.children@[i].paths@.len() implies
                fin.has_node(#[trigger] fin.children@[i].paths@[j]@) by {
                let k = fin.children@[i].key@;
                assert(seq_has_key(kept_children@, k)) by {
                    assert(kept_children@[i].key@ == k);
                }
                let xk = seq_key_index(kept_children@, k);
                if xk != i {
                    assert(kept_children@[xk].key@ == k);
                    assert(false);
                }
                let lst = kept_children@[i].paths@.map_values(|s: String| s@);
                let ck = seq_key_index(corig, k);
                let oldlst = corig[ck].paths@.map_values(|s: String| s@);
                let pred = outside_subtree(rootv);
                assert(lst == oldlst.filter(pred));
                assert(lst[j] == fin.children@[i].paths@[j]@);
                assert(pred(lst[j])) by {
                    oldlst.lemma_filter_pred(pred, j);
                }
                Self::lemma_filter_element_from(oldlst, pred, j);
                let j0 = choose|j0: int| 0 <= j0 < oldlst.len() && oldlst[j0] == oldlst.filter(pred)[j];
                assert(corig[ck].paths@[j0]@ == lst[j]);
                assert(pre.has_node(lst[j])) by {
                    assert(pre.children@[ck].paths@[j0]@ == lst[j]);
                }
                assert(fin.has_node(lst[j]));
            }
            assert forall|i: int, j1: int, j2: int|
                0 <= i < fin.children@.len() && 0 <= j1 < j2 < fin.children@[i].paths@.len()
                implies (#[trigger] fin.children@[i].paths@[j1]@) != (
            #[trigger] fin.children@[i].paths@[j2]@) by {
                let k = fin.children@[i].key@;
                assert(seq_has_key(kept_children@, k)) by {
                    assert(kept_children@[i].key@ == k);
                }
                let xk = seq_key_index(kept_children@, k);
                if xk != i {
                    assert(kept_children@[xk].key@ == k);
                    assert(false);
                }
                let lst = kept_children@[i].paths@.map_values(|s: String| s@);
                let ck = seq_key_index(corig, k);
                let oldlst = corig[ck].paths@.map_values(|s: String| s@);
                let pred = outside_subtree(rootv);
                assert(lst == oldlst.filter(pred));
                assert forall|a: int, b: int| 0 <= a < b < oldlst.len() implies oldlst[a]
                    != oldlst[b] by {
                    assert(oldlst[a] == pre.children@[ck].paths@[a]@);
                    assert(oldlst[b] == pre.children@[ck].paths@[b]@);
                }
                Self::lemma_filter_keeps_distinct(oldlst, pred);
                assert(lst[j1] != lst[j2]);
                assert(fin.children@[i].paths@[j1]@ == lst[j1]);
                assert(fin.children@[i].paths@[j2]@ == lst[j2]);
            }
        }
    }

    /// Apply one scan event; the result says whether it was terminal (the
    /// caller then stops the session). Node updates are upserted, progress
    /// replaces the scanning snapshot, warnings are recorded, and a terminal
    /// event closes the scan state.
    pub fn apply_event(&mut self, ev: ScanEvent) -> (terminal: bool)
        requires
            old(self).wf(),
        ensures
            final(self).wf(),
            terminal == ev.is_terminal(),
            (ev matches ScanEvent::NodeUpdated(n) ==> final(self).has_node(n.path@) && final(self).node_at(n.path@) == n),
            (ev matches ScanEvent::NodeUpdated(n) ==> forall|p: Seq<char>|
                p != n.path@ ==> (#[trigger] final(self).has_node(p)) == old(self).has_node(p)),
            (ev matches ScanEvent::Progress(p) ==> final(self).spec_scan_state()
                == ScanState::Scanning(p)),
            (ev matches ScanEvent::Complete(p) ==> final(self).spec_scan_state()
                == ScanState::Complete(p) && final(self).spec_active_scan_root() is None),
            (ev matches ScanEvent::Error(m) ==> (final(self).spec_scan_state()
                matches ScanState::Error(m2) && m2 == m)),
            (ev is Cancelled ==> final(self).spec_scan_state() is Cancelled),
            ev.is_terminal() ==> final(self).spec_active_scan_root() is None,
            (ev matches ScanEvent::Reset { root } ==> final(self).spec_active_scan_root()
                == Some(root) && (final(self).spec_scan_state() matches ScanState::Scanning(p)
                && p.is_zero())),
            (ev matches ScanEvent::Warning { path, message } ==> final(self).spec_warnings().len()
                == old(self).spec_warnings().len() + 1),
            final(self).spec_current_root() == old(self).spec_current_root(),
            final(self).spec_sort_mode() == old(self).spec_sort_mode(),
            final(self).spec_metric() == old(self).spec_metric(),
            final(self).spec_filter() == old(self).spec_filter(),
    {
        match ev {
            ScanEvent::Reset { root } => {
                self.active_scan_root = Some(root);
                self.scan_state = ScanState::Scanning(ScanProgress::default());
                false
            },
            ScanEvent::NodeUpdated(node) => {
                self.upsert_node(node);
                false
            },
            ScanEvent::Progress(p) => {
                self.scan_state = ScanState::Scanning(p);
                false
            },
            ScanEvent::Warning { path, message } => {
                let mut line = path;
                line.append(": ");
                line.append(message.as_str());
                self.warnings.push(line);
                false
            },
            ScanEvent::Complete(p) => {
                self.scan_state = ScanState::Complete(p);
                self.active_scan_root = None;
                true
            },
            ScanEvent::Error(m) => {
                self.scan_state = ScanState::Error(m);
                self.active_scan_root = None;
                true
            },
            ScanEvent::Cancelled => {
                self.scan_state = ScanState::Cancelled;
                self.active_scan_root = None;
                true
            },
        }
    }

    /// Prepare the store for a fresh scan of `root`: prune that subtree,
    /// clear the warnings, reset the selection and mark the scan as running.
    /// The caller stops any prior session first and spawns the new one.
    pub fn begin_scan(&mut self, root: &String)
        requires
            old(self).wf(),
        ensures
            final(self).wf(),
            forall|p: Seq<char>|
                #[trigger] final(self).has_node(p) <==> (old(self).has_node(p)
                    && !spec_in_subtree(p, root@)),
            final(self).spec_active_scan_root() == Some(*root),
            (final(self).spec_scan_state() matches ScanState::Scanning(p) && p.is_zero()),
            final(self).spec_selected_index() == 0,
            final(self).spec_scroll_offset() == 0,
            final(self).spec_warnings().len() == 0,
    {
        self.warnings = Vec::new();
        self.selected_index = 0;
        self.table_scroll_offset = 0;
        self.scan_state = ScanState::Scanning(ScanProgress::default());
        self.active_scan_root = Some(root.clone());
        self.prune_subtree(root);
    }

    /// The directory whose children are displayed.
    pub fn current_root(&self) -> (r: &String)
        ensures
            r == self.spec_current_root(),
    {
        &self.current_root
    }

    pub fn startup_root(&self) -> (r: &String)
        ensures
            r == self.spec_startup_root(),
    {
        &self.startup_root
    }

    pub fn scan_state(&self) -> (r: &ScanState)
        ensures
            r == self.spec_scan_state(),
    {
        &self.scan_state
    }

    pub fn active_scan_root(&self) -> (r: &Option<String>)
        ensures
            r == self.spec_active_scan_root(),
    {
        &self.active_scan_root
    }

    pub fn sort_mode(&self) -> (r: SortMode)
        ensures
            r == self.spec_sort_mode(),
    {
        self.sort_mode
    }

    pub fn metric(&self) -> (r: SizeMetric)
        ensures
            r == self.spec_metric(),
    {
        self.metric
    }

    pub fn filter(&self) -> (r: &String)
        ensures
            r == self.spec_filter(),
    {
        &self.filter
    }

    pub fn filter_mode(&self) -> (r: bool)
        ensures
            r == self.spec_filter_mode(),
    {
        self.filter_mode
    }

    pub fn selected_index(&self) -> (r: usize)
        ensures
            r == self.spec_selected_index(),
    {
        self.selected_index
    }

    pub fn scroll_offset(&self) -> (r: usize)
        ensures
            r == self.spec_scroll_offset(),
    {
        self.table_scroll_offset
    }

    /// The most recent warning, if any; it is the one surfaced in the UI.
    pub fn last_warning(&self) -> (r: Option<&String>)
        ensures
            match r {
                Some(w) => self.spec_warnings().len() > 0 && w == self.spec_warnings().last(),
                None => self.spec_warnings().len() == 0,
            },
    {
        let n = self.warnings.len();
        if n == 0 {
            None
        } else {
            Some(&self.warnings[n - 1])
        }
    }

    pub fn message(&self) -> (r: &Option<String>)
        ensures
            r == self.spec_message(),
    {
        &self.message
    }

    pub fn set_message(&mut self, message: Option<String>)
        requires
            old(self).wf(),
        ensures
            final(self).wf(),
            final(self).spec_message() == message,
            Self::same_core(*old(self), *final(self)),
            final(self).spec_sort_mode() == old(self).spec_sort_mode(),
            final(self).spec_metric() == old(self).spec_metric(),
            final(self).spec_filter() == old(self).spec_filter(),
            final(self).spec_filter_mode() == old(self).spec_filter_mode(),
            final(self).spec_selected_index() == old(self).spec_selected_index(),
            final(self).spec_scroll_offset() == old(self).spec_scroll_offset(),
    {
        self.message = message;
    }

    /// Switch the displayed metric, as the metric hotkey does.
    pub fn toggle_metric(&mut self)
        requires
            old(self).wf(),
        ensures
            final(self).wf(),
            final(self).spec_metric() == old(self).spec_metric().spec_toggle(),
            Self::same_core(*old(self), *final(self)),
            final(self).spec_sort_mode() == old(self).spec_sort_mode(),
            final(self).spec_filter() == old(self).spec_filter(),
            final(self).spec_filter_mode() == old(self).spec_filter_mode(),
            final(self).spec_selected_index() == old(self).spec_selected_index(),
            final(self).spec_scroll_offset() == old(self).spec_scroll_offset(),
            final(self).spec_message() == old(self).spec_message(),
    {
        self.metric = self.metric.toggle();
    }

    /// Step the sort order to the next mode, as the sort hotkey does.
    pub fn cycle_sort_mode(&mut self)
        requires
            old(self).wf(),
        ensures
            final(self).wf(),
            final(self).spec_sort_mode() == old(self).spec_sort_mode().spec_cycle(),
            Self::same_core(*old(self), *final(self)),
            final(self).spec_metric() == old(self).spec_metric(),
            final(self).spec_filter() == old(self).spec_filter(),
            final(self).spec_filter_mode() == old(self).spec_filter_mode(),
            final(self).spec_selected_index() == old(self).spec_selected_index(),
            final(self).spec_scroll_offset() == old(self).spec_scroll_offset(),
            final(self).spec_message() == old(self).spec_message(),
    {
        self.sort_mode = self.sort_mode.cycle();
    }

    pub fn set_filter_mode(&mut self, on: bool)
        requires
            old(self).wf(),
        ensures
            final(self).wf(),
            final(self).spec_filter_mode() == on,
            Self::same_core(*old(self), *final(self)),
            final(self).spec_sort_mode() == old(self).spec_sort_mode(),
            final(self).spec_metric() == old(self).spec_metric(),
            final(self).spec_filter() == old(self).spec_filter(),
            final(self).spec_selected_index() == old(self).spec_selected_index(),
            final(self).spec_scroll_offset() == old(self).spec_scroll_offset(),
            final(self).spec_message() == old(self).spec_message(),
    {
        self.filter_mode = on;
    }

    /// Append one character to the name filter.
    pub fn filter_push(&mut self, c: char)
        requires
            old(self).wf(),
        ensures
            final(self).wf(),
            final(self).spec_filter()@ == old(self).spec_filter()@.push(c),
            Self::same_core(*old(self), *final(self)),
            final(self).spec_selected_index() == old(self).spec_selected_index(),
    {
        crate::text::push_char(&mut self.filter, c);
    }

    /// Remove the last character of the name filter, if any.
    pub fn filter_pop(&mut self)
        requires
            old(self).wf(),
        ensures
            final(self).wf(),
            old(self).spec_filter()@.len() == 0 ==> final(self).spec_filter()@ == old(self).spec_filter()@,
            old(self).spec_filter()@.len() > 0 ==> final(self).spec_filter()@ == old(self).spec_filter()@.drop_last(),
            Self::same_core(*old(self), *final(self)),
    {
        self.filter = crate::text::drop_last_char(&self.filter);
    }

    /// Clear the name filter.
    pub fn clear_filter(&mut self)
        requires
            old(self).wf(),
        ensures
            final(self).wf(),
            final(self).spec_filter()@.len() == 0,
            Self::same_core(*old(self), *final(self)),
    {
        self.filter = String::new();
    }

    /// A child path passes the name filter when the filter is empty or its
    /// lowercased text occurs in the lowercased final component or full path.
    pub open spec fn spec_matches_filter(m: Seq<char>, filt: Seq<char>) -> bool {
        ||| filt.len() == 0
        ||| spec_contains(lower_of(spec_file_name(m)), lower_of(filt))
        ||| spec_contains(lower_of(m), lower_of(filt))
    }

    /// A recorded child is visible when its node still exists (it may have
    /// just been pruned) and it passes the name filter.
    pub open spec fn spec_visible_pred(self) -> spec_fn(Seq<char>) -> bool {
        |m: Seq<char>| self.has_node(m) && Self::spec_matches_filter(m, self.spec_filter()@)
    }

    /// The children of the display root that the query returns, before
    /// sorting.
    pub open spec fn spec_visible_paths(self) -> Seq<Seq<char>> {
        (if self.has_children_key(self.spec_current_root()@) {
            self.children_at(self.spec_current_root()@)
        } else {
            Seq::<Seq<char>>::empty()
        }).filter(self.spec_visible_pred())
    }

    /// The size a row sorts by: the chosen metric of its node, or zero when
    /// the node is gone.
    pub open spec fn spec_size_of(self, m: Seq<char>) -> u64 {
        if self.has_node(m) {
            self.node_at(m).spec_metric_bytes(self.spec_metric())
        } else {
            0
        }
    }

    /// The display order: by size (descending or ascending) with ties broken
    /// by path, or case-insensitively by name.
    pub open spec fn spec_path_le(self, a: Seq<char>, b: Seq<char>) -> bool {
        match self.spec_sort_mode() {
            SortMode::SizeDesc => self.spec_size_of(b) < self.spec_size_of(a) || (self.spec_size_of(
                a,
            ) == self.spec_size_of(b) && chars_le(a, b)),
            SortMode::SizeAsc => self.spec_size_of(a) < self.spec_size_of(b) || (self.spec_size_of(
                a,
            ) == self.spec_size_of(b) && chars_le(a, b)),
            SortMode::Name => if lower_of(spec_file_name(a)) == lower_of(spec_file_name(b)) {
                chars_le(a, b)
            } else {
                chars_le(lower_of(spec_file_name(a)), lower_of(spec_file_name(b)))
            },
        }
    }

    /// The display order relates every pair of paths one way or the other.
    pub proof fn lemma_path_le_total(self, a: Seq<char>, b: Seq<char>)
        ensures
            self.spec_path_le(a, b) || self.spec_path_le(b, a),
    {
        lemma_chars_le_total(a, b);
        lemma_chars_le_total(lower_of(spec_file_name(a)), lower_of(spec_file_name(b)));
    }

    /// The display order is transitive.
    pub proof fn lemma_path_le_trans(self, a: Seq<char>, b: Seq<char>, c: Seq<char>)
        requires
            self.spec_path_le(a, b),
            self.spec_path_le(b, c),
        ensures
            self.spec_path_le(a, c),
    {
        match self.spec_sort_mode() {
            SortMode::Name => {
                let la = lower_of(spec_file_name(a));
                let lb = lower_of(spec_file_name(b));
                let lc = lower_of(spec_file_name(c));
                if la == lb && lb == lc {
                    lemma_chars_le_transitive(a, b, c);
                } else if la == lb {
                } else if lb == lc {
                } else {
                    lemma_chars_le_transitive(la, lb, lc);
                    if la == lc {
                        crate::text::lemma_chars_le_antisymmetric(la, lb);
                    }
                }
            },
            _ => {
                if self.spec_size_of(a) == self.spec_size_of(b) && self.spec_size_of(b)
                    == self.spec_size_of(c) && chars_le(a, b) && chars_le(b, c) {
                    lemma_chars_le_transitive(a, b, c);
                }
            },
        }
    }

    /// The display order is antisymmetric: two paths ordered both ways are
    /// the same path.
    pub proof fn lemma_path_le_antisymmetric(self, a: Seq<char>, b: Seq<char>)
        requires
            self.spec_path_le(a, b),
            self.spec_path_le(b, a),
        ensures
            a == b,
    {
        match self.spec_sort_mode() {
            SortMode::Name => {
                let la = lower_of(spec_file_name(a));
                let lb = lower_of(spec_file_name(b));
                if la == lb {
                    crate::text::lemma_chars_le_antisymmetric(a, b);
                } else {
                    crate::text::lemma_chars_le_antisymmetric(la, lb);
                    assert(false);
                }
            },
            _ => {
                crate::text::lemma_chars_le_antisymmetric(a, b);
            },
        }
    }

    /// The visible children arranged in the display order: same contents as
    /// [`TreeStore::spec_visible_paths`], sorted by [`TreeStore::spec_path_le`].
    /// [`TreeStore::visible_node_paths`] returns such an arrangement, and
    /// [`TreeStore::lemma_display_order_unique`] shows there is only one.
    pub open spec fn spec_is_display_order(self, r: Seq<Seq<char>>) -> bool {
        &&& r.to_multiset() == self.spec_visible_paths().to_multiset()
        &&& forall|i: int, j: int|
            0 <= i < j < r.len() ==> self.spec_path_le(#[trigger] r[i], #[trigger] r[j])
    }

    /// Two sequences sorted in the display order with the same contents are
    /// the same sequence: the display order determines the arrangement.
    pub proof fn lemma_display_order_unique(self, a: Seq<Seq<char>>, b: Seq<Seq<char>>)
        requires
            a.to_multiset() == b.to_multiset(),
            forall|i: int, j: int|
                0 <= i < j < a.len() ==> self.spec_path_le(#[trigger] a[i], #[trigger] a[j]),
            forall|i: int, j: int|
                0 <= i < j < b.len() ==> self.spec_path_le(#[trigger] b[i], #[trigger] b[j]),
        ensures
            a == b,
        decreases a.len(),
    {
        broadcast use vstd::seq_lib::group_to_multiset_ensures;

        assert(a.to_multiset().len() == a.len());
        assert(b.to_multiset().len() == b.len());
        assert(a.len() == b.len());
        if a.len() == 0 {
            assert(a =~= b);
        } else {
            assert(a.to_multiset().count(a[0]) > 0);
            assert(b.contains(a[0]));
            assert(b.to_multiset().count(b[0]) > 0);
            assert(a.contains(b[0]));
            let ia = choose|i: int| 0 <= i < a.len() && a[i] == b[0];
            let ib = choose|i: int| 0 <= i < b.len() && b[i] == a[0];
            if ia > 0 {
                assert(self.spec_path_le(a[0], a[ia]));
            }
            if ib > 0 {
                assert(self.spec_path_le(b[0], b[ib]));
            }
            if ia > 0 && ib > 0 {
                self.lemma_path_le_antisymmetric(a[0], b[0]);
            }
            assert(a[0] == b[0]);
            let at = a.drop_first();
            let bt = b.drop_first();
            assert(at =~= a.remove(0));
            assert(bt =~= b.remove(0));
            assert(a.remove(0).to_multiset() =~= a.to_multiset().remove(a[0]));
            assert(b.remove(0).to_multiset() =~= b.to_multiset().remove(b[0]));
            assert(at.to_multiset() == bt.to_multiset());
            assert forall|i: int, j: int|
                0 <= i < j < at.len() implies self.spec_path_le(#[trigger] at[i], #[trigger] at[j]) by {
                assert(at[i] == a[i + 1] && at[j] == a[j + 1]);
            }
            assert forall|i: int, j: int|
                0 <= i < j < bt.len() implies self.spec_path_le(#[trigger] bt[i], #[trigger] bt[j]) by {
                assert(bt[i] == b[i + 1] && bt[j] == b[j + 1]);
            }
            self.lemma_display_order_unique(at, bt);
            assert forall|k: int| 0 <= k < a.len() implies a[k] == b[k] by {
                if k > 0 {
                    assert(a[k] == at[k - 1] && b[k] == bt[k - 1]);
                }
            }
            assert(a =~= b);
        }
    }

    fn size_of(&self, m: &String) -> (r: u64)
        requires
            self.wf(),
        ensures
            r == self.spec_size_of(m@),
    {
        match self.find_node(m) {
            Some(i) => {
                proof {
                    let j = self.node_index(m@);
                    if j != i {
                        assert(self.nodes@[j].path@ == m@);
                        assert(false);
                    }
                }
                self.nodes[i].metric_bytes(self.metric)
            },
            None => 0,
        }
    }

    /// The display order, decided on two concrete paths.
    fn path_le(&self, a: &String, b: &String) -> (r: bool)
        requires
            self.wf(),
        ensures
            r == self.spec_path_le(a@, b@),
    {
        match self.sort_mode {
            SortMode::SizeDesc => {
                let sa = self.size_of(a);
                let sb = self.size_of(b);
                if sb < sa {
                    true
                } else if sa == sb {
                    str_le(a, b)
                } else {
                    false
                }
            },
            SortMode::SizeAsc => {
                let sa = self.size_of(a);
                let sb = self.size_of(b);
                if sa < sb {
                    true
                } else if sa == sb {
                    str_le(a, b)
                } else {
                    false
                }
            },
            SortMode::Name => {
                let na = file_name_of(a);
                let nb = file_name_of(b);
                let la = lowercase(na.as_str());
                let lb = lowercase(nb.as_str());
                if la.eq(&lb) {
                    str_le(a, b)
                } else {
                    str_le(&la, &lb)
                }
            },
        }
    }

    /// Whether one recorded child is visible right now.
    fn matches_visible(&self, p: &String) -> (r: bool)
        requires
            self.wf(),
        ensures
            r == self.spec_visible_pred()(p@),
    {
        let present = match self.find_node(p) {
            Some(_) => true,
            None => false,
        };
        if !present {
            return false;
        }
        if self.filter.as_str().unicode_len() == 0 {
            return true;
        }
        let filt = lowercase(self.filter.as_str());
        let name = file_name_of(p);
        let lname = lowercase(name.as_str());
        if contains_str(lname.as_str(), filt.as_str()) {
            return true;
        }
        let lp = lowercase(p.as_str());
        contains_str(lp.as_str(), filt.as_str())
    }

    /// The recorded children of the display root, in first-seen order.
    #[verifier::loop_isolation(false)]
    fn collect_base(&self) -> (r: Vec<String>)
        requires
            self.wf(),
        ensures
            r@.map_values(|s: String| s@) == (if self.has_children_key(self.spec_current_root()@) {
                self.children_at(self.spec_current_root()@)
            } else {
                Seq::<Seq<char>>::empty()
            }),
    {
        let mut base: Vec<String> = Vec::new();
        match self.find_children(&self.current_root) {
            Some(ci) => {
                proof {
                    let j = self.children_index(self.current_root@);
                    if j != ci {
                        assert(self.children@[j].key@ == self.current_root@);
                        assert(false);
                    }
                }
                let n = self.children[ci].paths.len();
                let mut k: usize = 0;
                while k < n
                    invariant
                        k <= n,
                        base@.map_values(|s: String| s@) == self.children_at(
                            self.spec_current_root()@,
                        ).subrange(0, k as int),
                    decreases n - k,
                {
                    let ghost bpre = base@;
                    base.push(self.children[ci].paths[k].clone());
                    proof {
                        assert(base@.map_values(|s: String| s@) =~= bpre.map_values(
                            |s: String| s@,
                        ).push(self.children@[ci as int].paths@[k as int]@));
                        assert(self.children_at(self.spec_current_root()@).subrange(0, k + 1)
                            =~= self.children_at(self.spec_current_root()@).subrange(
                            0,
                            k as int,
                        ).push(self.children_at(self.spec_current_root()@)[k as int]));
                    }
                    k += 1;
                }
                proof {
                    assert(self.children_at(self.spec_current_root()@).subrange(
                        0,
                        n as int,
                    ) =~= self.children_at(self.spec_current_root()@));
                }
            },
            None => {
                proof {
                    assert(base@.map_values(|s: String| s@) =~= Seq::<Seq<char>>::empty());
                }
            },
        }
        base
    }

    /// Keep the children that are visible under the current filter.
    #[verifier::loop_isolation(false)]
    fn filter_visible(&self, base: Vec<String>) -> (r: Vec<String>)
        requires
            self.wf(),
        ensures
            r@.map_values(|s: String| s@) == base@.map_values(|s: String| s@).filter(
                self.spec_visible_pred(),
            ),
    {
        let ghost basev = base@.map_values(|s: String| s@);
        let mut base = base;
        let mut kept: Vec<String> = Vec::new();
        proof {
            reveal_with_fuel(Seq::filter, 2);
            assert(kept@.map_values(|s: String| s@) =~= basev.subrange(0, 0).filter(
                self.spec_visible_pred(),
            ));
        }
        while base.len() > 0
            invariant
                base@.len() <= basev.len(),
                base@.map_values(|s: String| s@) == basev.skip(basev.len() - base@.len()),
                kept@.map_values(|s: String| s@) == basev.subrange(
                    0,
                    basev.len() - base@.len(),
                ).filter(self.spec_visible_pred()),
            decreases base@.len(),
        {
            let ghost pj = basev.len() - base@.len();
            let ghost kp = kept@;
            let ghost b0 = base@;
            let ghost bm = base@.map_values(|s: String| s@);
            let p = base.remove(0);
            proof {
                assert(bm == basev.skip(pj));
                assert(bm[0] == b0.map_values(|s: String| s@)[0]);
                assert(b0.map_values(|s: String| s@)[0] == b0[0]@);
                assert(p == b0[0]);
                assert(p@ == bm[0]);
                assert(bm[0] == basev[pj]) by {
                    assert(bm[0] == basev.skip(pj)[0]);
                    assert(basev.skip(pj)[0] == basev[pj + 0]);
                }
                assert(base@ =~= b0.remove(0));
                assert(base@.map_values(|s: String| s@) =~= bm.skip(1));
                assert(bm.skip(1) =~= basev.skip(pj + 1));
                assert(basev.subrange(0, pj + 1).drop_last() =~= basev.subrange(0, pj));
                assert(basev.subrange(0, pj + 1).last() == basev[pj]);
            }
            if self.matches_visible(&p) {
                kept.push(p);
                proof {
                    reveal_with_fuel(Seq::filter, 2);
                    assert(kept@.map_values(|s: String| s@) =~= kp.map_values(|s: String| s@).push(
                        basev[pj],
                    ));
                }
            } else {
                proof {
                    reveal_with_fuel(Seq::filter, 2);
                }
            }
        }
        proof {
            assert(basev.subrange(0, basev.len() as int) =~= basev);
        }
        kept
    }

    /// Sort paths into the display order by insertion.
    #[verifier::loop_isolation(false)]
    fn sort_paths(&self, v: Vec<String>) -> (r: Vec<String>)
        requires
            self.wf(),
        ensures
            r@.map_values(|s: String| s@).to_multiset() == v@.map_values(
                |s: String| s@,
            ).to_multiset(),
            forall|i: int, j: int|
                0 <= i < j < r@.len() ==> self.spec_path_le(#[trigger] r@[i]@, #[trigger] r@[j]@),
    {
        broadcast use vstd::seq_lib::group_to_multiset_ensures;

        let ghost target = v@.map_values(|s: String| s@).to_multiset();
        let mut kept = v;
        let mut out: Vec<String> = Vec::new();
        proof {
            assert(out@.map_values(|s: String| s@) =~= Seq::<Seq<char>>::empty());
            vstd::seq_lib::lemma_multiset_commutative(
                out@.map_values(|s: String| s@),
                kept@.map_values(|s: String| s@),
            );
            assert(out@.map_values(|s: String| s@) + kept@.map_values(|s: String| s@)
                =~= kept@.map_values(|s: String| s@));
        }
        while kept.len() > 0
            invariant
                out@.map_values(|s: String| s@).to_multiset().add(
                    kept@.map_values(|s: String| s@).to_multiset(),
                ) == target,
                forall|i: int, j: int|
                    0 <= i < j < out@.len() ==> self.spec_path_le(
                        #[trigger] out@[i]@,
                        #[trigger] out@[j]@,
                    ),
            decreases kept@.len(),
        {
            let ghost kpre = kept@;
            let ghost opre = out@;
            let x = kept.remove(0);
            proof {
                assert(kpre.map_values(|s: String| s@)[0] == x@);
                assert(kept@.map_values(|s: String| s@) =~= kpre.map_values(|s: String| s@).skip(
                    1,
                ));
                assert(kpre.map_values(|s: String| s@) =~= kept@.map_values(|s: String| s@).insert(
                    0,
                    x@,
                ));
                vstd::seq_lib::to_multiset_insert(kept@.map_values(|s: String| s@), 0, x@);
            }
            let mut pos: usize = 0;
            while pos < out.len() && self.path_le(&out[pos], &x)
                invariant
                    pos <= out@.len(),
                    forall|k: int| 0 <= k < pos ==> self.spec_path_le(#[trigger] out@[k]@, x@),
                decreases out@.len() - pos,
            {
                pos += 1;
            }
            proof {
                if pos < out@.len() {
                    self.lemma_path_le_total(out@[pos as int]@, x@);
                }
            }
            out.insert(pos, x);
            proof {
                assert(out@.map_values(|s: String| s@) =~= opre.map_values(|s: String| s@).insert(
                    pos as int,
                    x@,
                ));
                vstd::seq_lib::to_multiset_insert(opre.map_values(|s: String| s@), pos as int, x@);
                assert forall|i: int, j: int|
                    0 <= i < j < out@.len() implies self.spec_path_le(
                    #[trigger] out@[i]@,
                    #[trigger] out@[j]@,
                ) by {
                    let pi = pos as int;
                    if j < pi {
                        assert(out@[i] == opre[i] && out@[j] == opre[j]);
                    } else if i < pi && j == pi {
                        assert(out@[i] == opre[i] && out@[j]@ == x@);
                    } else if i < pi && j > pi {
                        assert(out@[i] == opre[i] && out@[j] == opre[j - 1]);
                        assert(self.spec_path_le(opre[i]@, opre[j - 1]@));
                    } else if i == pi && j > pi {
                        assert(out@[i]@ == x@ && out@[j] == opre[j - 1]);
                        assert(self.spec_path_le(x@, opre[pi]@));
                        if j - 1 > pi {
                            assert(self.spec_path_le(opre[pi]@, opre[j - 1]@));
                            self.lemma_path_le_trans(x@, opre[pi]@, opre[j - 1]@);
                        }
                    } else {
                        assert(out@[i] == opre[i - 1] && out@[j] == opre[j - 1]);
                        assert(self.spec_path_le(opre[i - 1]@, opre[j - 1]@));
                    }
                }
            }
        }
        proof {
            assert(kept@.map_values(|s: String| s@) =~= Seq::<Seq<char>>::empty());
            assert(out@.map_values(|s: String| s@).to_multiset() =~= target);
        }
        out
    }

    /// The visible list is decided by the maps, the display root and the
    /// filter alone.
    proof fn lemma_same_visible(a: TreeStore, b: TreeStore)
        requires
            a.nodes@ == b.nodes@,
            a.children@ == b.children@,
            a.current_root == b.current_root,
            a.filter == b.filter,
        ensures
            a.spec_visible_paths() == b.spec_visible_paths(),
    {
        assert(a.spec_visible_pred() =~~= b.spec_visible_pred());
    }

    /// Every path in the visible list satisfies the visibility predicate: it
    /// has a stored node and passes the name filter.
    pub proof fn lemma_visible_paths_pass_the_filter(self, j: int)
        requires
            0 <= j < self.spec_visible_paths().len(),
        ensures
            self.spec_visible_pred()(self.spec_visible_paths()[j]),
    {
        let base = if self.has_children_key(self.spec_current_root()@) {
            self.children_at(self.spec_current_root()@)
        } else {
            Seq::<Seq<char>>::empty()
        };
        base.lemma_filter_pred(self.spec_visible_pred(), j);
    }

    /// The visible children of the display root: recorded children, filtered
    /// by the name filter, dropped when their node was pruned meanwhile, and
    /// sorted in the display order.
    pub fn visible_node_paths(&self) -> (r: Vec<String>)
        requires
            self.wf(),
        ensures
            r@.map_values(|s: String| s@).to_multiset() == self.spec_visible_paths().to_multiset(),
            forall|i: int, j: int|
                0 <= i < j < r@.len() ==> self.spec_path_le(#[trigger] r@[i]@, #[trigger] r@[j]@),
            forall|i: int, j: int| 0 <= i < j < r@.len() ==> (#[trigger] r@[i]@) != (#[trigger] r@[j]@),
    {
        broadcast use vstd::seq_lib::group_to_multiset_ensures;

        let base = self.collect_base();
        let kept = self.filter_visible(base);
        let out = self.sort_paths(kept);
        proof {
            let cr = self.spec_current_root()@;
            let basev = if self.has_children_key(cr) {
                self.children_at(cr)
            } else {
                Seq::<Seq<char>>::empty()
            };
            assert forall|a: int, b: int| 0 <= a < b < basev.len() implies basev[a] != basev[b] by {
                if self.has_children_key(cr) {
                    let ci = self.children_index(cr);
                    assert(basev[a] == self.children@[ci].paths@[a]@);
                    assert(basev[b] == self.children@[ci].paths@[b]@);
                }
            }
            Self::lemma_filter_keeps_distinct(basev, self.spec_visible_pred());
            let filtered = self.spec_visible_paths();
            assert(filtered.no_duplicates()) by {
                assert forall|a: int, b: int|
                    0 <= a < filtered.len() && 0 <= b < filtered.len() && a != b implies filtered[a]
                    != filtered[b] by {
                    if a < b {
                    } else {
                        assert(filtered[b] != filtered[a]);
                    }
                }
            }
            filtered.lemma_multiset_has_no_duplicates();
            let ov = out@.map_values(|s: String| s@);
            assert(ov.no_duplicates()) by {
                assert forall|x: Seq<char>| #[trigger] ov.to_multiset().count(x) <= 1 by {
                    assert(ov.to_multiset().count(x) == filtered.to_multiset().count(x));
                }
                ov.lemma_multiset_has_no_duplicates_conv();
            }
            assert forall|i: int, j: int| 0 <= i < j < out@.len() implies (#[trigger] out@[i]@)
                != (#[trigger] out@[j]@) by {
                assert(ov[i] == out@[i]@ && ov[j] == out@[j]@);
            }
        }
        out
    }

    /// Clamp the selection into the visible list and keep it on screen, as
    /// after any structural change.
    pub fn ensure_selection_in_bounds(&mut self, visible_rows: usize)
        requires
            old(self).wf(),
        ensures
            final(self).wf(),
            Self::same_core(*old(self), *final(self)),
            final(self).spec_sort_mode() == old(self).spec_sort_mode(),
            final(self).spec_metric() == old(self).spec_metric(),
            final(self).spec_filter() == old(self).spec_filter(),
            final(self).spec_filter_mode() == old(self).spec_filter_mode(),
            final(self).spec_message() == old(self).spec_message(),
            final(self).spec_visible_paths() == old(self).spec_visible_paths(),
            old(self).spec_visible_paths().len() == 0 ==> final(self).spec_selected_index() == 0
                && final(self).spec_scroll_offset() == 0,
            old(self).spec_visible_paths().len() > 0 ==> final(self).spec_selected_index() < old(
                self,
            ).spec_visible_paths().len() && final(self).spec_selected_index() <= old(self).spec_selected_index(),
            (old(self).spec_visible_paths().len() > 0 && old(self).spec_selected_index() < old(
                self,
            ).spec_visible_paths().len()) ==> final(self).spec_selected_index() == old(self).spec_selected_index(),
            old(self).spec_visible_paths().len() > 0 ==> final(self).spec_scroll_offset() as int
                == spec_scroll_offset_calc(
                old(self).spec_scroll_offset() as int,
                final(self).spec_selected_index() as int,
                old(self).spec_visible_paths().len() as int,
                visible_rows as int,
            ),
    {
        broadcast use vstd::seq_lib::group_to_multiset_ensures;

        let ghost pre_state = *self;
        let paths = self.visible_node_paths();
        let len = paths.len();
        proof {
            assert(paths@.map_values(|s: String| s@).to_multiset().len() == paths@.map_values(
                |s: String| s@,
            ).len());
            assert(self.spec_visible_paths().to_multiset().len()
                == self.spec_visible_paths().len());
            assert(paths@.map_values(|s: String| s@).len() == self.spec_visible_paths().len());
        }
        if len == 0 {
            self.selected_index = 0;
            self.table_scroll_offset = 0;
        } else {
            if self.selected_index >= len {
                self.selected_index = len - 1;
            }
            self.table_scroll_offset = compute_scroll_offset(
                self.table_scroll_offset,
                self.selected_index,
                len,
                visible_rows,
            );
        }
        proof {
            Self::lemma_same_visible(pre_state, *self);
        }
    }

    /// Move the selection by `delta` rows, clamped to the visible list, and
    /// scroll to keep it on screen.
    pub fn move_selection(&mut self, delta: i64, visible_rows: usize)
        requires
            old(self).wf(),
        ensures
            final(self).wf(),
            Self::same_core(*old(self), *final(self)),
            final(self).spec_sort_mode() == old(self).spec_sort_mode(),
            final(self).spec_metric() == old(self).spec_metric(),
            final(self).spec_filter() == old(self).spec_filter(),
            old(self).spec_visible_paths().len() == 0 ==> final(self).spec_selected_index() == 0
                && final(self).spec_scroll_offset() == 0,
            old(self).spec_visible_paths().len() > 0 ==> final(self).spec_selected_index() as int
                == spec_clamp_index(
                old(self).spec_selected_index() as int + delta as int,
                old(self).spec_visible_paths().len() as int,
            ),
    {
        broadcast use vstd::seq_lib::group_to_multiset_ensures;

        let paths = self.visible_node_paths();
        let len = paths.len();
        proof {
            assert(paths@.map_values(|s: String| s@).to_multiset().len() == paths@.map_values(
                |s: String| s@,
            ).len());
            assert(self.spec_visible_paths().to_multiset().len()
                == self.spec_visible_paths().len());
            assert(paths@.map_values(|s: String| s@).len() == self.spec_visible_paths().len());
        }
        if len == 0 {
            self.selected_index = 0;
            self.table_scroll_offset = 0;
            return;
        }
        let cur: i128 = self.selected_index as i128;
        let d: i128 = delta as i128;
        let max: i128 = (len - 1) as i128;
        let next: i128 = if cur + d < 0 {
            0
        } else if cur + d > max {
            max
        } else {
            cur + d
        };
        self.selected_index = next as usize;
        self.table_scroll_offset = compute_scroll_offset(
            self.table_scroll_offset,
            self.selected_index,
            len,
            visible_rows,
        );
    }

    /// The stored summary for a path, if present.
    pub fn get_node(&self, path: &String) -> (r: Option<&NodeSummary>)
        requires
            self.wf(),
        ensures
            match r {
                Some(n) => self.has_node(path@) && *n == self.node_at(path@) && n.path@ == path@,
                None => !self.has_node(path@),
            },
    {
        match self.find_node(path) {
            Some(i) => {
                proof {
                    let j = self.node_index(path@);
                    if j != i {
                        assert(self.nodes@[j].path@ == path@);
                        assert(false);
                    }
                }
                Some(&self.nodes[i])
            },
            None => None,
        }
    }

    /// The recorded immediate children of a parent path, in first-seen
    /// order; empty when none were recorded.
    pub fn children_of(&self, key: &String) -> (r: Vec<String>)
        requires
            self.wf(),
        ensures
            self.has_children_key(key@) ==> r@.map_values(|s: String| s@) == self.children_at(
                key@,
            ),
            !self.has_children_key(key@) ==> r@.len() == 0,
    {
        let mut out: Vec<String> = Vec::new();
        match self.find_children(key) {
            Some(ci) => {
                proof {
                    let j = self.children_index(key@);
                    if j != ci {
                        assert(self.children@[j].key@ == key@);
                        assert(false);
                    }
                }
                let n = self.children[ci].paths.len();
                let mut k: usize = 0;
                while k < n
                    invariant
                        self.wf(),
                        ci < self.children@.len(),
                        n == self.children@[ci as int].paths@.len(),
                        ci as int == self.children_index(key@),
                        self.has_children_key(key@),
                        k <= n,
                        out@.map_values(|s: String| s@) == self.children_at(key@).subrange(
                            0,
                            k as int,
                        ),
                    decreases n - k,
                {
                    let ghost opre = out@;
                    out.push(self.children[ci].paths[k].clone());
                    proof {
                        assert(out@.map_values(|s: String| s@) =~= opre.map_values(
                            |s: String| s@,
                        ).push(self.children@[ci as int].paths@[k as int]@));
                        assert(self.children_at(key@).subrange(0, k + 1) =~= self.children_at(
                            key@,
                        ).subrange(0, k as int).push(self.children_at(key@)[k as int]));
                    }
                    k += 1;
                }
                proof {
                    assert(self.children_at(key@).subrange(0, n as int) =~= self.children_at(
                        key@,
                    ));
                }
            },
            None => {},
        }
        out
    }

    /// The summary of the currently selected row: present exactly when the
    /// selection index lands inside the visible list.
    pub fn selected_node(&self) -> (r: Option<&NodeSummary>)
        requires
            self.wf(),
        ensures
            (r is Some) == (self.spec_selected_index() < self.spec_visible_paths().len()),
            match r {
                Some(n) => self.has_node(n.path@) && *n == self.node_at(n.path@)
                    && self.spec_visible_paths().contains(n.path@),
                None => true,
            },
    {
        broadcast use vstd::seq_lib::group_to_multiset_ensures;

        let paths = self.visible_node_paths();
        proof {
            assert(paths@.map_values(|s: String| s@).to_multiset().len() == paths@.map_values(
                |s: String| s@,
            ).len());
            assert(self.spec_visible_paths().to_multiset().len()
                == self.spec_visible_paths().len());
        }
        if self.selected_index >= paths.len() {
            return None;
        }
        proof {
            let pv = paths@.map_values(|s: String| s@);
            let sel = self.spec_selected_index() as int;
            assert(pv[sel] == paths@[sel]@);
            assert(pv.contains(pv[sel]));
            assert(pv.to_multiset().contains(pv[sel]));
            assert(self.spec_visible_paths().to_multiset().contains(pv[sel]));
            assert(self.spec_visible_paths().contains(pv[sel]));
            let pvi = pv[sel];
            let j = choose|j: int|
                0 <= j < self.spec_visible_paths().len() && self.spec_visible_paths()[j] == pvi;
            Self::lemma_visible_paths_pass_the_filter(*self, j);
            assert(self.has_node(paths@[sel]@));
        }
        match self.find_node(&paths[self.selected_index]) {
            Some(i) => {
                proof {
                    let p = self.nodes@[i as int].path@;
                    let j = self.node_index(p);
                    if j != i {
                        assert(self.nodes@[j].path@ == p);
                        assert(false);
                    }
                }
                Some(&self.nodes[i])
            },
            None => {
                proof {
                    assert(false);
                }
                vstd::pervasive::unreached()
            },
        }
    }

    /// Open the selected directory (or symlinked directory) as the new
    /// display root: when the row at the selection index of the display
    /// order is a directory or a symlink, its path becomes the display root
    /// and the selection restarts at the top (then re-clamped into the new
    /// root's visible list); any other selection leaves the store unchanged.
    pub fn drill_into_selection(&mut self, visible_rows: usize)
        requires
            old(self).wf(),
        ensures
            final(self).wf(),
            final(self).spec_startup_root() == old(self).spec_startup_root(),
            forall|ord: Seq<Seq<char>>|
                #[trigger] old(self).spec_is_display_order(ord) ==> ({
                    let sel = old(self).spec_selected_index() as int;
                    if sel < ord.len() && (old(self).node_at(ord[sel]).kind is Dir
                        || old(self).node_at(ord[sel]).kind is Symlink) {
                        &&& final(self).spec_current_root()@ == ord[sel]
                        &&& final(self).spec_selected_index() == 0
                        &&& final(self).spec_sort_mode() == old(self).spec_sort_mode()
                        &&& final(self).spec_metric() == old(self).spec_metric()
                        &&& final(self).spec_filter() == old(self).spec_filter()
                        &&& final(self).spec_filter_mode() == old(self).spec_filter_mode()
                        &&& final(self).spec_message() == old(self).spec_message()
                    } else {
                        *final(self) == *old(self)
                    }
                }),
    {
        broadcast use vstd::seq_lib::group_to_multiset_ensures;

        let paths = self.visible_node_paths();
        let ghost pv = paths@.map_values(|s: String| s@);
        proof {
            assert forall|i: int, j: int|
                0 <= i < j < pv.len() implies self.spec_path_le(#[trigger] pv[i], #[trigger] pv[j]) by {
                assert(pv[i] == paths@[i]@ && pv[j] == paths@[j]@);
            }
            assert(self.spec_is_display_order(pv));
            assert forall|ord: Seq<Seq<char>>|
                #[trigger] self.spec_is_display_order(ord) implies ord == pv by {
                self.lemma_display_order_unique(ord, pv);
            }
            assert(pv.to_multiset().len() == pv.len());
            assert(self.spec_visible_paths().to_multiset().len()
                == self.spec_visible_paths().len());
        }
        if self.selected_index >= paths.len() {
            return;
        }
        proof {
            let sel = self.spec_selected_index() as int;
            assert(pv[sel] == paths@[sel]@);
            assert(pv.contains(pv[sel]));
            assert(pv.to_multiset().contains(pv[sel]));
            assert(self.spec_visible_paths().to_multiset().contains(pv[sel]));
            assert(self.spec_visible_paths().contains(pv[sel]));
            let pvs = pv[sel];
            let j = choose|j: int|
                0 <= j < self.spec_visible_paths().len() && self.spec_visible_paths()[j] == pvs;
            Self::lemma_visible_paths_pass_the_filter(*self, j);
            assert(self.has_node(paths@[sel]@));
        }
        let selected = &paths[self.selected_index];
        let is_dir_like = match self.get_node(selected) {
            Some(node) => {
                match node.kind {
                    FsEntryKind::Dir | FsEntryKind::Symlink => true,
                    _ => false,
                }
            },
            None => false,
        };
        if is_dir_like {
            self.current_root = paths[self.selected_index].clone();
            self.selected_index = 0;
            self.ensure_selection_in_bounds(visible_rows);
        }
    }

    /// Step the display root to its parent directory, never above the
    /// startup root: at the startup root nothing changes; elsewhere the
    /// parent path becomes the display root and the selection restarts.
    pub fn navigate_to_parent(&mut self, visible_rows: usize)
        requires
            old(self).wf(),
        ensures
            final(self).wf(),
            old(self).spec_current_root()@ == old(self).spec_startup_root()@ ==> *final(self)
                == *old(self),
            old(self).spec_current_root()@ != old(self).spec_startup_root()@ ==> (match crate::text::spec_parent(old(self).spec_current_root()@) {
                Some(pp) => final(self).spec_current_root()@ == pp,
                None => *final(self) == *old(self),
            }),
            final(self).spec_startup_root() == old(self).spec_startup_root(),
    {
        if self.current_root.eq(&self.startup_root) {
            return;
        }
        match crate::text::parent_of(&self.current_root) {
            Some(parent) => {
                self.current_root = parent;
                self.selected_index = 0;
                self.ensure_selection_in_bounds(visible_rows);
            },
            None => {},
        }
    }

    /// Drain up to [`MAX_EVENTS_PER_TICK`] queued events without blocking,
    /// then clamp the selection. The result says whether a terminal event
    /// arrived, in which case the caller stops the session.
    pub fn drain_scan_events(
        &mut self,
        rx: &crossbeam_channel::Receiver<ScanEvent>,
        visible_rows: usize,
    ) -> (stopped: bool)
        requires
            old(self).wf(),
        ensures
            final(self).wf(),
            stopped ==> (final(self).spec_active_scan_root() is None && (final(self).spec_scan_state() is Complete || final(self).spec_scan_state() is Error || final(self).spec_scan_state() is Cancelled)),
            final(self).spec_visible_paths().len() == 0 ==> final(self).spec_selected_index() == 0
                && final(self).spec_scroll_offset() == 0,
            final(self).spec_visible_paths().len() > 0 ==> final(self).spec_selected_index()
                < final(self).spec_visible_paths().len(),
    {
        let mut stopped = false;
        let mut processed: usize = 0;
        while processed < MAX_EVENTS_PER_TICK && !stopped
            invariant
                self.wf(),
                stopped ==> (self.spec_active_scan_root() is None && (self.spec_scan_state() is Complete || self.spec_scan_state() is Error || self.spec_scan_state() is Cancelled)),
            decreases MAX_EVENTS_PER_TICK - processed, (if stopped { 0int } else { 1int }),
        {
            match try_recv_event(rx) {
                RecvAttempt::Received(ev) => {
                    stopped = self.apply_event(ev);
                    processed += 1;
                },
                RecvAttempt::Empty => {
                    break;
                },
                RecvAttempt::Disconnected => {
                    break;
                },
            }
        }
        self.ensure_selection_in_bounds(visible_rows);
        stopped
    }

    /// Adding a node cannot break closedness of untouched children lists.
    proof fn lemma_children_closed_grows(self, pre: TreeStore)
        requires
            pre.children_closed(),
            self.children@ == pre.children@,
            forall|p: Seq<char>| pre.has_node(p) ==> #[trigger] self.has_node(p),
        ensures
            self.children_closed(),
    {
        assert forall|i: int, j: int|
            0 <= i < self.children@.len() && 0 <= j < self.children@[i].paths@.len() implies
            self.has_node(#[trigger] self.children@[i].paths@[j]@) by {
            assert(pre.has_node(pre.children@[i].paths@[j]@));
        }
    }
}

} // verus!
