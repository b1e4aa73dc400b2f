//! Tests of the consumer-side tree store: upserts, pruning, the visible
//! query, selection handling and event draining.

use crossbeam_channel::bounded;
use storagescope::model::{FsEntryKind, NodeSummary, ScanEvent, ScanProgress, SizeMetric, SortMode};
use storagescope::store::{ScanState, TreeStore};
use storagescope::view::{build_view_model, DialogStateView, FrameInputs};

fn node(path: &str, kind: FsEntryKind, apparent: u64, allocated: u64) -> NodeSummary {
    NodeSummary {
        path: path.to_string(),
        kind,
        apparent_bytes: apparent,
        allocated_bytes: allocated,
        children_count: 0,
        is_complete: true,
        last_updated: 0,
    }
}

fn store_with_tree() -> TreeStore {
    let mut store = TreeStore::new("/r".to_string(), SizeMetric::Apparent);
    store.upsert_node(node("/r", FsEntryKind::Dir, 4096, 4096));
    store.upsert_node(node("/r/a", FsEntryKind::Dir, 100, 100));
    store.upsert_node(node("/r/a/x.txt", FsEntryKind::File, 10, 10));
    store.upsert_node(node("/r/a/y.txt", FsEntryKind::File, 20, 20));
    store.upsert_node(node("/r/b.txt", FsEntryKind::File, 300, 300));
    store.upsert_node(node("/r/c.txt", FsEntryKind::File, 5, 5));
    store
}

#[test]
fn children_lists_keep_first_seen_order() {
    let store = store_with_tree();
    let children = store.children_of(&"/r".to_string());
    assert_eq!(children, vec!["/r/a", "/r/b.txt", "/r/c.txt"]);
    let nested = store.children_of(&"/r/a".to_string());
    assert_eq!(nested, vec!["/r/a/x.txt", "/r/a/y.txt"]);
}

#[test]
fn upserting_again_updates_in_place_without_reordering() {
    let mut store = store_with_tree();
    store.upsert_node(node("/r/b.txt", FsEntryKind::File, 999, 999));
    let children = store.children_of(&"/r".to_string());
    assert_eq!(children, vec!["/r/a", "/r/b.txt", "/r/c.txt"]);
    let updated = store.get_node(&"/r/b.txt".to_string()).expect("node");
    assert_eq!(updated.apparent_bytes, 999);
}

#[test]
fn pruning_removes_the_subtree_everywhere() {
    let mut store = store_with_tree();
    store.prune_subtree(&"/r/a".to_string());

    assert!(store.get_node(&"/r/a".to_string()).is_none());
    assert!(store.get_node(&"/r/a/x.txt".to_string()).is_none());
    assert!(store.get_node(&"/r/a/y.txt".to_string()).is_none());
    assert!(store.get_node(&"/r".to_string()).is_some());
    assert!(store.get_node(&"/r/b.txt".to_string()).is_some());

    let children = store.children_of(&"/r".to_string());
    assert_eq!(children, vec!["/r/b.txt", "/r/c.txt"]);
    assert!(store.children_of(&"/r/a".to_string()).is_empty());
}

#[test]
fn pruning_does_not_touch_prefix_siblings() {
    let mut store = TreeStore::new("/r".to_string(), SizeMetric::Apparent);
    store.upsert_node(node("/r", FsEntryKind::Dir, 0, 0));
    store.upsert_node(node("/r/ab", FsEntryKind::File, 1, 1));
    store.upsert_node(node("/r/abc", FsEntryKind::File, 2, 2));
    store.prune_subtree(&"/r/ab".to_string());
    assert!(store.get_node(&"/r/ab".to_string()).is_none());
    assert!(store.get_node(&"/r/abc".to_string()).is_some());
}

#[test]
fn query_sorts_by_size_descending_with_path_tiebreak() {
    let store = store_with_tree();
    let visible = store.visible_node_paths();
    assert_eq!(visible, vec!["/r/b.txt", "/r/a", "/r/c.txt"]);
}

#[test]
fn query_sort_modes_cycle_through_orders() {
    let mut store = store_with_tree();
    store.cycle_sort_mode();
    assert_eq!(store.sort_mode(), SortMode::SizeAsc);
    let ascending = store.visible_node_paths();
    assert_eq!(ascending, vec!["/r/c.txt", "/r/a", "/r/b.txt"]);
    store.cycle_sort_mode();
    assert_eq!(store.sort_mode(), SortMode::Name);
    let by_name = store.visible_node_paths();
    assert_eq!(by_name, vec!["/r/a", "/r/b.txt", "/r/c.txt"]);
}

#[test]
fn query_filters_case_insensitively() {
    let mut store = store_with_tree();
    store.upsert_node(node("/r/Budget.TXT", FsEntryKind::File, 7, 7));
    store.filter_push('b');
    store.filter_push('u');
    let visible = store.visible_node_paths();
    assert_eq!(visible, vec!["/r/Budget.TXT"]);
    store.filter_pop();
    store.filter_pop();
    store.filter_push('t');
    store.filter_push('x');
    store.filter_push('t');
    let visible = store.visible_node_paths();
    assert_eq!(
        visible,
        vec!["/r/b.txt", "/r/Budget.TXT", "/r/c.txt"]
    );
}

#[test]
fn query_drops_paths_whose_nodes_were_pruned() {
    let mut store = store_with_tree();
    store.prune_subtree(&"/r/b.txt".to_string());
    let visible = store.visible_node_paths();
    assert_eq!(visible, vec!["/r/a", "/r/c.txt"]);
}

#[test]
fn selection_is_reclamped_after_changes() {
    let mut store = store_with_tree();
    store.move_selection(10, 5);
    assert_eq!(store.selected_index(), 2);
    store.move_selection(-1, 5);
    assert_eq!(store.selected_index(), 1);
    store.prune_subtree(&"/r/a".to_string());
    store.ensure_selection_in_bounds(5);
    assert!(store.selected_index() < 2);
}

#[test]
fn drill_and_navigate_change_the_display_root() {
    let mut store = store_with_tree();
    // "/r/a" sorts second under size-descending; select and open it.
    store.move_selection(1, 5);
    store.drill_into_selection(5);
    assert_eq!(store.current_root().as_str(), "/r/a");
    let visible = store.visible_node_paths();
    assert_eq!(visible, vec!["/r/a/y.txt", "/r/a/x.txt"]);
    store.navigate_to_parent(5);
    assert_eq!(store.current_root().as_str(), "/r");
    // Never above the startup root.
    store.navigate_to_parent(5);
    assert_eq!(store.current_root().as_str(), "/r");
}

#[test]
fn drain_applies_events_and_stops_on_terminal() {
    let (tx, rx) = bounded(64);
    let mut store = TreeStore::new("/r".to_string(), SizeMetric::Apparent);
    store.begin_scan(&"/r".to_string());
    assert!(matches!(store.scan_state(), ScanState::Scanning(_)));

    tx.send(ScanEvent::Reset {
        root: "/r".to_string(),
    })
    .unwrap();
    tx.send(ScanEvent::NodeUpdated(node("/r", FsEntryKind::Dir, 1, 1)))
        .unwrap();
    tx.send(ScanEvent::NodeUpdated(node(
        "/r/a.txt",
        FsEntryKind::File,
        2,
        2,
    )))
    .unwrap();
    tx.send(ScanEvent::Warning {
        path: "/r/bad".to_string(),
        message: "cannot stat path: gone".to_string(),
    })
    .unwrap();
    let progress = ScanProgress {
        visited_entries: 2,
        warnings: 1,
        apparent_bytes_seen: 3,
        allocated_bytes_seen: 3,
    };
    tx.send(ScanEvent::Progress(progress)).unwrap();
    tx.send(ScanEvent::Complete(progress)).unwrap();
    tx.send(ScanEvent::Cancelled).unwrap();

    let stopped = store.drain_scan_events(&rx, 5);
    assert!(stopped);
    assert!(matches!(store.scan_state(), ScanState::Complete(p) if p.visited_entries == 2));
    assert!(store.get_node(&"/r/a.txt".to_string()).is_some());
    assert!(store.last_warning().unwrap().contains("/r/bad"));
    // The event after the terminal one is left for the next drain; the
    // caller stops the session instead.
    let stopped_again = store.drain_scan_events(&rx, 5);
    assert!(stopped_again);
    assert!(matches!(store.scan_state(), ScanState::Cancelled));
}

#[test]
fn begin_scan_prunes_and_resets() {
    let mut store = store_with_tree();
    store.move_selection(2, 5);
    store.begin_scan(&"/r/a".to_string());
    assert!(store.get_node(&"/r/a".to_string()).is_none());
    assert!(store.get_node(&"/r/a/x.txt".to_string()).is_none());
    assert!(store.get_node(&"/r/b.txt".to_string()).is_some());
    assert_eq!(store.selected_index(), 0);
    assert!(matches!(store.scan_state(), ScanState::Scanning(p) if p.visited_entries == 0));
}

#[test]
fn scan_state_status_lines() {
    let progress = ScanProgress {
        visited_entries: 12,
        warnings: 3,
        apparent_bytes_seen: 0,
        allocated_bytes_seen: 0,
    };
    assert_eq!(ScanState::Idle.as_status(), "idle");
    assert_eq!(
        ScanState::Scanning(progress).as_status(),
        "scanning (entries: 12, warnings: 3)"
    );
    assert_eq!(
        ScanState::Complete(progress).as_status(),
        "complete (entries: 12, warnings: 3)"
    );
    assert_eq!(
        ScanState::Error("boom".to_string()).as_status(),
        "error: boom"
    );
    assert_eq!(ScanState::Cancelled.as_status(), "cancelled");
}

#[test]
fn error_and_cancelled_events_close_the_scan() {
    let (tx, rx) = bounded(8);
    let mut store = TreeStore::new("/r".to_string(), SizeMetric::Apparent);
    store.begin_scan(&"/r".to_string());
    tx.send(ScanEvent::Error("failed to stat /r: gone".to_string()))
        .unwrap();
    assert!(store.drain_scan_events(&rx, 5));
    assert!(matches!(store.scan_state(), ScanState::Error(m) if m.contains("failed to stat")));

    store.begin_scan(&"/r".to_string());
    tx.send(ScanEvent::Cancelled).unwrap();
    assert!(store.drain_scan_events(&rx, 5));
    assert!(matches!(store.scan_state(), ScanState::Cancelled));
}

#[test]
fn name_sort_is_case_insensitive() {
    let mut store = store_with_tree();
    store.upsert_node(node("/r/ALPHA", FsEntryKind::File, 1, 1));
    store.cycle_sort_mode();
    store.cycle_sort_mode();
    assert_eq!(store.sort_mode(), SortMode::Name);
    let by_name = store.visible_node_paths();
    assert_eq!(by_name, vec!["/r/a", "/r/ALPHA", "/r/b.txt", "/r/c.txt"]);
}

#[test]
fn view_model_mirrors_the_store() {
    let store = store_with_tree();
    let model = build_view_model(
        &store,
        FrameInputs {
            disk_line: "Disk: unavailable".to_string(),
            spinner_tick: 0,
            delete_enabled: true,
            help_modal_open: false,
            dialog: DialogStateView::Inactive,
            show_name_column: true,
            show_kind_column: true,
            show_size_column: true,
            show_relative_column: true,
            show_path_column: true,
        },
    );
    assert_eq!(model.current_root, "/r");
    assert_eq!(model.metric, "apparent");
    assert_eq!(model.sort_mode, "size-desc");
    assert_eq!(model.scan_status, "idle");
    assert_eq!(model.rows.len(), 3);
    assert_eq!(model.rows[0].name, "b.txt");
    assert_eq!(model.rows[0].size_bytes, 300);
    assert_eq!(model.rows[1].path_display, "/r/a");
    assert!(!model.rows[0].is_loading);
}
