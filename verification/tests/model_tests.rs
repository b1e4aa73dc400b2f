use storagescope::model::{
    allocated_size_clustered, disk_usage_from_statvfs, AppError, FsEntryKind, NodeSummary,
    SizeMetric, SortMode,
};

#[test]
fn metric_toggle_cycles() {
    assert_eq!(SizeMetric::Allocated.toggle(), SizeMetric::Apparent);
    assert_eq!(SizeMetric::Apparent.toggle(), SizeMetric::Allocated);
}

#[test]
fn sort_mode_cycles() {
    assert_eq!(SortMode::SizeDesc.cycle(), SortMode::SizeAsc);
    assert_eq!(SortMode::SizeAsc.cycle(), SortMode::Name);
    assert_eq!(SortMode::Name.cycle(), SortMode::SizeDesc);
}

#[test]
fn metric_bytes_picks_the_requested_size() {
    let node = NodeSummary {
        path: String::from("/tmp/x"),
        kind: FsEntryKind::File,
        apparent_bytes: 10,
        allocated_bytes: 4096,
        children_count: 0,
        is_complete: true,
        last_updated: 0,
    };
    assert_eq!(node.metric_bytes(SizeMetric::Apparent), 10);
    assert_eq!(node.metric_bytes(SizeMetric::Allocated), 4096);
}

#[test]
fn labels_and_strings() {
    assert_eq!(FsEntryKind::File.label(), "file");
    assert_eq!(FsEntryKind::Dir.label(), "dir");
    assert_eq!(FsEntryKind::Symlink.label(), "symlink");
    assert_eq!(FsEntryKind::Other.label(), "other");
    assert_eq!(SizeMetric::Allocated.as_str(), "allocated");
    assert_eq!(SortMode::SizeDesc.as_str(), "size-desc");
    assert_eq!(SortMode::Name.as_str(), "name");
}

#[test]
fn error_messages_name_their_cause() {
    let e = AppError::Delete {
        path: String::from("/data/x"),
        reason: String::from("refusing to delete startup root"),
    };
    assert_eq!(
        e.message(),
        "delete error for /data/x: refusing to delete startup root"
    );
    let t = AppError::Terminal(String::from("boom"));
    assert_eq!(t.message(), "terminal error: boom");
    let io = AppError::Io(String::from("gone"));
    assert_eq!(io.message(), "I/O error: gone");
    let s = AppError::Scan(String::from("bad"));
    assert_eq!(s.message(), "scan error: bad");
}

#[test]
fn cluster_rounding_matches_expected_values() {
    assert_eq!(allocated_size_clustered(0), 0);
    assert_eq!(allocated_size_clustered(1), 4096);
    assert_eq!(allocated_size_clustered(4096), 4096);
    assert_eq!(allocated_size_clustered(4097), 8192);
    assert_eq!(allocated_size_clustered(u64::MAX), u64::MAX);
}

#[test]
fn statvfs_figures_scale_by_fragment_size() {
    let u = disk_usage_from_statvfs(512, 4096, 100, 40, 30);
    assert_eq!(u.total_bytes, 51_200);
    assert_eq!(u.free_bytes, 20_480);
    assert_eq!(u.available_bytes, 15_360);
    let v = disk_usage_from_statvfs(0, 4096, 10, 5, 1);
    assert_eq!(v.total_bytes, 40_960);
    assert_eq!(v.free_bytes, 20_480);
    assert_eq!(v.available_bytes, 4096);
    let w = disk_usage_from_statvfs(2, 0, u64::MAX, 3, 0);
    assert_eq!(w.total_bytes, u64::MAX);
    assert_eq!(w.free_bytes, 6);
    assert_eq!(w.available_bytes, 0);
}
