//! Scenario tests that drive the scan engine over in-memory directory
//! trees, standing in as both the filesystem and the consumer.

use std::collections::HashMap;
use std::sync::atomic::{AtomicBool, Ordering};
use std::sync::Arc;

use crossbeam_channel::{bounded, Receiver};
use storagescope::model::{ScanEvent, ScanOptions, ScanProgress};
use storagescope::scanner::{EntryMeta, ListedEntry, ListedItem, ScanEngine, ScanRequest};

#[derive(Clone)]
struct FsNode {
    meta: EntryMeta,
    target_meta: Option<EntryMeta>,
    entries: Vec<(String, String)>,
    canonical: String,
}

type Fs = HashMap<String, FsNode>;

fn meta_file(len: u64) -> EntryMeta {
    EntryMeta {
        is_symlink: false,
        is_dir: false,
        is_file: true,
        len,
        allocated: len,
        fs_id: Some(1),
    }
}

fn meta_dir(len: u64) -> EntryMeta {
    EntryMeta {
        is_symlink: false,
        is_dir: true,
        is_file: false,
        len,
        allocated: len,
        fs_id: Some(1),
    }
}

fn meta_symlink() -> EntryMeta {
    EntryMeta {
        is_symlink: true,
        is_dir: false,
        is_file: false,
        len: 0,
        allocated: 0,
        fs_id: Some(1),
    }
}

fn add_file(fs: &mut Fs, path: &str, len: u64) {
    fs.insert(
        path.to_string(),
        FsNode {
            meta: meta_file(len),
            target_meta: None,
            entries: Vec::new(),
            canonical: path.to_string(),
        },
    );
}

fn add_dir(fs: &mut Fs, path: &str, len: u64, entries: &[(&str, &str)]) {
    fs.insert(
        path.to_string(),
        FsNode {
            meta: meta_dir(len),
            target_meta: None,
            entries: entries
                .iter()
                .map(|(n, p)| (n.to_string(), p.to_string()))
                .collect(),
            canonical: path.to_string(),
        },
    );
}

fn options(root: &str) -> ScanOptions {
    ScanOptions {
        root: root.to_string(),
        one_file_system: true,
        follow_symlinks: false,
        show_hidden: true,
        show_files: true,
        max_depth: None,
    }
}

fn drain(rx: &Receiver<ScanEvent>, into: &mut Vec<ScanEvent>) {
    while let Ok(ev) = rx.try_recv() {
        into.push(ev);
    }
}

/// Drives the engine to completion, answering its filesystem requests from
/// the in-memory tree and draining the channel between steps.
fn run(fs: &Fs, opts: ScanOptions, capacity: usize, cancel_after: Option<usize>) -> Vec<ScanEvent> {
    let (tx, rx) = bounded(capacity);
    let cancel = Arc::new(AtomicBool::new(false));
    let mut engine = ScanEngine::new(opts, tx, Arc::clone(&cancel));
    let mut events = Vec::new();
    let mut steps = 0usize;
    loop {
        drain(&rx, &mut events);
        if let Some(limit) = cancel_after {
            if steps >= limit {
                cancel.store(true, Ordering::Release);
            }
        }
        match engine.next_request() {
            ScanRequest::Done => break,
            ScanRequest::Proceed => engine.proceed(),
            ScanRequest::Stat { path, follow } => {
                let reply = match fs.get(&path) {
                    Some(node) => {
                        if follow {
                            match node.target_meta {
                                Some(m) => Ok(m),
                                None => Err(String::from("dangling link")),
                            }
                        } else {
                            Ok(node.meta)
                        }
                    }
                    None => Err(String::from("no such path")),
                };
                engine.on_stat(reply);
            }
            ScanRequest::ListDir { path } => {
                let reply = match fs.get(&path) {
                    Some(node) => Ok(node
                        .entries
                        .iter()
                        .map(|(name, child)| {
                            ListedItem::Entry(ListedEntry {
                                name: name.clone(),
                                path: child.clone(),
                                stat: fs
                                    .get(child)
                                    .map(|c| c.meta)
                                    .ok_or_else(|| String::from("no such path")),
                                target: fs.get(child).and_then(|c| c.target_meta).map(Ok),
                            })
                        })
                        .collect()),
                    None => Err(String::from("permission denied")),
                };
                engine.on_list_dir(reply);
            }
            ScanRequest::Canonicalize { path } => {
                let reply = fs
                    .get(&path)
                    .map(|n| n.canonical.clone())
                    .ok_or_else(|| String::from("no such path"));
                engine.on_canonicalize(reply);
            }
        }
        steps += 1;
        assert!(steps < 100000, "engine did not settle");
    }
    drain(&rx, &mut events);
    events
}

fn root_final_summary(events: &[ScanEvent], root: &str) -> Option<(u64, u64)> {
    let mut found = None;
    for ev in events {
        if let ScanEvent::NodeUpdated(node) = ev {
            if node.path == root && node.is_complete {
                found = Some((node.apparent_bytes, node.allocated_bytes));
            }
        }
    }
    found
}

fn small_tree() -> Fs {
    let mut fs = Fs::new();
    add_dir(&mut fs, "/r", 4096, &[("docs", "/r/docs"), ("b.txt", "/r/b.txt")]);
    add_dir(&mut fs, "/r/docs", 4096, &[("a.txt", "/r/docs/a.txt")]);
    add_file(&mut fs, "/r/docs/a.txt", 256);
    add_file(&mut fs, "/r/b.txt", 128);
    fs
}

#[test]
fn scan_completes_with_aggregated_root_totals() {
    let fs = small_tree();
    let events = run(&fs, options("/r"), 1024, None);

    assert!(matches!(events.first(), Some(ScanEvent::Reset { root }) if root.as_str() == "/r"));
    assert!(matches!(events.last(), Some(ScanEvent::Complete(_))));

    let (apparent, allocated) = root_final_summary(&events, "/r").expect("root summary");
    assert_eq!(apparent, 4096 + 4096 + 256 + 128);
    assert_eq!(allocated, 4096 + 4096 + 256 + 128);
    assert!(apparent >= 384);

    let complete_progress = match events.last() {
        Some(ScanEvent::Complete(p)) => *p,
        _ => unreachable!(),
    };
    assert!(complete_progress.visited_entries >= 3);
    assert_eq!(complete_progress.visited_entries, 4);
}

#[test]
fn children_finalize_before_their_parent() {
    let fs = small_tree();
    let events = run(&fs, options("/r"), 1024, None);
    let pos = |path: &str| {
        events.iter().position(|ev| {
            matches!(ev, ScanEvent::NodeUpdated(n) if n.path == path && n.is_complete)
        })
    };
    let child = pos("/r/docs/a.txt").expect("child summary");
    let dir = pos("/r/docs").expect("dir summary");
    let root = pos("/r").expect("root summary");
    assert!(child < dir);
    assert!(dir < root);
}

#[test]
fn display_filters_do_not_change_totals() {
    let mut fs = small_tree();
    add_file(&mut fs, "/r/.hidden.bin", 64);
    if let Some(root) = fs.get_mut("/r") {
        root.entries
            .push((".hidden.bin".to_string(), "/r/.hidden.bin".to_string()));
    }

    let full = run(&fs, options("/r"), 1024, None);

    let mut constrained_opts = options("/r");
    constrained_opts.show_hidden = false;
    constrained_opts.max_depth = Some(0);
    let constrained = run(&fs, constrained_opts, 1024, None);

    let full_totals = root_final_summary(&full, "/r").expect("full totals");
    let constrained_totals = root_final_summary(&constrained, "/r").expect("constrained totals");
    assert_eq!(full_totals, constrained_totals);
    assert_eq!(full_totals.0, 4096 + 4096 + 256 + 128 + 64);

    assert!(!constrained.iter().any(|ev| {
        matches!(ev, ScanEvent::NodeUpdated(n) if n.path == "/r/.hidden.bin")
    }));
    assert!(!constrained.iter().any(|ev| {
        matches!(ev, ScanEvent::NodeUpdated(n) if n.path == "/r/docs/a.txt")
    }));
    assert!(full.iter().any(|ev| {
        matches!(ev, ScanEvent::NodeUpdated(n) if n.path == "/r/.hidden.bin")
    }));
}

#[test]
fn hidden_files_follow_the_flag() {
    let mut fs = Fs::new();
    add_dir(&mut fs, "/r", 4096, &[(".secret", "/r/.secret")]);
    add_file(&mut fs, "/r/.secret", 10);

    let shown = run(&fs, options("/r"), 1024, None);
    assert!(shown.iter().any(|ev| {
        matches!(ev, ScanEvent::NodeUpdated(n) if n.path == "/r/.secret")
    }));

    let mut hidden_opts = options("/r");
    hidden_opts.show_hidden = false;
    let concealed = run(&fs, hidden_opts, 1024, None);
    assert!(!concealed.iter().any(|ev| {
        matches!(ev, ScanEvent::NodeUpdated(n) if n.path == "/r/.secret")
    }));
    let shown_totals = root_final_summary(&shown, "/r").expect("totals");
    let concealed_totals = root_final_summary(&concealed, "/r").expect("totals");
    assert_eq!(shown_totals, concealed_totals);
}

#[test]
fn max_depth_zero_keeps_children_out_of_the_stream() {
    let mut fs = Fs::new();
    add_dir(&mut fs, "/r", 4096, &[("root-file.bin", "/r/root-file.bin")]);
    add_file(&mut fs, "/r/root-file.bin", 64);

    let mut opts = options("/r");
    opts.max_depth = Some(0);
    let events = run(&fs, opts, 1024, None);

    assert!(events.iter().any(|ev| {
        matches!(ev, ScanEvent::NodeUpdated(n) if n.path == "/r")
    }));
    assert!(!events.iter().any(|ev| {
        matches!(ev, ScanEvent::NodeUpdated(n) if n.path == "/r/root-file.bin")
    }));
    let totals = root_final_summary(&events, "/r").expect("totals");
    assert_eq!(totals.0, 4096 + 64);
}

#[test]
fn symlink_cycle_warns_once_and_still_completes() {
    let mut fs = Fs::new();
    add_dir(&mut fs, "/r", 4096, &[("loop", "/r/loop")]);
    fs.insert(
        "/r/loop".to_string(),
        FsNode {
            meta: meta_symlink(),
            target_meta: Some(meta_dir(4096)),
            entries: vec![("loop".to_string(), "/r/loop/loop".to_string())],
            canonical: "/r".to_string(),
        },
    );
    // Reading the symlinked directory shows the root's entries again, and
    // the nested link resolves to the same canonical directory.
    if let Some(node) = fs.get_mut("/r/loop") {
        node.entries = vec![("loop".to_string(), "/r/loop/loop".to_string())];
    }
    fs.insert(
        "/r/loop/loop".to_string(),
        FsNode {
            meta: meta_symlink(),
            target_meta: Some(meta_dir(4096)),
            entries: Vec::new(),
            canonical: "/r".to_string(),
        },
    );

    let mut opts = options("/r");
    opts.follow_symlinks = true;
    let events = run(&fs, opts, 1024, None);

    let cycle_warnings = events
        .iter()
        .filter(|ev| {
            matches!(ev, ScanEvent::Warning { message, .. } if message.contains("symlink cycle"))
        })
        .count();
    assert_eq!(cycle_warnings, 1);
    assert!(matches!(events.last(), Some(ScanEvent::Complete(_))));
}

#[test]
fn flooded_channel_drops_updates_and_warns_exactly_once() {
    let mut fs = Fs::new();
    let mut entries: Vec<(String, String)> = Vec::new();
    for i in 0..400 {
        let name = format!("file-{i:04}.bin");
        let path = format!("/r/big/{name}");
        add_file(&mut fs, &path, 1);
        entries.push((name, path));
    }
    fs.insert(
        "/r/big".to_string(),
        FsNode {
            meta: meta_dir(4096),
            target_meta: None,
            entries,
            canonical: "/r/big".to_string(),
        },
    );
    add_dir(&mut fs, "/r/tiny", 4096, &[]);
    add_dir(&mut fs, "/r", 4096, &[("big", "/r/big"), ("tiny", "/r/tiny")]);

    let events = run(&fs, options("/r"), 8, None);

    assert!(matches!(events.last(), Some(ScanEvent::Complete(_))));
    let backpressure_warnings = events
        .iter()
        .filter(|ev| {
            matches!(
                ev,
                ScanEvent::Warning { message, .. } if message.contains("scanner backpressure")
            )
        })
        .count();
    assert_eq!(backpressure_warnings, 1);
    // Far fewer node updates fit than entries were scanned.
    let updates = events
        .iter()
        .filter(|ev| matches!(ev, ScanEvent::NodeUpdated(_)))
        .count();
    assert!(updates < 400);
    let complete_progress = match events.last() {
        Some(ScanEvent::Complete(p)) => *p,
        _ => unreachable!(),
    };
    assert_eq!(complete_progress.visited_entries, 403);
}

#[test]
fn progress_snapshots_never_decrease() {
    let mut fs = Fs::new();
    let mut root_entries: Vec<(String, String)> = Vec::new();
    for d in 0..8 {
        let dpath = format!("/r/dir-{d:02}");
        let mut entries: Vec<(String, String)> = Vec::new();
        for i in 0..100 {
            let name = format!("f{i:03}");
            let path = format!("{dpath}/{name}");
            add_file(&mut fs, &path, 1);
            entries.push((name, path));
        }
        fs.insert(
            dpath.clone(),
            FsNode {
                meta: meta_dir(4096),
                target_meta: None,
                entries,
                canonical: dpath.clone(),
            },
        );
        root_entries.push((format!("dir-{d:02}"), dpath));
    }
    // A final empty directory lets the scan close while the consumer side
    // has drained, so the terminal events do not sit behind a full queue.
    add_dir(&mut fs, "/r/zz-last", 4096, &[]);
    root_entries.push(("zz-last".to_string(), "/r/zz-last".to_string()));
    fs.insert(
        "/r".to_string(),
        FsNode {
            meta: meta_dir(4096),
            target_meta: None,
            entries: root_entries,
            canonical: "/r".to_string(),
        },
    );

    let events = run(&fs, options("/r"), 16, None);
    let mut last: Option<ScanProgress> = None;
    for ev in &events {
        let snap = match ev {
            ScanEvent::Progress(p) => Some(*p),
            ScanEvent::Complete(p) => Some(*p),
            _ => None,
        };
        if let Some(p) = snap {
            if let Some(prev) = last {
                assert!(prev.visited_entries <= p.visited_entries);
                assert!(prev.warnings <= p.warnings);
                assert!(prev.apparent_bytes_seen <= p.apparent_bytes_seen);
                assert!(prev.allocated_bytes_seen <= p.allocated_bytes_seen);
            }
            last = Some(p);
        }
    }
    assert!(last.is_some(), "at least one progress snapshot expected");
}

#[test]
fn cancellation_ends_the_stream_with_cancelled() {
    let mut fs = Fs::new();
    let mut root_entries: Vec<(String, String)> = Vec::new();
    for d in 0..64 {
        let dpath = format!("/r/dir-{d:02}");
        let mut entries: Vec<(String, String)> = Vec::new();
        for i in 0..16 {
            let name = format!("f{i:03}");
            let path = format!("{dpath}/{name}");
            add_file(&mut fs, &path, 1);
            entries.push((name, path));
        }
        fs.insert(
            dpath.clone(),
            FsNode {
                meta: meta_dir(4096),
                target_meta: None,
                entries,
                canonical: dpath.clone(),
            },
        );
        root_entries.push((format!("dir-{d:02}"), dpath));
    }
    fs.insert(
        "/r".to_string(),
        FsNode {
            meta: meta_dir(4096),
            target_meta: None,
            entries: root_entries,
            canonical: "/r".to_string(),
        },
    );

    let events = run(&fs, options("/r"), 1024, Some(10));
    assert!(matches!(events.last(), Some(ScanEvent::Cancelled)));
    assert!(!events.iter().any(|ev| matches!(ev, ScanEvent::Complete(_))));
}

#[test]
fn unreadable_root_is_fatal() {
    let fs = Fs::new();
    let events = run(&fs, options("/gone"), 1024, None);
    assert!(matches!(events.last(), Some(ScanEvent::Error(_))));
    assert!(!events.iter().any(|ev| matches!(ev, ScanEvent::Complete(_))));
}

#[test]
fn missing_entries_warn_and_do_not_stop_the_scan() {
    let mut fs = Fs::new();
    add_dir(&mut fs, "/r", 4096, &[("ghost", "/r/ghost"), ("a", "/r/a")]);
    add_file(&mut fs, "/r/a", 50);
    // "/r/ghost" is listed by its parent but cannot be statted.
    let events = run(&fs, options("/r"), 1024, None);
    assert!(events.iter().any(|ev| {
        matches!(ev, ScanEvent::Warning { path, .. } if path.as_str() == "/r/ghost")
    }));
    assert!(matches!(events.last(), Some(ScanEvent::Complete(_))));
    let totals = root_final_summary(&events, "/r").expect("totals");
    assert_eq!(totals.0, 4096 + 50);
}

#[test]
fn unfollowed_symlinks_are_terminal_nodes() {
    let mut fs = Fs::new();
    add_dir(&mut fs, "/r", 4096, &[("link", "/r/link")]);
    fs.insert(
        "/r/link".to_string(),
        FsNode {
            meta: meta_symlink(),
            target_meta: Some(meta_dir(4096)),
            entries: Vec::new(),
            canonical: "/r".to_string(),
        },
    );
    let events = run(&fs, options("/r"), 1024, None);
    assert!(events.iter().any(|ev| {
        matches!(
            ev,
            ScanEvent::NodeUpdated(n)
                if n.path == "/r/link" && n.is_complete && n.children_count == 0
        )
    }));
    assert!(matches!(events.last(), Some(ScanEvent::Complete(_))));
}

#[test]
fn other_mounts_are_fenced_out() {
    let mut fs = Fs::new();
    add_dir(&mut fs, "/r", 4096, &[("same", "/r/same"), ("other", "/r/other")]);
    add_dir(&mut fs, "/r/same", 4096, &[]);
    fs.insert(
        "/r/other".to_string(),
        FsNode {
            meta: EntryMeta {
                is_symlink: false,
                is_dir: true,
                is_file: false,
                len: 4096,
                allocated: 4096,
                fs_id: Some(2),
            },
            target_meta: None,
            entries: Vec::new(),
            canonical: "/r/other".to_string(),
        },
    );
    let events = run(&fs, options("/r"), 1024, None);
    assert!(!events.iter().any(|ev| {
        matches!(ev, ScanEvent::NodeUpdated(n) if n.path == "/r/other")
    }));
    let totals = root_final_summary(&events, "/r").expect("totals");
    assert_eq!(totals.0, 4096 + 4096);
}

#[test]
fn a_file_root_is_a_single_entry_scan() {
    let mut fs = Fs::new();
    add_file(&mut fs, "/r/only.bin", 77);
    let events = run(&fs, options("/r/only.bin"), 1024, None);
    assert!(events.iter().any(|ev| {
        matches!(
            ev,
            ScanEvent::NodeUpdated(n) if n.path == "/r/only.bin" && n.apparent_bytes == 77
        )
    }));
    let complete_progress = match events.last() {
        Some(ScanEvent::Complete(p)) => *p,
        other => panic!("expected completion, got {other:?}"),
    };
    assert_eq!(complete_progress.visited_entries, 1);
}

#[test]
fn dangling_symlink_is_a_warning_not_a_failure() {
    let mut fs = Fs::new();
    add_dir(&mut fs, "/r", 4096, &[("dead", "/r/dead"), ("a", "/r/a")]);
    add_file(&mut fs, "/r/a", 9);
    fs.insert(
        "/r/dead".to_string(),
        FsNode {
            meta: meta_symlink(),
            target_meta: None,
            entries: Vec::new(),
            canonical: "/r/dead".to_string(),
        },
    );
    let mut opts = options("/r");
    opts.follow_symlinks = true;
    let events = run(&fs, opts, 1024, None);
    assert!(events.iter().any(|ev| {
        matches!(
            ev,
            ScanEvent::Warning { path, message }
                if path.as_str() == "/r/dead" && message.contains("symlink target")
        )
    }));
    assert!(matches!(events.last(), Some(ScanEvent::Complete(_))));
    let totals = root_final_summary(&events, "/r").expect("totals");
    assert_eq!(totals.0, 4096 + 9);
}

#[test]
fn uncanonicalizable_symlink_dir_is_skipped_with_a_warning() {
    let mut fs = Fs::new();
    add_dir(&mut fs, "/r", 4096, &[("odd", "/r/odd"), ("a", "/r/a")]);
    add_file(&mut fs, "/r/a", 9);
    fs.insert(
        "/r/odd".to_string(),
        FsNode {
            meta: meta_symlink(),
            target_meta: Some(meta_dir(4096)),
            entries: Vec::new(),
            canonical: "/r/odd".to_string(),
        },
    );
    let mut opts = options("/r");
    opts.follow_symlinks = true;
    // Stats of "/r/odd" succeed, but its canonicalize request is answered
    // from a map that lacks it, so only that call fails.
    let mut lookup = fs.clone();
    lookup.remove("/r/odd");
    let (tx, rx) = crossbeam_channel::bounded(1024);
    let cancel = Arc::new(AtomicBool::new(false));
    let mut engine = ScanEngine::new(opts, tx, Arc::clone(&cancel));
    let mut events = Vec::new();
    let mut steps = 0usize;
    loop {
        drain(&rx, &mut events);
        match engine.next_request() {
            ScanRequest::Done => break,
            ScanRequest::Proceed => engine.proceed(),
            ScanRequest::Stat { path, follow } => {
                let reply = match fs.get(&path) {
                    Some(node) => {
                        if follow {
                            node.target_meta.ok_or_else(|| String::from("dangling"))
                        } else {
                            Ok(node.meta)
                        }
                    }
                    None => Err(String::from("no such path")),
                };
                engine.on_stat(reply);
            }
            ScanRequest::ListDir { path } => {
                let reply = fs
                    .get(&path)
                    .map(|node| {
                        node.entries
                            .iter()
                            .map(|(name, child)| {
                                ListedItem::Entry(ListedEntry {
                                    name: name.clone(),
                                    path: child.clone(),
                                    stat: fs
                                        .get(child)
                                        .map(|c| c.meta)
                                        .ok_or_else(|| String::from("no such path")),
                                    target: fs.get(child).and_then(|c| c.target_meta).map(Ok),
                                })
                            })
                            .collect()
                    })
                    .ok_or_else(|| String::from("permission denied"));
                engine.on_list_dir(reply);
            }
            ScanRequest::Canonicalize { path } => {
                let reply = lookup
                    .get(&path)
                    .map(|n| n.canonical.clone())
                    .ok_or_else(|| String::from("too many levels of symbolic links"));
                engine.on_canonicalize(reply);
            }
        }
        steps += 1;
        assert!(steps < 100000, "engine did not settle");
    }
    drain(&rx, &mut events);
    assert!(events.iter().any(|ev| {
        matches!(
            ev,
            ScanEvent::Warning { path, message }
                if path.as_str() == "/r/odd" && message.contains("canonicalize")
        )
    }));
    assert!(matches!(events.last(), Some(ScanEvent::Complete(_))));
}

#[test]
fn cancellation_offers_open_directories_their_final_summaries() {
    let mut fs = Fs::new();
    add_file(&mut fs, "/r/sub/a", 10);
    add_file(&mut fs, "/r/sub/b", 20);
    add_dir(&mut fs, "/r/sub", 4096, &[("a", "/r/sub/a"), ("b", "/r/sub/b")]);
    add_dir(&mut fs, "/r", 4096, &[("sub", "/r/sub")]);

    let events = run(&fs, options("/r"), 1024, Some(3));
    assert!(matches!(events.last(), Some(ScanEvent::Cancelled)));
    assert!(!events.iter().any(|ev| matches!(ev, ScanEvent::Complete(_))));

    let sub_final = events.iter().position(|ev| {
        matches!(ev, ScanEvent::NodeUpdated(n) if n.path == "/r/sub" && n.is_complete)
    });
    let root_final = events.iter().position(|ev| {
        matches!(ev, ScanEvent::NodeUpdated(n) if n.path == "/r" && n.is_complete)
    });
    let sub_final = sub_final.expect("open subdirectory gets a final summary at cancellation");
    let root_final = root_final.expect("open root gets a final summary at cancellation");
    assert!(sub_final < root_final, "children settle before their parent");
}
