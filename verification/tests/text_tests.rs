//! Tests of the text utilities: path relations, decimal rendering and the
//! disk usage line.

use storagescope::model::DiskUsage;
use storagescope::delete::check_target_within_root;
use storagescope::text::{
    contains_str, drop_last_char, file_name_of, in_subtree, parent_of, str_le, u64_to_string,
};
use storagescope::view::build_disk_line;

#[test]
fn subtree_membership_respects_component_boundaries() {
    let root = "/a/b".to_string();
    assert!(in_subtree(&"/a/b".to_string(), &root));
    assert!(in_subtree(&"/a/b/c".to_string(), &root));
    assert!(!in_subtree(&"/a/bc".to_string(), &root));
    assert!(!in_subtree(&"/a".to_string(), &root));
    assert!(in_subtree(&"/x".to_string(), &"/".to_string()));
}

#[test]
fn parents_and_file_names() {
    assert_eq!(parent_of(&"/a/b".to_string()), Some("/a".to_string()));
    assert_eq!(parent_of(&"/a".to_string()), Some("/".to_string()));
    assert_eq!(parent_of(&"/".to_string()), None);
    assert_eq!(parent_of(&"plain".to_string()), None);
    assert_eq!(file_name_of(&"/a/b.txt".to_string()), "b.txt");
    assert_eq!(file_name_of(&"name".to_string()), "name");
}

#[test]
fn string_helpers() {
    assert_eq!(u64_to_string(0), "0");
    assert_eq!(u64_to_string(90210), "90210");
    assert!(contains_str("hello world", "lo wo"));
    assert!(!contains_str("hello", "world"));
    assert!(contains_str("anything", ""));
    assert!(str_le(&"abc".to_string(), &"abd".to_string()));
    assert!(str_le(&"ab".to_string(), &"abc".to_string()));
    assert!(!str_le(&"b".to_string(), &"azzz".to_string()));
    assert_eq!(drop_last_char(&"abc".to_string()), "ab");
    assert_eq!(drop_last_char(&"".to_string()), "");
}

#[test]
fn disk_line_reports_usage() {
    let line = build_disk_line(Some(DiskUsage {
        total_bytes: 2048,
        free_bytes: 1024,
        available_bytes: 1024,
    }));
    assert_eq!(line, "Disk: 2.0 KB total | 1.0 KB used (50.0%) | 1.0 KB free");
    assert_eq!(build_disk_line(None), "Disk: unavailable");
}

#[test]
fn delete_rule_refuses_root_and_escapes() {
    let root = "/data/root".to_string();
    let inside = "/data/root/file.txt".to_string();
    let outside = "/elsewhere/file.txt".to_string();
    assert!(check_target_within_root(&inside, &root, &inside).is_ok());
    let same = check_target_within_root(&root, &root, &root).unwrap_err();
    assert!(same.message().contains("refusing to delete startup root"));
    let away = check_target_within_root(&outside, &root, &outside).unwrap_err();
    assert!(away.message().contains("refusing to delete outside startup root"));
}
