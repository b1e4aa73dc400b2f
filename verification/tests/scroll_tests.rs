use storagescope::store::compute_scroll_offset;
use storagescope::text::format_bytes;

#[test]
fn keeps_selection_visible_when_moving_down() {
    assert_eq!(compute_scroll_offset(0, 0, 100, 5), 0);
    assert_eq!(compute_scroll_offset(0, 4, 100, 5), 0);
    assert_eq!(compute_scroll_offset(0, 5, 100, 5), 1);
    assert_eq!(compute_scroll_offset(1, 6, 100, 5), 2);
}

#[test]
fn clamps_offset_for_small_lists() {
    assert_eq!(compute_scroll_offset(9, 1, 3, 10), 0);
    assert_eq!(compute_scroll_offset(4, 2, 3, 2), 1);
}

#[test]
fn handles_zero_visible_rows() {
    assert_eq!(compute_scroll_offset(0, 7, 10, 0), 7);
    assert_eq!(compute_scroll_offset(3, 2, 0, 0), 0);
}

#[test]
fn formats_bytes() {
    assert_eq!(format_bytes(0), "0 B");
    assert_eq!(format_bytes(12), "12 B");
    assert_eq!(format_bytes(2048), "2.0 KB");
}

#[test]
fn formats_bytes_across_units() {
    assert_eq!(format_bytes(1023), "1023 B");
    assert_eq!(format_bytes(1024), "1.0 KB");
    assert_eq!(format_bytes(1536), "1.5 KB");
    assert_eq!(format_bytes(1048576), "1.0 MB");
    assert_eq!(format_bytes(1073741824), "1.0 GB");
    assert_eq!(format_bytes(1099511627776), "1.0 TB");
}
