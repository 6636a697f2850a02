use photo_selector_core::image_index::FileInfo;
use photo_selector_core::stats::{count_in_subdir, is_supported_ext, LibraryStats};

fn file(dir: &str, name: &str) -> FileInfo {
    FileInfo {
        path: format!("{}/{}", dir, name),
        filename: name.to_string(),
        is_file: true,
        file_size: 0,
        date_modified: 0,
    }
}

#[test]
fn total_session_sums_all_fields() {
    let stats = LibraryStats { remaining: 5, selected: 3, rejected: 2 };
    assert_eq!(stats.total_session(), 10);
}

#[test]
fn progress_percent_zero_when_empty() {
    let stats = LibraryStats::default();
    assert_eq!(stats.progress_percent(), 0);
}

#[test]
fn progress_percent_correct() {
    let stats = LibraryStats { remaining: 5, selected: 3, rejected: 2 };
    assert_eq!(stats.progress_percent(), 50); // 5/10
}

#[test]
fn progress_percent_complete() {
    let stats = LibraryStats { remaining: 0, selected: 8, rejected: 2 };
    assert_eq!(stats.progress_percent(), 100);
}

#[test]
fn count_in_subdir_returns_zero_when_missing() {
    assert_eq!(count_in_subdir(&None), 0);
}

#[test]
fn count_in_subdir_counts_images() {
    let sel = "/photos/selected";
    let listing = vec![file(sel, "a.jpg"), file(sel, "b.jpg"), file(sel, "notes.txt")];
    assert_eq!(count_in_subdir(&Some(listing)), 2);
}

#[test]
fn count_in_subdir_skips_directories() {
    let sel = "/photos/selected";
    let mut folder = file(sel, "nested.jpg");
    folder.is_file = false;
    let listing = vec![folder, file(sel, "a.PNG")];
    assert_eq!(count_in_subdir(&Some(listing)), 1);
}

#[test]
fn count_in_empty_existing_subdir_is_zero() {
    assert_eq!(count_in_subdir(&Some(Vec::new())), 0);
}

#[test]
fn progress_percent_rounds_down() {
    let stats = LibraryStats { remaining: 1, selected: 1, rejected: 1 };
    assert_eq!(stats.progress_percent(), 66);
    let stats = LibraryStats { remaining: 2, selected: 1, rejected: 0 };
    assert_eq!(stats.progress_percent(), 33);
}

#[test]
fn progress_percent_below_hundred_while_images_remain() {
    let stats = LibraryStats { remaining: 1, selected: 999, rejected: 0 };
    assert_eq!(stats.progress_percent(), 99);
}

#[test]
fn supported_extensions_ignore_case() {
    assert!(is_supported_ext("a.jpg"));
    assert!(is_supported_ext("a.JPEG"));
    assert!(is_supported_ext("a.Png"));
    assert!(!is_supported_ext("a.gif"));
    assert!(!is_supported_ext(".jpg"));
    assert!(!is_supported_ext("jpg"));
    assert!(!is_supported_ext("a.jpg.txt"));
    assert!(is_supported_ext("archive.tar.jpg"));
    assert!(!is_supported_ext("a."));
}
