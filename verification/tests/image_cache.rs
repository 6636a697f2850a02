use photo_selector_core::image_cache::{Image, ImageCache, ImageLoadState};

#[test]
fn new_entry_is_pending() {
    let file = "/photos/a.jpg";
    let mut cache = ImageCache::new();
    let img = cache.get(file, Some(4));

    assert_eq!(img.load_state, ImageLoadState::Pending);
    assert_eq!(img.path, file);
}

#[test]
fn file_size_populated_at_insert() {
    let file = "/photos/a.jpg";
    let mut cache = ImageCache::new();
    let img = cache.get(file, Some(5)); // 5 bytes

    assert_eq!(img.file_size, Some(5));
}

#[test]
fn returns_same_entry_on_second_get() {
    let file = "/photos/b.jpg";
    let mut cache = ImageCache::new();
    let first = cache.get(file, Some(0)).clone();
    let second = cache.get(file, Some(99)).clone();

    assert_eq!(first, second, "cache must return the same entry");
    assert_eq!(cache.len(), 1);
}

#[test]
fn mark_failed_updates_load_state() {
    let file = "/photos/bad.jpg";
    let mut cache = ImageCache::new();
    cache.get(file, Some(0));
    cache.mark_failed(file, "corrupt".to_string());

    let img = cache.get(file, Some(0));
    assert!(matches!(img.load_state, ImageLoadState::Failed { .. }));
}

#[test]
fn remove_clears_entry() {
    let file = "/photos/c.jpg";
    let mut cache = ImageCache::new();
    cache.get(file, Some(0));
    assert_eq!(cache.len(), 1);
    cache.remove(file);
    assert_eq!(cache.len(), 0);
}

#[test]
fn missing_file_insert_is_safe() {
    let mut cache = ImageCache::new();
    let path = String::from("/nonexistent/file.jpg");
    let img = cache.get(&path, None);
    // file_size is None since the size could not be read, but no panic
    assert_eq!(img.file_size, None);
    assert_eq!(img.load_state, ImageLoadState::Pending);
}

#[test]
fn get_cached_does_not_insert() {
    let cache = ImageCache::new();
    assert!(cache.get_cached("/photos/a.jpg").is_none());
    assert!(cache.is_empty());
}

#[test]
fn mark_failed_on_unknown_path_is_noop() {
    let mut cache = ImageCache::new();
    cache.mark_failed("/photos/none.jpg", "gone".to_string());
    assert!(cache.is_empty());
}

#[test]
fn mark_failed_keeps_other_metadata() {
    let mut cache = ImageCache::new();
    cache.get("/photos/a.jpg", Some(12));
    cache.mark_failed("/photos/a.jpg", "corrupt".to_string());
    let img = cache.get_cached("/photos/a.jpg").unwrap();
    assert_eq!(img.file_size, Some(12));
    assert_eq!(img.load_state, ImageLoadState::Failed { reason: "corrupt".to_string() });
}

#[test]
fn pending_image_has_no_metadata() {
    let img = Image::pending("/photos/x.png".to_string());
    assert_eq!(img.path, "/photos/x.png");
    assert_eq!(img.dimensions, None);
    assert_eq!(img.file_size, None);
    assert_eq!(img.date_taken, None);
    assert!(!img.is_ready());
}

#[test]
fn ready_image_is_ready_and_clones_exactly() {
    let mut img = Image::pending("/photos/x.png".to_string());
    img.load_state = ImageLoadState::Ready { thumbnail: vec![1, 2, 3] };
    assert!(img.is_ready());
    let copy = img.clone();
    assert_eq!(copy, img);
}

#[test]
fn paths_naming_the_same_file_share_an_entry() {
    let mut cache = ImageCache::new();
    cache.get("/photos/a.jpg", Some(3));
    let again = cache.get("/photos/./a.jpg", Some(8)).clone();
    assert_eq!(again.file_size, Some(3));
    assert_eq!(cache.len(), 1);

    cache.mark_failed("/photos//a.jpg", "corrupt".to_string());
    assert!(matches!(
        cache.get_cached("/photos/a.jpg").unwrap().load_state,
        ImageLoadState::Failed { .. }
    ));

    cache.remove("/photos/a.jpg/");
    assert!(cache.is_empty());
}

#[test]
fn length_counts_distinct_paths() {
    let mut cache = ImageCache::new();
    cache.get("/photos/a.jpg", None);
    cache.get("/photos/b.jpg", None);
    cache.get("/photos//a.jpg", None);
    assert_eq!(cache.len(), 2);
    cache.remove("/photos/missing.jpg");
    assert_eq!(cache.len(), 2);
    cache.remove("/photos/b.jpg");
    assert_eq!(cache.len(), 1);
}
