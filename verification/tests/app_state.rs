use photo_selector_core::app_state::{folder_name, Action, ActStep, AppState, FileProbe, UndoStep};
use photo_selector_core::events::{AppEvent, BoundaryKind, MoveAction};
use photo_selector_core::image_cache::Image;
use photo_selector_core::image_index::{FileInfo, SortOrder};
use photo_selector_core::stats::LibraryStats;

// ── an in-memory folder tree standing in for the disk ──────────────────────

struct Disk {
    /// (path, contents)
    files: Vec<(String, String)>,
    dirs: Vec<String>,
}

fn parent(path: &str) -> &str {
    match path.rfind('/') {
        Some(i) => &path[..i],
        None => "",
    }
}

fn file_name(path: &str) -> &str {
    match path.rfind('/') {
        Some(i) => &path[i + 1..],
        None => path,
    }
}

impl Disk {
    fn new(dir: &str) -> Disk {
        Disk { files: Vec::new(), dirs: vec![dir.to_string()] }
    }

    fn write(&mut self, path: &str, contents: &str) {
        self.files.retain(|(p, _)| p != path);
        self.files.push((path.to_string(), contents.to_string()));
    }

    fn has_file(&self, path: &str) -> bool {
        self.files.iter().any(|(p, _)| p == path)
    }

    fn remove(&mut self, path: &str) {
        self.files.retain(|(p, _)| p != path);
    }

    fn size(&self, path: &str) -> Option<u64> {
        self.files.iter().find(|(p, _)| p == path).map(|(_, c)| c.len() as u64)
    }

    fn listing(&self, dir: &str) -> Option<Vec<FileInfo>> {
        if !self.dirs.iter().any(|d| d == dir) {
            return None;
        }
        let mut out: Vec<FileInfo> = self
            .files
            .iter()
            .filter(|(p, _)| parent(p) == dir)
            .map(|(p, c)| FileInfo {
                path: p.clone(),
                filename: file_name(p).to_string(),
                is_file: true,
                file_size: c.len() as u64,
                date_modified: 0,
            })
            .collect();
        for d in &self.dirs {
            if parent(d) == dir {
                out.push(FileInfo {
                    path: d.clone(),
                    filename: file_name(d).to_string(),
                    is_file: false,
                    file_size: 0,
                    date_modified: 0,
                });
            }
        }
        Some(out)
    }

    fn rename(&mut self, from: &str, to: &str) {
        let contents = self.files.iter().find(|(p, _)| p == from).unwrap().1.clone();
        self.remove(from);
        self.write(to, &contents);
    }
}

fn load(app: &mut AppState, disk: &Disk, dir: &str) -> Vec<AppEvent> {
    let listing = disk.listing(dir).unwrap_or_default();
    app.load_dir(dir.to_string(), listing)
}

fn act_at(app: &mut AppState, disk: &mut Disk, action: Action, view_index: usize) -> Vec<AppEvent> {
    match app.act_on_current_at(action, view_index) {
        ActStep::Finished(events) => events,
        ActStep::Move(request) => {
            let target = format!("{}/{}", parent(&request.source), request.subdir);
            if !disk.dirs.contains(&target) {
                disk.dirs.push(target.clone());
            }
            let dest = format!("{}/{}", target, file_name(&request.source));
            disk.rename(&request.source, &dest);
            app.complete_move(request, dest)
        }
    }
}

fn act(app: &mut AppState, disk: &mut Disk, action: Action) -> Vec<AppEvent> {
    act_at(app, disk, action, 0)
}

fn undo(app: &mut AppState, disk: &mut Disk) -> Vec<AppEvent> {
    match app.undo() {
        UndoStep::Finished(events) => events,
        UndoStep::Restore(entry) => {
            disk.rename(&entry.current_path, &entry.original_path);
            let size = disk.size(&entry.original_path).unwrap_or(0);
            let name = file_name(&entry.original_path).to_string();
            app.complete_undo(entry, name, size, 0)
        }
    }
}

fn current(app: &mut AppState, disk: &Disk) -> (Vec<Image>, Vec<AppEvent>) {
    let probes: Vec<FileProbe> = app
        .page_paths()
        .iter()
        .map(|p| FileProbe { present: disk.has_file(p), file_size: disk.size(p) })
        .collect();
    app.current_images(&probes)
}

fn images(app: &mut AppState, disk: &Disk) -> Vec<Image> {
    current(app, disk).0
}

fn stats(app: &AppState) -> LibraryStats {
    app.stats()
}

fn has_page_changed(events: &[AppEvent]) -> bool {
    events.iter().any(|e| matches!(e, AppEvent::PageChanged(_)))
}

fn has_library_empty(events: &[AppEvent]) -> bool {
    events.iter().any(|e| matches!(e, AppEvent::LibraryEmpty))
}

fn has_stats_changed(events: &[AppEvent]) -> bool {
    events.iter().any(|e| matches!(e, AppEvent::StatsChanged(_)))
}

fn extract_stats(events: &[AppEvent]) -> Option<&LibraryStats> {
    events.iter().find_map(|e| if let AppEvent::StatsChanged(s) = e { Some(s) } else { None })
}

const DIR: &str = "/photos";

fn disk_with(names: &[(&str, &str)]) -> Disk {
    let mut disk = Disk::new(DIR);
    for (name, contents) in names {
        disk.write(&format!("{}/{}", DIR, name), contents);
    }
    disk
}

// ── loading ────────────────────────────────────────────────────────────────

#[test]
fn load_dir_emits_scan_started_progress_complete() {
    let disk = disk_with(&[("a.jpg", ""), ("b.jpg", ""), ("c.jpg", "")]);
    let mut app = AppState::new(4);
    let events = load(&mut app, &disk, DIR);

    assert!(matches!(&events[0], AppEvent::ScanStarted { .. }));

    let progress: Vec<usize> = events
        .iter()
        .filter_map(|e| if let AppEvent::ScanProgress { scanned } = e { Some(*scanned) } else { None })
        .collect();
    assert_eq!(progress.len(), 3);
    assert_eq!(progress, vec![1, 2, 3]);

    let complete = events
        .iter()
        .find_map(|e| if let AppEvent::ScanComplete { total } = e { Some(total) } else { None });
    assert_eq!(complete, Some(&3));

    assert!(events.iter().any(|e| matches!(e, AppEvent::DirectoryLoaded { total: 3, .. })));
    assert!(has_page_changed(&events));
}

#[test]
fn load_empty_dir_emits_scan_events_with_zero() {
    let disk = Disk::new(DIR);
    let mut app = AppState::new(1);
    let events = load(&mut app, &disk, DIR);

    assert!(matches!(&events[0], AppEvent::ScanStarted { .. }));
    assert!(!events.iter().any(|e| matches!(e, AppEvent::ScanProgress { .. })));
    assert!(events.iter().any(|e| matches!(e, AppEvent::ScanComplete { total: 0 })));
    assert!(has_library_empty(&events));
}

#[test]
fn scan_started_path_matches_loaded_dir() {
    let disk = disk_with(&[("a.jpg", "")]);
    let mut app = AppState::new(1);
    let events = load(&mut app, &disk, DIR);

    let started_path = events
        .iter()
        .find_map(|e| if let AppEvent::ScanStarted { path } = e { Some(path) } else { None })
        .unwrap();

    assert_eq!(started_path, DIR);
}

#[test]
fn load_dir_emits_directory_loaded_page_and_stats() {
    let disk = disk_with(&[("a.jpg", "")]);
    let mut app = AppState::new(1);
    let events = load(&mut app, &disk, DIR);

    assert!(events.iter().any(|e| matches!(e, AppEvent::DirectoryLoaded { total: 1, .. })));
    assert!(has_page_changed(&events));
    assert!(has_stats_changed(&events));
}

#[test]
fn load_empty_dir_emits_library_empty_and_stats() {
    let disk = Disk::new(DIR);
    let mut app = AppState::new(1);
    let events = load(&mut app, &disk, DIR);
    assert!(has_library_empty(&events));
    assert!(has_stats_changed(&events));
}

#[test]
fn load_dir_resets_navigation() {
    let disk = disk_with(&[("a.jpg", ""), ("b.jpg", "")]);
    let mut app = AppState::new(1);
    load(&mut app, &disk, DIR);
    assert_eq!(app.total_images(), 2);

    let imgs = images(&mut app, &disk);
    assert_eq!(imgs.len(), 1);
    assert_eq!(file_name(&imgs[0].path), "a.jpg");
}

#[test]
fn load_dir_event_sequence_is_exact() {
    let disk = disk_with(&[("b.jpg", "xy"), ("a.png", "x"), ("notes.txt", "")]);
    let mut app = AppState::new(4);
    let events = load(&mut app, &disk, DIR);
    assert_eq!(events.len(), 7);
    assert!(matches!(&events[0], AppEvent::ScanStarted { path } if path == DIR));
    assert!(matches!(events[1], AppEvent::ScanProgress { scanned: 1 }));
    assert!(matches!(events[2], AppEvent::ScanProgress { scanned: 2 }));
    assert!(matches!(events[3], AppEvent::ScanComplete { total: 2 }));
    assert!(matches!(&events[4], AppEvent::DirectoryLoaded { path, total: 2 } if path == DIR));
    match &events[5] {
        AppEvent::PageChanged(page) => {
            assert_eq!(page.images.len(), 2);
            assert_eq!(page.images[0].path, "/photos/a.png");
            assert_eq!(page.images[1].path, "/photos/b.jpg");
            assert_eq!(page.images[1].file_size, Some(2));
            assert_eq!(page.current_index, 0);
            assert_eq!(page.current_page, 0);
        }
        other => panic!("unexpected {:?}", other),
    }
    assert!(matches!(
        events[6],
        AppEvent::StatsChanged(LibraryStats { remaining: 2, selected: 0, rejected: 0 })
    ));
}

// ── navigation ─────────────────────────────────────────────────────────────

#[test]
fn next_and_prev_navigate_pages() {
    let disk = disk_with(&[("a.jpg", ""), ("b.jpg", ""), ("c.jpg", "")]);
    let mut app = AppState::new(2);
    load(&mut app, &disk, DIR);

    app.next();
    let second = images(&mut app, &disk);
    assert_eq!(second.len(), 1);
    assert_eq!(file_name(&second[0].path), "c.jpg");

    app.prev();
    let first = images(&mut app, &disk);
    assert_eq!(first.len(), 2);
}

#[test]
fn next_at_last_page_emits_boundary() {
    let disk = disk_with(&[("a.jpg", "")]);
    let mut app = AppState::new(4);
    load(&mut app, &disk, DIR);
    let events = app.next();

    assert!(events.iter().any(|e| matches!(
        e,
        AppEvent::NavigationBoundary { kind: BoundaryKind::LastPage }
    )));
}

#[test]
fn prev_at_first_page_emits_boundary() {
    let disk = disk_with(&[("a.jpg", "")]);
    let mut app = AppState::new(4);
    load(&mut app, &disk, DIR);
    let events = app.prev();

    assert!(events.iter().any(|e| matches!(
        e,
        AppEvent::NavigationBoundary { kind: BoundaryKind::FirstPage }
    )));
}

#[test]
fn navigation_on_empty_library_hits_boundaries() {
    let mut app = AppState::new(3);
    assert!(matches!(
        app.next().as_slice(),
        [AppEvent::NavigationBoundary { kind: BoundaryKind::LastPage }]
    ));
    assert!(matches!(
        app.prev().as_slice(),
        [AppEvent::NavigationBoundary { kind: BoundaryKind::FirstPage }]
    ));
}

// ── actions ────────────────────────────────────────────────────────────────

#[test]
fn select_moves_file_emits_events_and_updates_stats() {
    let mut disk = disk_with(&[("a.jpg", "data"), ("b.jpg", "data")]);
    let mut app = AppState::new(2);
    load(&mut app, &disk, DIR);
    let events = act(&mut app, &mut disk, Action::Select);

    assert!(disk.has_file("/photos/selected/a.jpg"));
    assert!(events.iter().any(|e| matches!(e, AppEvent::FileMoved { action: MoveAction::Select, .. })));
    assert!(has_page_changed(&events));

    let stats = extract_stats(&events).unwrap();
    assert_eq!(stats.selected, 1);
    assert_eq!(stats.remaining, 1);
}

#[test]
fn reject_moves_file_and_updates_stats() {
    let mut disk = disk_with(&[("a.jpg", "data")]);
    let mut app = AppState::new(1);
    load(&mut app, &disk, DIR);
    act(&mut app, &mut disk, Action::Reject);

    assert!(disk.has_file("/photos/rejected/a.jpg"));
    assert_eq!(app.total_images(), 0);
}

#[test]
fn select_last_image_emits_library_empty() {
    let mut disk = disk_with(&[("a.jpg", "data")]);
    let mut app = AppState::new(1);
    load(&mut app, &disk, DIR);
    let events = act(&mut app, &mut disk, Action::Select);

    assert!(has_library_empty(&events));
    assert!(!has_page_changed(&events));
}

#[test]
fn act_on_empty_state_is_safe() {
    let mut disk = Disk::new(DIR);
    let mut app = AppState::new(1);
    load(&mut app, &disk, DIR);
    let events = act(&mut app, &mut disk, Action::Select);
    assert!(events.is_empty()); // invalid index — no-op
}

#[test]
fn act_on_specific_index() {
    let mut disk = disk_with(&[("a.jpg", ""), ("b.jpg", ""), ("c.jpg", "")]);
    let mut app = AppState::new(4);
    load(&mut app, &disk, DIR);
    act_at(&mut app, &mut disk, Action::Select, 1);

    assert!(disk.has_file("/photos/selected/b.jpg"));
    assert_eq!(app.total_images(), 2);
}

#[test]
fn act_request_names_file_and_folder() {
    let disk = disk_with(&[("a.jpg", ""), ("b.jpg", "")]);
    let mut app = AppState::new(4);
    load(&mut app, &disk, DIR);
    match app.act_on_current_at(Action::Reject, 1) {
        ActStep::Move(request) => {
            assert_eq!(request.source, "/photos/b.jpg");
            assert_eq!(request.subdir, "rejected");
            assert_eq!(request.action, MoveAction::Reject);
        }
        ActStep::Finished(_) => panic!("expected a move"),
    }
    assert!(matches!(app.act_on_current_at(Action::Select, 2), ActStep::Finished(e) if e.is_empty()));
    assert_eq!(app.total_images(), 2);
}

#[test]
fn acting_on_last_page_clamps_cursor() {
    let mut disk = disk_with(&[("a.jpg", ""), ("b.jpg", ""), ("c.jpg", "")]);
    let mut app = AppState::new(2);
    load(&mut app, &disk, DIR);
    app.next();
    let events = act(&mut app, &mut disk, Action::Select);
    match events.iter().find_map(|e| if let AppEvent::PageChanged(p) = e { Some(p) } else { None }) {
        Some(page) => {
            assert_eq!(page.current_index, 0);
            assert_eq!(page.images.len(), 2);
        }
        None => panic!("expected a page"),
    }
}

#[test]
fn stale_file_removed_automatically() {
    let mut disk = disk_with(&[("a.jpg", "data")]);
    let mut app = AppState::new(1);
    load(&mut app, &disk, DIR);
    disk.remove("/photos/a.jpg");

    let (imgs, events) = current(&mut app, &disk);
    assert!(imgs.is_empty());
    assert_eq!(app.total_images(), 0);
    assert!(events.iter().any(|e| matches!(e, AppEvent::StaleEntryRemoved { .. })));
}

#[test]
fn current_images_without_stale_entries_emits_nothing() {
    let disk = disk_with(&[("a.jpg", "abc"), ("b.jpg", "")]);
    let mut app = AppState::new(4);
    load(&mut app, &disk, DIR);
    let (imgs, events) = current(&mut app, &disk);
    assert_eq!(imgs.len(), 2);
    assert_eq!(imgs[0].file_size, Some(3));
    assert!(events.is_empty());
}

#[test]
fn stale_entry_in_middle_keeps_others_and_reports_page() {
    let mut disk = disk_with(&[("a.jpg", ""), ("b.jpg", ""), ("c.jpg", "")]);
    let mut app = AppState::new(3);
    load(&mut app, &disk, DIR);
    disk.remove("/photos/b.jpg");
    let (imgs, events) = current(&mut app, &disk);
    assert_eq!(imgs.len(), 2);
    assert_eq!(app.total_images(), 2);
    assert!(matches!(&events[0], AppEvent::StaleEntryRemoved { path } if path == "/photos/b.jpg"));
    assert!(matches!(&events[1], AppEvent::PageChanged(p) if p.total == 2));
    assert!(matches!(events[2], AppEvent::StatsChanged(LibraryStats { remaining: 2, .. })));
    assert_eq!(events.len(), 3);
}

// ── undo ───────────────────────────────────────────────────────────────────

#[test]
fn undo_restores_file_and_emits_events() {
    let mut disk = disk_with(&[("a.jpg", "data")]);
    let mut app = AppState::new(1);
    load(&mut app, &disk, DIR);
    act(&mut app, &mut disk, Action::Select);

    assert!(!disk.has_file("/photos/a.jpg"));
    assert_eq!(app.total_images(), 0);

    let events = undo(&mut app, &mut disk);

    assert!(disk.has_file("/photos/a.jpg"));
    assert_eq!(app.total_images(), 1);
    assert!(events.iter().any(|e| matches!(e, AppEvent::Undone { .. })));
    assert!(has_page_changed(&events));
    assert!(has_stats_changed(&events));
}

#[test]
fn undo_empty_stack_emits_undo_stack_empty() {
    let mut disk = Disk::new(DIR);
    let mut app = AppState::new(1);
    load(&mut app, &disk, DIR);

    let events = undo(&mut app, &mut disk);
    assert!(events.iter().any(|e| matches!(e, AppEvent::UndoStackEmpty)));
}

#[test]
fn can_undo_reflects_stack_state() {
    let mut disk = disk_with(&[("a.jpg", "data")]);
    let mut app = AppState::new(1);
    load(&mut app, &disk, DIR);
    assert!(!app.can_undo());

    act(&mut app, &mut disk, Action::Select);
    assert!(app.can_undo());

    undo(&mut app, &mut disk);
    assert!(!app.can_undo());
}

#[test]
fn load_dir_clears_undo_stack() {
    let mut disk = disk_with(&[("a.jpg", "data")]);
    let mut app = AppState::new(1);
    load(&mut app, &disk, DIR);
    act(&mut app, &mut disk, Action::Select);
    assert!(app.can_undo());

    disk.write("/photos/b.jpg", "data");
    load(&mut app, &disk, DIR);
    assert!(!app.can_undo());
}

#[test]
fn undo_puts_image_back_in_sorted_place() {
    let mut disk = disk_with(&[("a.jpg", "1"), ("b.jpg", "22"), ("c.jpg", "333")]);
    let mut app = AppState::new(4);
    load(&mut app, &disk, DIR);
    act_at(&mut app, &mut disk, Action::Reject, 1);
    let events = undo(&mut app, &mut disk);
    assert!(matches!(&events[0], AppEvent::Undone { path, action: MoveAction::Reject } if path == "/photos/b.jpg"));
    match &events[1] {
        AppEvent::PageChanged(page) => {
            let names: Vec<&str> = page.images.iter().map(|i| file_name(&i.path)).collect();
            assert_eq!(names, vec!["a.jpg", "b.jpg", "c.jpg"]);
            assert_eq!(page.images[1].file_size, Some(2));
        }
        other => panic!("unexpected {:?}", other),
    }
    assert!(matches!(events[2], AppEvent::StatsChanged(LibraryStats { remaining: 3, selected: 0, rejected: 0 })));
}

#[test]
fn undo_is_bounded_to_fifty_moves() {
    let names: Vec<String> = (0..60).map(|i| format!("img{:02}.jpg", i)).collect();
    let mut disk = Disk::new(DIR);
    for n in &names {
        disk.write(&format!("{}/{}", DIR, n), "x");
    }
    let mut app = AppState::new(1);
    load(&mut app, &disk, DIR);
    for _ in 0..60 {
        act(&mut app, &mut disk, Action::Select);
    }
    let mut undone = 0;
    while app.can_undo() {
        undo(&mut app, &mut disk);
        undone += 1;
    }
    assert_eq!(undone, 50);
    assert_eq!(app.total_images(), 50);
}

// ── view count ─────────────────────────────────────────────────────────────

#[test]
fn set_view_count_emits_view_count_changed_and_page_changed() {
    let disk = disk_with(&[("a.jpg", ""), ("b.jpg", "")]);
    let mut app = AppState::new(1);
    load(&mut app, &disk, DIR);
    let events = app.set_view_count(2);

    assert!(events.iter().any(|e| matches!(e, AppEvent::ViewCountChanged { view_count: 2 })));
    assert!(has_page_changed(&events));
}

#[test]
fn set_view_count_changes_page_size() {
    let disk = disk_with(&[("a.jpg", ""), ("b.jpg", ""), ("c.jpg", "")]);
    let mut app = AppState::new(1);
    load(&mut app, &disk, DIR);

    app.set_view_count(3);
    let imgs = images(&mut app, &disk);
    assert_eq!(imgs.len(), 3);
}

#[test]
fn set_view_count_clamps_cursor_to_last_page() {
    let disk = disk_with(&[("a.jpg", ""), ("b.jpg", ""), ("c.jpg", ""), ("d.jpg", ""), ("e.jpg", "")]);
    let mut app = AppState::new(1);
    load(&mut app, &disk, DIR);
    for _ in 0..4 {
        app.next();
    }
    let events = app.set_view_count(2);
    match &events[1] {
        AppEvent::PageChanged(page) => {
            assert_eq!(page.current_index, 4);
            assert_eq!(page.current_page, 2);
            assert_eq!(page.total_pages, 3);
            assert_eq!(page.images.len(), 1);
        }
        other => panic!("unexpected {:?}", other),
    }
}

// ── sort order ─────────────────────────────────────────────────────────────

#[test]
fn set_sort_order_reorders_images() {
    let disk = disk_with(&[("a.jpg", ""), ("z.jpg", "")]);
    let mut app = AppState::new(2);
    load(&mut app, &disk, DIR);

    app.set_sort_order(SortOrder::NameDesc);
    let imgs = images(&mut app, &disk);
    assert_eq!(file_name(&imgs[0].path), "z.jpg");
}

#[test]
fn set_sort_order_same_order_is_noop() {
    let disk = disk_with(&[("a.jpg", "")]);
    let mut app = AppState::new(1);
    load(&mut app, &disk, DIR);

    let events = app.set_sort_order(SortOrder::NameAsc); // already default
    assert!(events.is_empty());
}

#[test]
fn set_sort_order_emits_sort_changed_and_page_changed() {
    let disk = disk_with(&[("a.jpg", "")]);
    let mut app = AppState::new(1);
    load(&mut app, &disk, DIR);
    let events = app.set_sort_order(SortOrder::NameDesc);

    assert!(events.iter().any(|e| matches!(e, AppEvent::SortChanged { .. })));
    assert!(has_page_changed(&events));
}

#[test]
fn set_sort_order_returns_to_first_page() {
    let disk = disk_with(&[("a.jpg", "1"), ("b.jpg", "333"), ("c.jpg", "22")]);
    let mut app = AppState::new(1);
    load(&mut app, &disk, DIR);
    app.next();
    let events = app.set_sort_order(SortOrder::SizeDesc);
    match &events[1] {
        AppEvent::PageChanged(page) => {
            assert_eq!(page.current_index, 0);
            assert_eq!(page.images[0].path, "/photos/b.jpg");
        }
        other => panic!("unexpected {:?}", other),
    }
}

// ── stats ──────────────────────────────────────────────────────────────────

#[test]
fn stats_counts_remaining_selected_rejected() {
    let mut disk = disk_with(&[("a.jpg", "data"), ("b.jpg", "data"), ("c.jpg", "data")]);
    let mut app = AppState::new(4);
    load(&mut app, &disk, DIR);

    act_at(&mut app, &mut disk, Action::Select, 0);
    act_at(&mut app, &mut disk, Action::Reject, 0);

    let stats = stats(&app);
    assert_eq!(stats.remaining, 1);
    assert_eq!(stats.selected, 1);
    assert_eq!(stats.rejected, 1);
    assert_eq!(stats.progress_percent(), 66);
}

#[test]
fn stats_before_any_load_are_zero() {
    let app = AppState::new(1);
    assert_eq!(app.stats(), LibraryStats { remaining: 0, selected: 0, rejected: 0 });
    assert_eq!(app.base_dir(), None);
}

#[test]
fn page_state_includes_view_count() {
    let disk = disk_with(&[("a.jpg", ""), ("b.jpg", "")]);
    let mut app = AppState::new(2);
    let events = load(&mut app, &disk, DIR);

    let page = events
        .iter()
        .find_map(|e| if let AppEvent::PageChanged(p) = e { Some(p) } else { None })
        .unwrap();

    assert_eq!(page.view_count, 2);
    assert_eq!(page.total, 2);
    assert_eq!(page.total_pages, 1);
}

#[test]
fn page_state_images_have_file_size_populated() {
    let disk = disk_with(&[("a.jpg", "hello")]); // 5 bytes
    let mut app = AppState::new(1);
    let events = load(&mut app, &disk, DIR);

    let page = events
        .iter()
        .find_map(|e| if let AppEvent::PageChanged(p) = e { Some(p) } else { None })
        .unwrap();

    assert_eq!(page.images.len(), 1);
    assert_eq!(
        page.images[0].file_size,
        Some(5),
        "file_size must be populated from ImageEntry, not left as None"
    );
}

#[test]
fn folder_names_are_selected_and_rejected() {
    assert_eq!(folder_name(MoveAction::Select), "selected");
    assert_eq!(folder_name(MoveAction::Reject), "rejected");
}

#[test]
fn stats_ignore_images_left_in_folders_by_an_earlier_session() {
    let mut disk = disk_with(&[("a.jpg", "")]);
    disk.dirs.push(format!("{}/selected", DIR));
    disk.write(&format!("{}/selected/old.jpg", DIR), "");
    let mut app = AppState::new(1);
    let events = load(&mut app, &disk, DIR);

    let expected = LibraryStats { remaining: 1, selected: 0, rejected: 0 };
    assert_eq!(extract_stats(&events), Some(&expected));
    assert_eq!(stats(&app), expected);
}

#[test]
fn undo_takes_a_move_off_the_counters() {
    let mut disk = disk_with(&[("a.jpg", "x"), ("b.jpg", "y")]);
    let mut app = AppState::new(2);
    load(&mut app, &disk, DIR);

    act(&mut app, &mut disk, Action::Reject);
    assert_eq!(stats(&app), LibraryStats { remaining: 1, selected: 0, rejected: 1 });

    let events = undo(&mut app, &mut disk);
    let expected = LibraryStats { remaining: 2, selected: 0, rejected: 0 };
    assert_eq!(extract_stats(&events), Some(&expected));
    assert_eq!(stats(&app), expected);
}

#[test]
fn loading_again_starts_the_counters_from_zero() {
    let mut disk = disk_with(&[("a.jpg", ""), ("b.jpg", ""), ("c.jpg", "")]);
    let mut app = AppState::new(3);
    load(&mut app, &disk, DIR);

    act(&mut app, &mut disk, Action::Select);
    act(&mut app, &mut disk, Action::Reject);
    assert_eq!(stats(&app), LibraryStats { remaining: 1, selected: 1, rejected: 1 });

    let events = load(&mut app, &disk, DIR);
    let expected = LibraryStats { remaining: 1, selected: 0, rejected: 0 };
    assert_eq!(extract_stats(&events), Some(&expected));
    assert_eq!(stats(&app), expected);
}

#[test]
fn set_view_count_moves_cursor_to_a_page_start() {
    let disk = disk_with(&[("a.jpg", ""), ("b.jpg", ""), ("c.jpg", ""), ("x.jpg", ""), ("y.jpg", "")]);
    let mut app = AppState::new(2);
    load(&mut app, &disk, DIR);
    app.next();

    let events = app.set_view_count(3);
    match &events[1] {
        AppEvent::PageChanged(page) => {
            assert_eq!(page.current_index, 0);
            assert_eq!(page.current_page, 0);
            assert_eq!(page.total, 5);
            assert_eq!(page.total_pages, 2);
            assert_eq!(page.images.len(), 3);
        }
        other => panic!("unexpected {:?}", other),
    }

    let events = app.next();
    match &events[0] {
        AppEvent::PageChanged(page) => {
            assert_eq!(page.current_index, 3);
            assert_eq!(page.current_page, 1);
            assert_eq!(page.images.len(), 2);
        }
        other => panic!("unexpected {:?}", other),
    }
    let events = app.next();
    assert!(matches!(events[0], AppEvent::NavigationBoundary { kind: BoundaryKind::LastPage }));
}

#[test]
fn undo_after_fifty_one_moves_restores_the_last_fifty_in_reverse() {
    let names: Vec<String> = (0..51).map(|i| format!("img{:02}.jpg", i)).collect();
    let mut disk = Disk::new(DIR);
    for n in &names {
        disk.write(&format!("{}/{}", DIR, n), "x");
    }
    let mut app = AppState::new(3);
    load(&mut app, &disk, DIR);

    let mut moved: Vec<String> = Vec::new();
    for _ in 0..51 {
        let events = act(&mut app, &mut disk, Action::Select);
        match &events[0] {
            AppEvent::FileMoved { from, .. } => moved.push(from.clone()),
            other => panic!("unexpected {:?}", other),
        }
    }
    assert_eq!(app.total_images(), 0);

    for k in (1..51).rev() {
        let events = undo(&mut app, &mut disk);
        match &events[0] {
            AppEvent::Undone { path, action } => {
                assert_eq!(path, &moved[k]);
                assert_eq!(*action, MoveAction::Select);
            }
            other => panic!("unexpected {:?}", other),
        }
        assert!(disk.has_file(&moved[k]));
    }
    let events = undo(&mut app, &mut disk);
    assert!(matches!(events.as_slice(), [AppEvent::UndoStackEmpty]));
    assert!(!disk.has_file(&moved[0]));
    assert!(disk.has_file(&format!("{}/selected/{}", DIR, file_name(&moved[0]))));
    assert_eq!(app.total_images(), 50);
    assert_eq!(app.stats(), LibraryStats { remaining: 50, selected: 1, rejected: 0 });
}

#[test]
fn build_page_state_matches_the_reported_page() {
    let disk = disk_with(&[("a.jpg", ""), ("b.jpg", ""), ("c.jpg", "")]);
    let mut app = AppState::new(2);
    load(&mut app, &disk, DIR);
    let events = app.next();
    let page = app.build_page_state();
    match &events[0] {
        AppEvent::PageChanged(reported) => {
            assert_eq!(reported.images, page.images);
            assert_eq!(reported.current_index, page.current_index);
            assert_eq!(reported.total, page.total);
            assert_eq!(reported.total_pages, page.total_pages);
            assert_eq!(reported.current_page, page.current_page);
            assert_eq!(reported.view_count, page.view_count);
        }
        other => panic!("unexpected {:?}", other),
    }
    assert_eq!(page.current_index, 2);
    assert_eq!(page.current_page, 1);
    assert_eq!(page.total_pages, 2);
    assert_eq!(page.images.len(), 1);
}
