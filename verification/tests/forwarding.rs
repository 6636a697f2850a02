use photo_selector_core::events::AppEvent;
use photo_selector_core::forwarding::throttle_scan_progress;

fn scan(total: usize) -> Vec<AppEvent> {
    let mut events = vec![AppEvent::ScanStarted { path: "/photos".to_string() }];
    for scanned in 1..=total {
        events.push(AppEvent::ScanProgress { scanned });
    }
    events.push(AppEvent::ScanComplete { total });
    events.push(AppEvent::LibraryEmpty);
    events
}

fn progress(events: &[AppEvent]) -> Vec<usize> {
    events
        .iter()
        .filter_map(|e| if let AppEvent::ScanProgress { scanned } = e { Some(*scanned) } else { None })
        .collect()
}

#[test]
fn keeps_first_last_and_every_tenth() {
    let out = throttle_scan_progress(scan(23));
    assert_eq!(progress(&out), vec![1, 10, 20, 23]);
    assert_eq!(out.len(), 4 + 3);
    assert!(matches!(out[0], AppEvent::ScanStarted { .. }));
    assert!(matches!(out.last(), Some(AppEvent::LibraryEmpty)));
}

#[test]
fn small_scans_are_forwarded_whole_at_the_ends() {
    assert_eq!(progress(&throttle_scan_progress(scan(3))), vec![1, 3]);
    assert_eq!(progress(&throttle_scan_progress(scan(1))), vec![1]);
    assert_eq!(progress(&throttle_scan_progress(scan(0))), Vec::<usize>::new());
}

#[test]
fn without_scan_complete_only_first_and_tenths_pass() {
    let events: Vec<AppEvent> = (1..=12).map(|scanned| AppEvent::ScanProgress { scanned }).collect();
    assert_eq!(progress(&throttle_scan_progress(events)), vec![1, 10]);
}
