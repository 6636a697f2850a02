//! Which events are worth forwarding to a user interface while a folder loads.
//!
//! A large folder produces one progress event per image; a user interface only
//! needs the first, the last and every tenth of them to animate its counter.

use vstd::prelude::*;

use crate::events::{events_view, AppEvent, EventView};

verus! {

/// Whether the progress event for the `scanned`-th image is forwarded: the
/// first, the last (the scan's total) and every tenth.
pub open spec fn forwards_progress(scanned: usize, total: usize) -> bool {
    scanned == 1 || scanned == total || scanned % 10 == 0
}

/// The total of the first `ScanComplete` event, or 0 when there is none.
pub open spec fn scan_total(events: Seq<EventView>) -> usize
    decreases events.len(),
{
    if events.len() == 0 {
        0
    } else {
        match events[0] {
            EventView::ScanComplete { total } => total,
            _ => scan_total(events.drop_first()),
        }
    }
}

/// Whether an event is forwarded when the scan found `total` images: every
/// event but the progress events that `forwards_progress` drops.
pub open spec fn is_forwarded(e: EventView, total: usize) -> bool {
    match e {
        EventView::ScanProgress { scanned } => forwards_progress(scanned, total),
        _ => true,
    }
}

/// The test "is forwarded for a scan of `total` images".
pub open spec fn forwarded_for(total: usize) -> spec_fn(EventView) -> bool {
    |e: EventView| is_forwarded(e, total)
}

/// The total of the first `ScanComplete` event in `events`, or 0.
fn find_scan_total(events: &Vec<AppEvent>) -> (total: usize)
    ensures
        total == scan_total(events_view(events@)),
{
    let mut i: usize = 0;
    assert(events_view(events@).skip(0) =~= events_view(events@));
    while i < events.len()
        invariant
            i <= events@.len(),
            scan_total(events_view(events@)) == scan_total(events_view(events@).skip(i as int)),
        decreases events@.len() - i,
    {
        let ghost rest = events_view(events@).skip(i as int);
        assert(rest[0] == events@[i as int]@);
        match &events[i] {
            AppEvent::ScanComplete { total } => {
                return *total;
            },
            _ => {},
        }
        assert(rest.drop_first() =~= events_view(events@).skip(i + 1));
        i = i + 1;
    }
    0
}

/// The events to forward after loading a folder: all of them, except that of
/// the progress events only the first, the last and every tenth are kept.
pub fn throttle_scan_progress(events: Vec<AppEvent>) -> (out: Vec<AppEvent>)
    ensures
        events_view(out@) == events_view(events@).filter(
            forwarded_for(scan_total(events_view(events@))),
        ),
        forall|e: EventView| #[trigger]
            events_view(out@).contains(e) <==> (events_view(events@).contains(e) && (match e {
                EventView::ScanProgress { scanned } => scanned == 1 || scanned == scan_total(
                    events_view(events@),
                ) || scanned % 10 == 0,
                _ => true,
            })),
{
    let total = find_scan_total(&events);
    let ghost all = events_view(events@);
    let ghost keep = forwarded_for(total);
    let mut rest = events;
    let mut out: Vec<AppEvent> = Vec::new();
    proof {
        assert(all.take(0) =~= Seq::<EventView>::empty());
        assert(events_view(rest@) =~= all.skip(0));
    }
    while rest.len() > 0
        invariant
            rest@.len() <= all.len(),
            events_view(rest@) == all.skip(all.len() - rest@.len()),
            events_view(out@) == all.take(all.len() - rest@.len()).filter(keep),
            keep == forwarded_for(total),
        decreases rest@.len(),
    {
        let ghost k = all.len() - rest@.len();
        let ghost before = out@;
        let ghost r0 = rest@;
        let e = rest.remove(0);
        proof {
            assert(events_view(r0)[0] == e@);
            assert(all.skip(k)[0] == all[k]);
            assert(e@ == all[k]);
            assert(events_view(rest@) =~= events_view(r0).skip(1));
            assert(all.skip(k).skip(1) =~= all.skip(k + 1));
            assert(events_view(rest@) =~= all.skip(k + 1));
            assert(all.take(k + 1) =~= all.take(k).push(e@));
            all.take(k).lemma_filter_push(e@, keep);
        }
        let forward = match &e {
            AppEvent::ScanProgress { scanned } => *scanned == 1 || *scanned == total || *scanned
                % 10 == 0,
            _ => true,
        };
        if forward {
            out.push(e);
            proof {
                assert(events_view(out@) =~= events_view(before).push(out@.last()@));
            }
        }
    }
    proof {
        assert(all.take(all.len() as int) =~= all);
        assert forall|e: EventView| #[trigger]
            events_view(out@).contains(e) <==> (all.contains(e) && (match e {
                EventView::ScanProgress { scanned } => scanned == 1 || scanned == scan_total(all)
                    || scanned % 10 == 0,
                _ => true,
            })) by {
            lemma_throttle_membership(all, e);
        }
    }
    out
}

/// The progress events a user interface receives: the first, the last (the
/// scan's total) and every one whose count is a multiple of ten; no other.
pub proof fn lemma_forwarded_progress(scanned: usize, total: usize)
    ensures
        scanned == 1 ==> forwards_progress(scanned, total),
        scanned == total ==> forwards_progress(scanned, total),
        scanned % 10 == 0 ==> forwards_progress(scanned, total),
        forwards_progress(scanned, total) ==> scanned == 1 || scanned == total || scanned % 10 == 0,
{
}

/// An event reaches the user interface exactly when it was emitted and is not
/// a progress event other than the first, the last or a multiple of ten.
pub proof fn lemma_throttle_membership(events: Seq<EventView>, e: EventView)
    ensures
        events.filter(forwarded_for(scan_total(events))).contains(e) <==> (events.contains(e) && (
        match e {
            EventView::ScanProgress { scanned } => scanned == 1 || scanned == scan_total(events)
                || scanned % 10 == 0,
            _ => true,
        })),
{
    let keep = forwarded_for(scan_total(events));
    let kept = events.filter(keep);
    if kept.contains(e) {
        events.lemma_filter_contains_rev(keep, e);
        let k = choose|k: int| 0 <= k < kept.len() && kept[k] == e;
        events.lemma_filter_pred(keep, k);
    }
    if events.contains(e) && keep(e) {
        let k = choose|k: int| 0 <= k < events.len() && events[k] == e;
        events.lemma_filter_contains(keep, k);
    }
}

} // verus!
