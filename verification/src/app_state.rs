//! The session state machine: the single entry point for every operation.
//!
//! Each operation reads or changes the session and reports what happened as a
//! list of events. Operations that need the disk are split in two: the first
//! half decides and says what to do on disk, the caller does it, and the second
//! half takes what the disk answered and finishes.

use vstd::prelude::*;

use crate::events::{
    events_view, AppEvent, BoundaryKind, EventView, MoveAction, PageState, PageStateView,
};
use crate::image_cache::{after_lookup, pending_view, Image, ImageCache, ImageLoadState, ImageView};
use crate::image_index::{
    is_arrangement_of, is_sorted_by, lemma_arrangement_unique, lemma_filter_keeps_sorted,
    lemma_order_facts, lemma_sorted_is_fixed_point, not_at, scanned_entries, tie_class, tie_pred,
    ties, FileInfo, ImageEntry, ImageIndex, SortOrder,
};
use crate::navigation::{next_index, prev_index, window_end, NavigationEngine};
use crate::stats::LibraryStats;
use crate::text::normal_form;
use crate::undo::{
    lemma_moves_by_bound, lemma_moves_by_pop, lemma_moves_by_pushed, moves_by, pushed, UndoEntry,
    UndoStack,
};
use vstd::arithmetic::div_mod::{
    lemma_div_is_ordered, lemma_fundamental_div_mod, lemma_mod_multiples_basic,
};
use vstd::arithmetic::mul::lemma_mul_inequality;

verus! {

/// How many moves the session can undo.
pub const UNDO_CAPACITY: usize = 50;

/// What the user wants done with an image.
#[derive(Debug, Clone, Copy, PartialEq, Eq, Structural)]
pub enum Action {
    Select,
    Reject,
}

/// A file move the session asks the caller to perform: move `source` into the
/// folder `subdir` next to it.
#[derive(Debug)]
pub struct MoveRequest {
    pub source: String,
    pub subdir: String,
    pub action: MoveAction,
}

/// What the caller found on disk about one image of the visible page.
#[derive(Debug, Clone, Copy)]
pub struct FileProbe {
    /// Whether the file still exists.
    pub present: bool,
    /// Its size in bytes, if it could be read.
    pub file_size: Option<u64>,
}

/// The first half of acting on an image: either nothing to do, or a move.
#[derive(Debug)]
pub enum ActStep {
    Finished(Vec<AppEvent>),
    Move(MoveRequest),
}

/// The first half of undo: either nothing to undo, or a move to reverse.
#[derive(Debug)]
pub enum UndoStep {
    Finished(Vec<AppEvent>),
    Restore(UndoEntry),
}

/// The move that an action performs.
pub open spec fn move_action_of(action: Action) -> MoveAction {
    match action {
        Action::Select => MoveAction::Select,
        Action::Reject => MoveAction::Reject,
    }
}

/// The folder, next to the images, that a move puts a file into.
pub open spec fn folder_of(action: MoveAction) -> Seq<char> {
    match action {
        MoveAction::Select => "selected"@,
        MoveAction::Reject => "rejected"@,
    }
}

/// The name of the folder that a move puts a file into: `selected` or `rejected`.
pub fn folder_name(action: MoveAction) -> (name: String)
    ensures
        name@ == folder_of(action),
{
    match action {
        MoveAction::Select => String::from_str("selected"),
        MoveAction::Reject => String::from_str("rejected"),
    }
}

/// The metadata shown for an index entry: the cached metadata if there is
/// some, else a pending image carrying the size recorded at scan time.
pub open spec fn shown_image(cache: Map<Seq<char>, ImageView>, e: ImageEntry) -> ImageView {
    if cache.contains_key(normal_form(e.path@)) {
        cache[normal_form(e.path@)]
    } else {
        pending_view(e.path@, Some(e.file_size))
    }
}

/// How many pages `total` images fill at `view_count` per page; an empty
/// library still has one (empty) page.
pub open spec fn pages_needed(total: nat, view_count: nat) -> nat {
    if total == 0 {
        1
    } else {
        total / view_count + if total % view_count == 0 {
            0nat
        } else {
            1nat
        }
    }
}

/// The cursor after clamping: on an empty library it is 0; otherwise it is at
/// most the start of the last full page boundary, `((total - 1) / view_count) * view_count`.
pub open spec fn clamped_index(current: nat, total: nat, view_count: nat) -> nat {
    if total == 0 {
        0
    } else if current > ((total - 1) as nat / view_count) * view_count {
        ((total - 1) as nat / view_count) * view_count
    } else {
        current
    }
}

/// The start of the page, at `view_count` images per page, that holds the
/// image at `index`.
pub open spec fn page_start(index: nat, view_count: nat) -> nat {
    (index / view_count) * view_count
}

/// `PageChanged` with the page, or `LibraryEmpty` when no image is left.
pub open spec fn page_or_empty(total: nat, page: PageStateView) -> EventView {
    if total == 0 {
        EventView::LibraryEmpty
    } else {
        EventView::PageChanged(page)
    }
}

/// The events of a scan that found `n` images in `dir`: started, one progress
/// event per image counting up from 1, complete, loaded.
pub open spec fn scan_events(dir: Seq<char>, n: nat) -> Seq<EventView> {
    seq![EventView::ScanStarted { path: dir }] + Seq::new(
        n,
        |i: int| EventView::ScanProgress { scanned: (i + 1) as usize },
    ) + seq![
        EventView::ScanComplete { total: n as usize },
        EventView::DirectoryLoaded { path: dir, total: n as usize },
    ]
}

/// The cache after checking the visible page against the disk, entry by entry:
/// an existing file gets a pending entry with the probed size if it has none;
/// a vanished file loses its entry.
pub open spec fn sweep_cache(
    cache: Map<Seq<char>, ImageView>,
    page: Seq<ImageEntry>,
    probes: Seq<FileProbe>,
) -> Map<Seq<char>, ImageView>
    decreases page.len(),
{
    if page.len() == 0 {
        cache
    } else {
        let before = sweep_cache(cache, page.drop_last(), probes);
        let p = page.last().path@;
        let probe = probes[page.len() - 1];
        if probe.present {
            after_lookup(before, p, probe.file_size)
        } else {
            before.remove(normal_form(p))
        }
    }
}

/// The images returned for the visible page: for each entry whose file exists,
/// its cached metadata right after that entry was checked.
pub open spec fn sweep_images(
    cache: Map<Seq<char>, ImageView>,
    page: Seq<ImageEntry>,
    probes: Seq<FileProbe>,
) -> Seq<ImageView>
    decreases page.len(),
{
    if page.len() == 0 {
        Seq::empty()
    } else {
        let before = sweep_images(cache, page.drop_last(), probes);
        if probes[page.len() - 1].present {
            before.push(sweep_cache(cache, page, probes)[normal_form(page.last().path@)])
        } else {
            before
        }
    }
}

/// The paths of the visible entries whose files vanished, in page order.
pub open spec fn stale_paths(page: Seq<ImageEntry>, probes: Seq<FileProbe>) -> Seq<Seq<char>>
    decreases page.len(),
{
    if page.len() == 0 {
        Seq::empty()
    } else {
        let before = stale_paths(page.drop_last(), probes);
        if probes[page.len() - 1].present {
            before
        } else {
            before.push(page.last().path@)
        }
    }
}

/// The test for "is not stored at any of `paths`" (comparing components).
pub open spec fn not_in(paths: Seq<Seq<char>>) -> spec_fn(ImageEntry) -> bool {
    |e: ImageEntry|
        forall|i: int| 0 <= i < paths.len() ==> normal_form(#[trigger] paths[i]) != normal_form(e.path@)
}

/// The `StaleEntryRemoved` events for the given paths.
pub open spec fn stale_events(paths: Seq<Seq<char>>) -> Seq<EventView> {
    paths.map_values(|p: Seq<char>| EventView::StaleEntryRemoved { path: p })
}

/// A move counter after one more move (it cannot pass `usize::MAX`).
pub open spec fn count_up(n: usize) -> usize {
    if n < usize::MAX {
        (n + 1) as usize
    } else {
        n
    }
}

/// 1 when `restoring` is a move made by `action`, else 0.
pub open spec fn pending_by(restoring: Option<UndoEntry>, action: MoveAction) -> int {
    match restoring {
        Some(e) => if e.action == action {
            1
        } else {
            0
        },
        None => 0,
    }
}

/// The session: image index, page cursor, metadata cache, undo history and the
/// folder currently loaded.
pub struct AppState {
    index: ImageIndex,
    nav: NavigationEngine,
    cache: ImageCache,
    undo_stack: UndoStack,
    base_dir: Option<String>,
    /// Images moved to `selected/` since the folder was loaded.
    selected_moves: usize,
    /// Images moved to `rejected/` since the folder was loaded.
    rejected_moves: usize,
    /// The move that `undo` handed out and `complete_undo` has not yet finished.
    restoring: Ghost<Option<UndoEntry>>,
}

impl AppState {
    /// The images of the library, in display order.
    pub closed spec fn entries(&self) -> Seq<ImageEntry> {
        self.index.images@
    }

    /// The order the library is sorted in.
    pub closed spec fn order(&self) -> SortOrder {
        self.index.sort_order
    }

    /// The index of the first visible image.
    pub closed spec fn current_index(&self) -> nat {
        self.nav.current_index as nat
    }

    /// How many images a page shows.
    pub closed spec fn view_count(&self) -> nat {
        self.nav.view_count as nat
    }

    /// The cached metadata, by path.
    pub closed spec fn cached(&self) -> Map<Seq<char>, ImageView> {
        self.cache@
    }

    /// The undoable moves, oldest first.
    pub closed spec fn history(&self) -> Seq<UndoEntry> {
        self.undo_stack@
    }

    /// The folder currently loaded, if any.
    pub closed spec fn loaded_dir(&self) -> Option<Seq<char>> {
        match self.base_dir {
            Some(d) => Some(d@),
            None => None,
        }
    }

    /// How many images were moved to `selected/` since the folder was loaded
    /// (moves undone are taken back).
    pub closed spec fn moved_selected(&self) -> usize {
        self.selected_moves
    }

    /// How many images were moved to `rejected/` since the folder was loaded
    /// (moves undone are taken back).
    pub closed spec fn moved_rejected(&self) -> usize {
        self.rejected_moves
    }

    /// The move that `undo` handed to the caller to reverse, until
    /// `complete_undo` reports it done.
    pub closed spec fn restoring(&self) -> Option<UndoEntry> {
        self.restoring@
    }

    /// The session's invariant.
    pub closed spec fn wf(&self) -> bool {
        &&& self.nav.view_count > 0
        &&& self.index.images@.len() == 0 ==> self.nav.current_index == 0
        &&& self.index.images@.len() > 0 ==> self.nav.current_index < self.index.images@.len()
        &&& self.nav.current_index % self.nav.view_count == 0
        &&& is_sorted_by(self.index.sort_order, self.index.images@)
        &&& self.cache.wf()
        &&& self.undo_stack.wf()
        &&& self.undo_stack.capacity() == UNDO_CAPACITY
        &&& self.base_dir is None ==> {
            &&& self.index.images@.len() == 0
            &&& self.undo_stack@.len() == 0
            &&& self.selected_moves == 0
            &&& self.rejected_moves == 0
            &&& self.restoring@ is None
        }
        &&& moves_by(self.undo_stack@, MoveAction::Select) + pending_by(
            self.restoring@,
            MoveAction::Select,
        ) <= self.selected_moves
        &&& moves_by(self.undo_stack@, MoveAction::Reject) + pending_by(
            self.restoring@,
            MoveAction::Reject,
        ) <= self.rejected_moves
    }

    /// What the invariant guarantees: pages hold at least one image; the cursor
    /// is inside a non-empty library (and 0 in an empty one), at the start of a
    /// page (a multiple of the page size); the library is sorted in its order;
    /// at most `UNDO_CAPACITY` moves are remembered; with no folder loaded there
    /// are no images, no history and no moves counted; and each counter covers
    /// the remembered moves of its kind, with the one being undone.
    pub proof fn lemma_wf(&self)
        requires
            self.wf(),
        ensures
            self.view_count() > 0,
            self.entries().len() == 0 ==> self.current_index() == 0,
            self.entries().len() > 0 ==> self.current_index() < self.entries().len(),
            is_sorted_by(self.order(), self.entries()),
            self.history().len() <= UNDO_CAPACITY,
            self.view_count() <= usize::MAX,
            self.current_index() <= usize::MAX,
            self.entries().len() <= usize::MAX,
            self.current_index() % self.view_count() == 0,
            self.loaded_dir() is None ==> {
                &&& self.entries().len() == 0
                &&& self.history().len() == 0
                &&& self.moved_selected() == 0
                &&& self.moved_rejected() == 0
                &&& self.restoring() is None
            },
            moves_by(self.history(), MoveAction::Select) + pending_by(
                self.restoring(),
                MoveAction::Select,
            ) <= self.moved_selected(),
            moves_by(self.history(), MoveAction::Reject) + pending_by(
                self.restoring(),
                MoveAction::Reject,
            ) <= self.moved_rejected(),
    {
        assert(self.index.images.len() == self.index.images@.len());
    }

    /// Every page snapshot is consistent: it shows `min(view_count, total -
    /// current_index)` images, its page number is below the page count, its
    /// cursor is where that page starts (`current_page * view_count`), and the
    /// cursor is inside a non-empty library (and 0 in an empty one).
    pub proof fn lemma_page_view_consistent(&self)
        requires
            self.wf(),
        ensures
            self.page_view().view_count > 0,
            self.page_view().images.len() == if self.page_view().view_count
                <= self.page_view().total - self.page_view().current_index {
                self.page_view().view_count as int
            } else {
                self.page_view().total - self.page_view().current_index
            },
            self.page_view().current_page < self.page_view().total_pages,
            self.page_view().current_index == self.page_view().current_page
                * self.page_view().view_count,
            self.page_view().total > 0 ==> self.page_view().current_index
                < self.page_view().total,
            self.page_view().total == 0 ==> self.page_view().current_index == 0,
    {
        self.lemma_wf();
        let ci = self.current_index() as int;
        let vc = self.view_count() as int;
        let total = self.entries().len() as int;
        assert(self.page_entries().len() == window_end(ci as nat, vc as nat, total as nat) - ci);
        lemma_aligned(ci, vc);
        if total > 0 {
            lemma_page_bounds(ci, total, vc);
            lemma_floor_multiple(ci, vc);
        }
    }

    /// Everything but the cursor is the same in `self` and `other`.
    pub open spec fn same_contents(&self, other: &AppState) -> bool {
        &&& self.entries() == other.entries()
        &&& self.order() == other.order()
        &&& self.view_count() == other.view_count()
        &&& self.cached() == other.cached()
        &&& self.history() == other.history()
        &&& self.loaded_dir() == other.loaded_dir()
        &&& self.moved_selected() == other.moved_selected()
        &&& self.moved_rejected() == other.moved_rejected()
        &&& self.restoring() == other.restoring()
    }

    /// The visible entries: the window of at most `view_count` entries starting
    /// at the cursor.
    pub open spec fn page_entries(&self) -> Seq<ImageEntry> {
        self.entries().subrange(
            self.current_index() as int,
            window_end(self.current_index(), self.view_count(), self.entries().len()) as int,
        )
    }

    /// The snapshot of the visible page.
    pub open spec fn page_view(&self) -> PageStateView {
        PageStateView {
            images: self.page_entries().map_values(|e: ImageEntry| shown_image(self.cached(), e)),
            current_index: self.current_index() as usize,
            total: self.entries().len() as usize,
            total_pages: pages_needed(self.entries().len(), self.view_count()) as usize,
            current_page: (self.current_index() / self.view_count()) as usize,
            view_count: self.view_count() as usize,
        }
    }

    /// The session counters: images left in the library, and images moved to
    /// `selected/` and to `rejected/` since the folder was loaded.
    pub open spec fn stats_with(&self) -> LibraryStats {
        LibraryStats {
            remaining: self.entries().len() as usize,
            selected: self.moved_selected(),
            rejected: self.moved_rejected(),
        }
    }

    /// A fresh session with no folder loaded, showing `view_count` images per page.
    pub fn new(view_count: usize) -> (state: Self)
        requires
            view_count > 0,
        ensures
            state.wf(),
            state.entries() == Seq::<ImageEntry>::empty(),
            state.order() == SortOrder::NameAsc,
            state.current_index() == 0,
            state.view_count() == view_count,
            state.cached() == Map::<Seq<char>, ImageView>::empty(),
            state.history() == Seq::<UndoEntry>::empty(),
            state.loaded_dir() is None,
            state.moved_selected() == 0,
            state.moved_rejected() == 0,
            state.restoring() is None,
    {
        proof {
            lemma_moves_by_bound(Seq::<UndoEntry>::empty(), MoveAction::Select);
            lemma_moves_by_bound(Seq::<UndoEntry>::empty(), MoveAction::Reject);
        }
        AppState {
            index: ImageIndex::new(),
            nav: NavigationEngine::new(view_count),
            cache: ImageCache::new(),
            undo_stack: UndoStack::new(UNDO_CAPACITY),
            base_dir: None,
            selected_moves: 0,
            rejected_moves: 0,
            restoring: Ghost(None),
        }
    }

    // ── Private helpers ────────────────────────────────────────────────────

    fn clamp_nav(&mut self)
        requires
            old(self).nav.view_count > 0,
        ensures
            final(self).nav.current_index == clamped_index(
                old(self).nav.current_index as nat,
                old(self).index.images@.len(),
                old(self).nav.view_count as nat,
            ),
            final(self).nav.view_count == old(self).nav.view_count,
            final(self).index == old(self).index,
            final(self).cache == old(self).cache,
            final(self).undo_stack == old(self).undo_stack,
            final(self).base_dir == old(self).base_dir,
            final(self).selected_moves == old(self).selected_moves,
            final(self).rejected_moves == old(self).rejected_moves,
            final(self).restoring == old(self).restoring,
            final(self).index.images@.len() > 0 ==> final(self).nav.current_index
                < final(self).index.images@.len(),
            final(self).index.images@.len() == 0 ==> final(self).nav.current_index == 0,
            old(self).nav.current_index % old(self).nav.view_count == 0
                ==> final(self).nav.current_index % final(self).nav.view_count == 0,
    {
        let total = self.index.images.len();
        let page = self.nav.view_count;
        if total == 0 {
            self.nav.current_index = 0;
        } else {
            proof {
                lemma_floor_multiple((total - 1) as int, page as int);
                lemma_page_starts((total - 1) as int / page as int, page as int);
            }
            let max_page_start = ((total - 1) / page) * page;
            if self.nav.current_index > max_page_start {
                self.nav.current_index = max_page_start;
            }
        }
    }

    fn image_at(&self, view_index: usize) -> (entry: Option<&ImageEntry>)
        requires
            self.wf(),
        ensures
            match entry {
                Some(e) => view_index < self.page_entries().len() && *e
                    == self.page_entries()[view_index as int],
                None => view_index >= self.page_entries().len(),
            },
    {
        let total = self.index.images.len();
        let (start, end) = self.nav.range(total);
        if view_index < end - start {
            Some(&self.index.images[start + view_index])
        } else {
            None
        }
    }

    /// The snapshot of the visible page. It shows `min(view_count, total -
    /// current_index)` images, its cursor is where its page starts, its page
    /// number is below the page count, and its cursor is inside a non-empty
    /// library (0 in an empty one).
    pub fn build_page_state(&self) -> (page: PageState)
        requires
            self.wf(),
        ensures
            page@ == self.page_view(),
            page.view_count > 0,
            page.images@.len() == if page.view_count <= page.total - page.current_index {
                page.view_count as int
            } else {
                page.total - page.current_index
            },
            page.current_index == page.current_page * page.view_count,
            page.current_page < page.total_pages,
            page.total > 0 ==> page.current_index < page.total,
            page.total == 0 ==> page.current_index == 0,
    {
        let total = self.index.images.len();
        let view_count = self.nav.view_count;
        let (start, end) = self.nav.range(total);
        let ghost window = self.page_entries();
        let mut images: Vec<Image> = Vec::new();
        let mut k: usize = start;
        while k < end
            invariant
                self.wf(),
                total == self.index.images@.len(),
                start == self.nav.current_index,
                end == window_end(start as nat, self.nav.view_count as nat, total as nat),
                start <= end <= total,
                start <= k <= end,
                window == self.page_entries(),
                images@.map_values(|img: Image| img@) == window.take(k - start).map_values(
                    |e: ImageEntry| shown_image(self.cached(), e),
                ),
            decreases end - k,
        {
            let e = &self.index.images[k];
            let img = match self.cache.get_cached(e.path.as_str()) {
                Some(found) => found.clone(),
                None => Image {
                    path: e.path.clone(),
                    dimensions: None,
                    file_size: Some(e.file_size),
                    date_taken: None,
                    load_state: ImageLoadState::Pending,
                },
            };
            proof {
                assert(window[k - start] == *e);
                assert(window.take(k - start + 1) =~= window.take(k - start).push(*e));
                assert(img@ == shown_image(self.cached(), *e));
            }
            let ghost prev = images@;
            images.push(img);
            proof {
                let f = |e: ImageEntry| shown_image(self.cached(), e);
                let g = |img: Image| img@;
                assert(images@.map_values(g) =~= prev.map_values(g).push(g(img)));
                assert(window.take(k - start + 1).map_values(f) =~= window.take(
                    k - start,
                ).map_values(f).push(f(*e)));
            }
            k = k + 1;
        }
        proof {
            assert(window.take(end - start) =~= window);
        }
        proof {
            if total > 0 {
                lemma_partial_page(total as int, view_count as int);
            }
        }
        let total_pages = if total == 0 {
            1
        } else {
            total / view_count + if total % view_count == 0 {
                0
            } else {
                1
            }
        };
        let page = PageState {
            images,
            current_index: self.nav.current_index,
            total,
            total_pages,
            current_page: self.nav.current_index / view_count,
            view_count,
        };
        proof {
            self.lemma_page_view_consistent();
            assert(page.images@.len() == page@.images.len());
        }
        page
    }

    fn build_stats(&self) -> (stats: LibraryStats)
        ensures
            stats == self.stats_with(),
    {
        LibraryStats {
            remaining: self.index.images.len(),
            selected: self.selected_moves,
            rejected: self.rejected_moves,
        }
    }

    // ── Directory loading ──────────────────────────────────────────────────

    /// Load a folder, given its listing. The cursor returns to the first page,
    /// the undo history is cleared and the move counters restart at zero; the
    /// library becomes the listing's images, sorted.
    /// Reports the scan (started, one progress event per image, complete),
    /// `DirectoryLoaded`, then the first page (or `LibraryEmpty`) and the counters.
    pub fn load_dir(
        &mut self,
        dir: String,
        listing: Vec<FileInfo>,
    ) -> (events: Vec<AppEvent>)
        requires
            old(self).wf(),
        ensures
            final(self).wf(),
            is_arrangement_of(old(self).order(), final(self).entries(), scanned_entries(listing@)),
            final(self).order() == old(self).order(),
            final(self).current_index() == 0,
            final(self).view_count() == old(self).view_count(),
            final(self).cached() == old(self).cached(),
            final(self).history() == Seq::<UndoEntry>::empty(),
            final(self).loaded_dir() == Some(dir@),
            final(self).moved_selected() == 0,
            final(self).moved_rejected() == 0,
            final(self).restoring() is None,
            events_view(events@) == scan_events(dir@, final(self).entries().len()) + seq![
                page_or_empty(final(self).entries().len(), final(self).page_view()),
                EventView::StatsChanged(final(self).stats_with()),
            ],
    {
        self.nav.current_index = 0;
        self.undo_stack.clear();
        self.selected_moves = 0;
        self.rejected_moves = 0;
        self.restoring = Ghost(None);
        proof {
            lemma_moves_by_bound(self.undo_stack@, MoveAction::Select);
            lemma_moves_by_bound(self.undo_stack@, MoveAction::Reject);
        }
        let mut events: Vec<AppEvent> = Vec::new();
        events.push(AppEvent::ScanStarted { path: dir.clone() });
        self.index.scan_dir(&listing);
        let total = self.index.images.len();
        let ghost head = events_view(events@);
        let mut scanned: usize = 0;
        while scanned < total
            invariant
                scanned <= total,
                events_view(events@) == head + Seq::new(
                    scanned as nat,
                    |i: int| EventView::ScanProgress { scanned: (i + 1) as usize },
                ),
            decreases total - scanned,
        {
            let ghost before = events@;
            scanned = scanned + 1;
            events.push(AppEvent::ScanProgress { scanned });
            proof {
                assert(events_view(events@) =~= events_view(before).push(
                    EventView::ScanProgress { scanned },
                ));
                assert(events_view(events@) =~= head + Seq::new(
                    scanned as nat,
                    |i: int| EventView::ScanProgress { scanned: (i + 1) as usize },
                ));
            }
        }
        let ghost before = events@;
        events.push(AppEvent::ScanComplete { total });
        events.push(AppEvent::DirectoryLoaded { path: dir.clone(), total });
        self.base_dir = Some(dir);
        let ghost mid = events@;
        if total == 0 {
            events.push(AppEvent::LibraryEmpty);
        } else {
            let page = self.build_page_state();
            events.push(AppEvent::PageChanged(page));
        }
        let stats = self.build_stats();
        events.push(AppEvent::StatsChanged(stats));
        proof {
            assert(events_view(mid) =~= events_view(before) + seq![
                EventView::ScanComplete { total: total as usize },
                EventView::DirectoryLoaded { path: self.loaded_dir().unwrap(), total: total as usize },
            ]);
            assert(events_view(events@) =~= events_view(mid) + seq![
                page_or_empty(self.entries().len(), self.page_view()),
                EventView::StatsChanged(self.stats_with()),
            ]);
            assert(events_view(events@) =~= scan_events(dir@, self.entries().len()) + seq![
                page_or_empty(self.entries().len(), self.page_view()),
                EventView::StatsChanged(self.stats_with()),
            ]);
        }
        events
    }

    // ── Navigation ─────────────────────────────────────────────────────────

    /// Show the next page. On the last page nothing moves and the event is
    /// `NavigationBoundary { LastPage }`; otherwise it is the new page.
    pub fn next(&mut self) -> (events: Vec<AppEvent>)
        requires
            old(self).wf(),
        ensures
            final(self).wf(),
            final(self).same_contents(old(self)),
            final(self).current_index() == next_index(
                old(self).current_index(),
                old(self).view_count(),
                old(self).entries().len(),
            ),
            events_view(events@) == if final(self).current_index() == old(self).current_index() {
                seq![EventView::NavigationBoundary { kind: BoundaryKind::LastPage }]
            } else {
                seq![EventView::PageChanged(final(self).page_view())]
            },
    {
        let total = self.index.images.len();
        let before = self.nav.current_index;
        proof {
            lemma_aligned(before as int, self.nav.view_count as int);
            lemma_page_starts(before as int / self.nav.view_count as int, self.nav.view_count as int);
        }
        self.nav.next(total);
        let mut events: Vec<AppEvent> = Vec::new();
        if self.nav.current_index == before {
            events.push(AppEvent::NavigationBoundary { kind: BoundaryKind::LastPage });
        } else {
            let page = self.build_page_state();
            events.push(AppEvent::PageChanged(page));
        }
        assert(events_view(events@) =~= if self.current_index() == before {
            seq![EventView::NavigationBoundary { kind: BoundaryKind::LastPage }]
        } else {
            seq![EventView::PageChanged(self.page_view())]
        });
        events
    }

    /// Show the previous page. On the first page nothing moves and the event is
    /// `NavigationBoundary { FirstPage }`; otherwise it is the new page.
    pub fn prev(&mut self) -> (events: Vec<AppEvent>)
        requires
            old(self).wf(),
        ensures
            final(self).wf(),
            final(self).same_contents(old(self)),
            final(self).current_index() == prev_index(
                old(self).current_index(),
                old(self).view_count(),
            ),
            events_view(events@) == if final(self).current_index() == old(self).current_index() {
                seq![EventView::NavigationBoundary { kind: BoundaryKind::FirstPage }]
            } else {
                seq![EventView::PageChanged(final(self).page_view())]
            },
    {
        let before = self.nav.current_index;
        proof {
            lemma_aligned(before as int, self.nav.view_count as int);
            lemma_page_starts(before as int / self.nav.view_count as int, self.nav.view_count as int);
            lemma_page_starts(0, self.nav.view_count as int);
        }
        self.nav.prev();
        let mut events: Vec<AppEvent> = Vec::new();
        if self.nav.current_index == before {
            events.push(AppEvent::NavigationBoundary { kind: BoundaryKind::FirstPage });
        } else {
            let page = self.build_page_state();
            events.push(AppEvent::PageChanged(page));
        }
        assert(events_view(events@) =~= if self.current_index() == before {
            seq![EventView::NavigationBoundary { kind: BoundaryKind::FirstPage }]
        } else {
            seq![EventView::PageChanged(self.page_view())]
        });
        events
    }

    // ── View count ─────────────────────────────────────────────────────────

    /// Show `count` images per page. The cursor moves to the start of the page,
    /// at the new size, that holds the first image visible before. Reports
    /// `ViewCountChanged` and the page.
    pub fn set_view_count(&mut self, count: usize) -> (events: Vec<AppEvent>)
        requires
            old(self).wf(),
            count > 0,
        ensures
            final(self).wf(),
            final(self).entries() == old(self).entries(),
            final(self).order() == old(self).order(),
            final(self).cached() == old(self).cached(),
            final(self).history() == old(self).history(),
            final(self).loaded_dir() == old(self).loaded_dir(),
            final(self).moved_selected() == old(self).moved_selected(),
            final(self).moved_rejected() == old(self).moved_rejected(),
            final(self).restoring() == old(self).restoring(),
            final(self).view_count() == count,
            final(self).current_index() == page_start(old(self).current_index(), count as nat),
            final(self).current_index() % (count as nat) == 0,
            final(self).current_index() <= old(self).current_index() < final(self).current_index()
                + count,
            events_view(events@) == seq![
                EventView::ViewCountChanged { view_count: count },
                EventView::PageChanged(final(self).page_view()),
            ],
    {
        let ci = self.nav.current_index;
        proof {
            lemma_floor_multiple(ci as int, count as int);
            lemma_page_starts(ci as int / count as int, count as int);
        }
        self.nav.view_count = count;
        self.nav.current_index = (ci / count) * count;
        proof {
            lemma_page_start_keeps_image(ci as nat, count as nat);
        }
        let mut events: Vec<AppEvent> = Vec::new();
        events.push(AppEvent::ViewCountChanged { view_count: count });
        let page = self.build_page_state();
        events.push(AppEvent::PageChanged(page));
        assert(events_view(events@) =~= seq![
            EventView::ViewCountChanged { view_count: count },
            EventView::PageChanged(self.page_view()),
        ]);
        events
    }

    // ── Sort order ─────────────────────────────────────────────────────────

    /// Re-sort the library in `order` and return to the first page, reporting
    /// `SortChanged` and the page. When the library is already in that order
    /// nothing changes and nothing is reported.
    pub fn set_sort_order(&mut self, order: SortOrder) -> (events: Vec<AppEvent>)
        requires
            old(self).wf(),
        ensures
            final(self).wf(),
            order == old(self).order() ==> {
                &&& final(self).same_contents(old(self))
                &&& final(self).current_index() == old(self).current_index()
                &&& events@.len() == 0
            },
            order != old(self).order() ==> {
                &&& is_arrangement_of(order, final(self).entries(), old(self).entries())
                &&& final(self).order() == order
                &&& final(self).current_index() == 0
                &&& final(self).view_count() == old(self).view_count()
                &&& final(self).cached() == old(self).cached()
                &&& final(self).history() == old(self).history()
                &&& final(self).loaded_dir() == old(self).loaded_dir()
                &&& final(self).moved_selected() == old(self).moved_selected()
                &&& final(self).moved_rejected() == old(self).moved_rejected()
                &&& final(self).restoring() == old(self).restoring()
                &&& events_view(events@) == seq![
                    EventView::SortChanged { order },
                    EventView::PageChanged(final(self).page_view()),
                ]
            },
    {
        let mut events: Vec<AppEvent> = Vec::new();
        let ghost before = self.index.images@;
        if !self.index.set_sort_order(order) {
            return events;
        }
        proof {
            broadcast use vstd::seq_lib::group_to_multiset_ensures;

            assert(self.index.images@.len() == self.index.images@.to_multiset().len());
            assert(before.len() == before.to_multiset().len());
        }
        self.nav.current_index = 0;
        events.push(AppEvent::SortChanged { order });
        let page = self.build_page_state();
        events.push(AppEvent::PageChanged(page));
        assert(events_view(events@) =~= seq![
            EventView::SortChanged { order },
            EventView::PageChanged(self.page_view()),
        ]);
        events
    }

    // ── Actions ────────────────────────────────────────────────────────────

    /// Act on the first visible image; see `act_on_current_at`.
    pub fn act_on_current(&self, action: Action) -> (step: ActStep)
        requires
            self.wf(),
        ensures
            match step {
                ActStep::Finished(events) => self.page_entries().len() == 0 && events@.len() == 0,
                ActStep::Move(request) => {
                    &&& self.page_entries().len() > 0
                    &&& request.source@ == self.page_entries()[0].path@
                    &&& request.action == move_action_of(action)
                    &&& request.subdir@ == folder_of(request.action)
                },
            },
    {
        self.act_on_current_at(action, 0)
    }

    /// First half of selecting or rejecting the image at `view_index` on the
    /// visible page: when there is no such image there is nothing to do and no
    /// event; otherwise the caller is asked to move the file into `selected/`
    /// or `rejected/` next to it, and to report back with `complete_move`.
    pub fn act_on_current_at(&self, action: Action, view_index: usize) -> (step: ActStep)
        requires
            self.wf(),
        ensures
            match step {
                ActStep::Finished(events) => view_index >= self.page_entries().len()
                    && events@.len() == 0,
                ActStep::Move(request) => {
                    &&& view_index < self.page_entries().len()
                    &&& request.source@ == self.page_entries()[view_index as int].path@
                    &&& request.action == move_action_of(action)
                    &&& request.subdir@ == folder_of(request.action)
                },
            },
    {
        let source = match self.image_at(view_index) {
            Some(entry) => entry.path.clone(),
            None => return ActStep::Finished(Vec::new()),
        };
        let action = match action {
            Action::Select => MoveAction::Select,
            Action::Reject => MoveAction::Reject,
        };
        ActStep::Move(MoveRequest { source, subdir: folder_name(action), action })
    }

    /// Second half of an action, once the caller has moved `request.source` to
    /// `dest`: the move is recorded for undo and counted for its folder, the
    /// image leaves the library and the cache, and the cursor is clamped. Reports `FileMoved`, then the page
    /// (or `LibraryEmpty`) and the counters.
    pub fn complete_move(
        &mut self,
        request: MoveRequest,
        dest: String,
    ) -> (events: Vec<AppEvent>)
        requires
            old(self).wf(),
            exists|i: int|
                0 <= i < old(self).page_entries().len() && (#[trigger] old(
                    self,
                ).page_entries()[i]).path@ == request.source@,
            request.subdir@ == folder_of(request.action),
        ensures
            final(self).wf(),
            final(self).history() == pushed(
                old(self).history(),
                UNDO_CAPACITY as nat,
                UndoEntry { current_path: dest, original_path: request.source, action: request.action },
            ),
            final(self).entries() == old(self).entries().filter(not_at(request.source@)),
            final(self).cached() == old(self).cached().remove(normal_form(request.source@)),
            final(self).order() == old(self).order(),
            final(self).view_count() == old(self).view_count(),
            final(self).loaded_dir() == old(self).loaded_dir(),
            final(self).moved_selected() == if request.action == MoveAction::Select {
                count_up(old(self).moved_selected())
            } else {
                old(self).moved_selected()
            },
            final(self).moved_rejected() == if request.action == MoveAction::Reject {
                count_up(old(self).moved_rejected())
            } else {
                old(self).moved_rejected()
            },
            final(self).restoring() == old(self).restoring(),
            final(self).current_index() == clamped_index(
                old(self).current_index(),
                final(self).entries().len(),
                old(self).view_count(),
            ),
            final(self).current_index() <= old(self).current_index(),
            final(self).current_index() < old(self).current_index() ==> final(self).entries().len()
                <= final(self).current_index() + final(self).view_count(),
            old(self).current_index() < final(self).entries().len() ==> final(self).current_index()
                == old(self).current_index(),
            events_view(events@) == seq![
                EventView::FileMoved { from: request.source@, to: dest@, action: request.action },
                page_or_empty(final(self).entries().len(), final(self).page_view()),
                EventView::StatsChanged(final(self).stats_with()),
            ],
    {
        let MoveRequest { source, subdir: _, action } = request;
        let ghost history = self.undo_stack@;
        let ghost entry = UndoEntry {
            current_path: dest,
            original_path: source,
            action,
        };
        proof {
            lemma_moves_by_pushed(history, UNDO_CAPACITY as nat, entry, MoveAction::Select);
            lemma_moves_by_pushed(history, UNDO_CAPACITY as nat, entry, MoveAction::Reject);
            lemma_moves_by_bound(pushed(history, UNDO_CAPACITY as nat, entry), MoveAction::Select);
            lemma_moves_by_bound(pushed(history, UNDO_CAPACITY as nat, entry), MoveAction::Reject);
        }
        self.undo_stack.push(
            UndoEntry { current_path: dest.clone(), original_path: source.clone(), action },
        );
        self.index.remove_by_path(source.as_str());
        self.cache.remove(source.as_str());
        match action {
            MoveAction::Select => self.selected_moves = self.selected_moves.saturating_add(1),
            MoveAction::Reject => self.rejected_moves = self.rejected_moves.saturating_add(1),
        }
        proof {
            lemma_filter_keeps_sorted(
                self.index.sort_order,
                old(self).index.images@,
                not_at(source@),
            );
        }
        proof {
            lemma_clamp_lands_on_last_page(
                self.nav.current_index as nat,
                self.index.images@.len(),
                self.nav.view_count as nat,
            );
        }
        self.clamp_nav();
        let mut events: Vec<AppEvent> = Vec::new();
        events.push(AppEvent::FileMoved { from: source, to: dest, action });
        if self.index.images.len() == 0 {
            events.push(AppEvent::LibraryEmpty);
        } else {
            let page = self.build_page_state();
            events.push(AppEvent::PageChanged(page));
        }
        let stats = self.build_stats();
        events.push(AppEvent::StatsChanged(stats));
        assert(events_view(events@) =~= seq![
            EventView::FileMoved { from: request.source@, to: dest@, action: request.action },
            page_or_empty(self.entries().len(), self.page_view()),
            EventView::StatsChanged(self.stats_with()),
        ]);
        events
    }

    // ── Undo ───────────────────────────────────────────────────────────────

    /// First half of undo: take the most recent move off the history. With
    /// nothing to undo, nothing changes and the event is `UndoStackEmpty`;
    /// otherwise the caller is asked to move the file back from
    /// `current_path` to `original_path` and to report with `complete_undo`.
    pub fn undo(&mut self) -> (step: UndoStep)
        requires
            old(self).wf(),
        ensures
            final(self).wf(),
            final(self).entries() == old(self).entries(),
            final(self).order() == old(self).order(),
            final(self).current_index() == old(self).current_index(),
            final(self).view_count() == old(self).view_count(),
            final(self).cached() == old(self).cached(),
            final(self).loaded_dir() == old(self).loaded_dir(),
            final(self).moved_selected() == old(self).moved_selected(),
            final(self).moved_rejected() == old(self).moved_rejected(),
            match step {
                UndoStep::Finished(events) => {
                    &&& old(self).history().len() == 0
                    &&& final(self).history() == old(self).history()
                    &&& final(self).restoring() == old(self).restoring()
                    &&& events_view(events@) == seq![EventView::UndoStackEmpty]
                },
                UndoStep::Restore(entry) => {
                    &&& old(self).history().len() > 0
                    &&& entry == old(self).history().last()
                    &&& final(self).history() == old(self).history().drop_last()
                    &&& final(self).restoring() == Some(entry)
                },
            },
    {
        let ghost history = self.undo_stack@;
        match self.undo_stack.pop() {
            Some(entry) => {
                proof {
                    lemma_moves_by_pop(history, MoveAction::Select);
                    lemma_moves_by_pop(history, MoveAction::Reject);
                }
                self.restoring = Ghost(Some(entry));
                UndoStep::Restore(entry)
            },
            None => {
                let mut events: Vec<AppEvent> = Vec::new();
                events.push(AppEvent::UndoStackEmpty);
                assert(events_view(events@) =~= seq![EventView::UndoStackEmpty]);
                UndoStep::Finished(events)
            },
        }
    }

    /// Second half of undo, once the caller has moved the file back to
    /// `entry.original_path` and read its name, size and modification time:
    /// the image rejoins the library at its sorted position, the move is taken
    /// back from its counter and the cursor is clamped. Reports `Undone`, the page and the counters.
    pub fn complete_undo(
        &mut self,
        entry: UndoEntry,
        filename: String,
        file_size: u64,
        date_modified: u64,
    ) -> (events: Vec<AppEvent>)
        requires
            old(self).wf(),
            old(self).restoring() == Some(entry),
        ensures
            final(self).wf(),
            is_arrangement_of(
                old(self).order(),
                final(self).entries(),
                old(self).entries().push(
                    ImageEntry { path: entry.original_path, filename, file_size, date_modified },
                ),
            ),
            final(self).order() == old(self).order(),
            final(self).view_count() == old(self).view_count(),
            final(self).cached() == old(self).cached(),
            final(self).history() == old(self).history(),
            final(self).loaded_dir() == old(self).loaded_dir(),
            final(self).moved_selected() + (if entry.action == MoveAction::Select {
                1int
            } else {
                0int
            }) == old(self).moved_selected(),
            final(self).moved_rejected() + (if entry.action == MoveAction::Reject {
                1int
            } else {
                0int
            }) == old(self).moved_rejected(),
            final(self).restoring() is None,
            final(self).current_index() == clamped_index(
                old(self).current_index(),
                final(self).entries().len(),
                old(self).view_count(),
            ),
            events_view(events@) == seq![
                EventView::Undone { path: entry.original_path@, action: entry.action },
                EventView::PageChanged(final(self).page_view()),
                EventView::StatsChanged(final(self).stats_with()),
            ],
    {
        let UndoEntry { current_path: _, original_path, action } = entry;
        self.index.images.push(
            ImageEntry { path: original_path.clone(), filename, file_size, date_modified },
        );
        self.index.resort();
        match action {
            MoveAction::Select => self.selected_moves = self.selected_moves - 1,
            MoveAction::Reject => self.rejected_moves = self.rejected_moves - 1,
        }
        self.restoring = Ghost(None);
        self.clamp_nav();
        let mut events: Vec<AppEvent> = Vec::new();
        events.push(AppEvent::Undone { path: original_path, action });
        let page = self.build_page_state();
        events.push(AppEvent::PageChanged(page));
        let stats = self.build_stats();
        events.push(AppEvent::StatsChanged(stats));
        assert(events_view(events@) =~= seq![
            EventView::Undone { path: entry.original_path@, action: entry.action },
            EventView::PageChanged(self.page_view()),
            EventView::StatsChanged(self.stats_with()),
        ]);
        events
    }

    // ── Queries ────────────────────────────────────────────────────────────

    /// How many images are left in the library.
    pub fn total_images(&self) -> (n: usize)
        ensures
            n == self.entries().len(),
    {
        self.index.images.len()
    }

    /// Whether there is a move to undo.
    pub fn can_undo(&self) -> (b: bool)
        ensures
            b == (self.history().len() > 0),
    {
        !self.undo_stack.is_empty()
    }

    /// The session counters: images left, and images moved to `selected/` and to
    /// `rejected/` since the folder was loaded.
    pub fn stats(&self) -> (stats: LibraryStats)
        ensures
            stats == self.stats_with(),
    {
        self.build_stats()
    }

    /// The folder currently loaded, if any.
    pub fn base_dir(&self) -> (dir: Option<String>)
        ensures
            match dir {
                Some(d) => self.loaded_dir() == Some(d@),
                None => self.loaded_dir() is None,
            },
    {
        match &self.base_dir {
            Some(d) => Some(d.clone()),
            None => None,
        }
    }

    /// The paths of the visible images, for the caller to check on disk
    /// before calling `current_images`.
    pub fn page_paths(&self) -> (paths: Vec<String>)
        requires
            self.wf(),
        ensures
            paths@.len() == self.page_entries().len(),
            forall|i: int| 0 <= i < paths@.len() ==> #[trigger] paths@[i]@ == self.page_entries()[i].path@,
    {
        let total = self.index.images.len();
        let (start, end) = self.nav.range(total);
        let mut paths: Vec<String> = Vec::new();
        let mut k: usize = start;
        while k < end
            invariant
                start == self.nav.current_index,
                end == window_end(start as nat, self.nav.view_count as nat, total as nat),
                total == self.index.images@.len(),
                start <= k <= end <= total,
                paths@.len() == k - start,
                forall|i: int| 0 <= i < paths@.len() ==> #[trigger] paths@[i]@ == self.page_entries()[i].path@,
            decreases end - k,
        {
            paths.push(self.index.images[k].path.clone());
            k = k + 1;
        }
        paths
    }

    // ── Stale-file cleanup ─────────────────────────────────────────────────

    /// The visible images, after checking them against the disk. `probes`
    /// holds what the caller found for each path of `page_paths`, in order.
    /// Entries whose file vanished are dropped from the library and the cache,
    /// each with a `StaleEntryRemoved` event; the others are looked up in the
    /// cache (a missing one is added as pending with its probed size) and
    /// returned. The cursor is clamped. When anything was dropped, the page
    /// (or `LibraryEmpty`) and the counters follow.
    pub fn current_images(&mut self, probes: &Vec<FileProbe>) -> (out: (
        Vec<Image>,
        Vec<AppEvent>,
    ))
        requires
            old(self).wf(),
            probes@.len() == old(self).page_entries().len(),
        ensures
            final(self).wf(),
            final(self).cached() == sweep_cache(
                old(self).cached(),
                old(self).page_entries(),
                probes@,
            ),
            out.0@.map_values(|img: Image| img@) == sweep_images(
                old(self).cached(),
                old(self).page_entries(),
                probes@,
            ),
            final(self).entries() == old(self).entries().filter(
                not_in(stale_paths(old(self).page_entries(), probes@)),
            ),
            final(self).order() == old(self).order(),
            final(self).view_count() == old(self).view_count(),
            final(self).history() == old(self).history(),
            final(self).loaded_dir() == old(self).loaded_dir(),
            final(self).moved_selected() == old(self).moved_selected(),
            final(self).moved_rejected() == old(self).moved_rejected(),
            final(self).restoring() == old(self).restoring(),
            final(self).current_index() == clamped_index(
                old(self).current_index(),
                final(self).entries().len(),
                old(self).view_count(),
            ),
            events_view(out.1@) == stale_events(stale_paths(old(self).page_entries(), probes@))
                + if stale_paths(old(self).page_entries(), probes@).len() == 0 {
                Seq::<EventView>::empty()
            } else {
                seq![
                    page_or_empty(final(self).entries().len(), final(self).page_view()),
                    EventView::StatsChanged(final(self).stats_with()),
                ]
            },
    {
        let ghost page = self.page_entries();
        let ghost cache0 = self.cached();
        let ghost entries0 = self.entries();
        let paths = self.page_paths();
        let mut images: Vec<Image> = Vec::new();
        let mut events: Vec<AppEvent> = Vec::new();
        let mut k: usize = 0;
        proof {
            assert(page.take(0) =~= Seq::<ImageEntry>::empty());
            assert(entries0.filter(not_in(Seq::empty())) =~= entries0) by {
                lemma_filter_all(entries0, not_in(Seq::empty()));
            }
            assert(stale_events(Seq::empty()) =~= Seq::<EventView>::empty());
        }
        while k < paths.len()
            invariant
                paths@.len() == page.len(),
                probes@.len() == page.len(),
                forall|i: int| 0 <= i < paths@.len() ==> #[trigger] paths@[i]@ == page[i].path@,
                k <= paths@.len(),
                self.cache.wf(),
                self.cached() == sweep_cache(cache0, page.take(k as int), probes@),
                images@.map_values(|img: Image| img@) == sweep_images(
                    cache0,
                    page.take(k as int),
                    probes@,
                ),
                self.index.images@ == entries0.filter(
                    not_in(stale_paths(page.take(k as int), probes@)),
                ),
                events_view(events@) == stale_events(stale_paths(page.take(k as int), probes@)),
                is_sorted_by(self.index.sort_order, self.index.images@),
                self.index.sort_order == old(self).index.sort_order,
                self.nav == old(self).nav,
                self.undo_stack == old(self).undo_stack,
                self.base_dir == old(self).base_dir,
                self.selected_moves == old(self).selected_moves,
                self.rejected_moves == old(self).rejected_moves,
                self.restoring == old(self).restoring,
            decreases paths@.len() - k,
        {
            let probe = probes[k];
            let path = paths[k].as_str();
            let ghost pre = page.take(k as int);
            let ghost cur = page.take(k + 1);
            let ghost stale_before = stale_paths(pre, probes@);
            proof {
                assert(cur.drop_last() =~= pre);
                assert(cur.last() == page[k as int]);
                assert(cur.len() - 1 == k);
            }
            if probe.present {
                let ghost before = images@;
                let img = self.cache.get(path, probe.file_size).clone();
                images.push(img);
                proof {
                    assert(images@.map_values(|img: Image| img@) =~= before.map_values(
                        |img: Image| img@,
                    ).push(img@));
                }
            } else {
                let ghost before = events@;
                events.push(AppEvent::StaleEntryRemoved { path: paths[k].clone() });
                let ghost pre_images = self.index.images@;
                self.index.remove_by_path(path);
                self.cache.remove(path);
                proof {
                    let stale_after = stale_before.push(page[k as int].path@);
                    assert(events_view(events@) =~= events_view(before).push(
                        EventView::StaleEntryRemoved { path: path@ },
                    ));
                    assert(stale_events(stale_after) =~= stale_events(stale_before).push(
                        EventView::StaleEntryRemoved { path: path@ },
                    ));
                    assert forall|e: ImageEntry| #[trigger]
                        not_in(stale_after)(e) == (not_in(stale_before)(e) && not_at(path@)(e)) by {
                        if !not_in(stale_after)(e) {
                            let j = choose|j: int|
                                0 <= j < stale_after.len() && normal_form(#[trigger] stale_after[j])
                                    == normal_form(e.path@);
                            if j < stale_before.len() {
                                assert(stale_before[j] == stale_after[j]);
                            } else {
                                assert(stale_after[j] == path@);
                            }
                        }
                        if !not_in(stale_before)(e) {
                            let j = choose|j: int|
                                0 <= j < stale_before.len() && normal_form(#[trigger] stale_before[j])
                                    == normal_form(e.path@);
                            assert(stale_after[j] == stale_before[j]);
                        }
                        if !not_at(path@)(e) {
                            assert(stale_after[stale_before.len() as int] == path@);
                        }
                    }
                    lemma_filter_twice(entries0, not_in(stale_before), not_at(path@), not_in(stale_after));
                    lemma_filter_keeps_sorted(self.index.sort_order, pre_images, not_at(path@));
                }
            }
            k = k + 1;
        }
        proof {
            assert(page.take(page.len() as int) =~= page);
        }
        self.clamp_nav();
        if events.len() > 0 {
            let ghost before = events@;
            if self.index.images.len() == 0 {
                events.push(AppEvent::LibraryEmpty);
            } else {
                let page_state = self.build_page_state();
                events.push(AppEvent::PageChanged(page_state));
            }
            let stats = self.build_stats();
            events.push(AppEvent::StatsChanged(stats));
            proof {
                assert(events_view(events@) =~= events_view(before) + seq![
                    page_or_empty(self.entries().len(), self.page_view()),
                    EventView::StatsChanged(self.stats_with()),
                ]);
            }
        } else {
            proof {
                assert(events_view(events@) =~= events_view(events@) + Seq::<EventView>::empty());
            }
        }
        (images, events)
    }
}

/// Filtering by a test every element passes changes nothing.
proof fn lemma_filter_all(s: Seq<ImageEntry>, p: spec_fn(ImageEntry) -> bool)
    requires
        forall|e: ImageEntry| #[trigger] p(e),
    ensures
        s.filter(p) == s,
    decreases s.len(),
{
    reveal(Seq::filter);
    if s.len() > 0 {
        lemma_filter_all(s.drop_last(), p);
        assert(s.drop_last().push(s.last()) =~= s);
    }
}

/// Filtering by `a` and then by `b` is filtering by their conjunction `c`.
proof fn lemma_filter_twice(
    s: Seq<ImageEntry>,
    a: spec_fn(ImageEntry) -> bool,
    b: spec_fn(ImageEntry) -> bool,
    c: spec_fn(ImageEntry) -> bool,
)
    requires
        forall|e: ImageEntry| #[trigger] c(e) == (a(e) && b(e)),
    ensures
        s.filter(a).filter(b) == s.filter(c),
    decreases s.len(),
{
    reveal(Seq::filter);
    if s.len() > 0 {
        let init = s.drop_last();
        let x = s.last();
        lemma_filter_twice(init, a, b, c);
        assert(c(x) == (a(x) && b(x)));
        if a(x) {
            init.filter(a).lemma_filter_push(x, b);
        }
    }
}

/// The images stored at `path` (compared as paths, component by component), in order.
pub open spec fn images_at(entries: Seq<ImageEntry>, path: Seq<char>) -> Seq<ImageEntry> {
    entries.filter(|x: ImageEntry| normal_form(x.path@) == normal_form(path))
}

/// Splitting a sequence by a test and its negation splits its multiset.
proof fn lemma_multiset_split(
    s: Seq<ImageEntry>,
    p: spec_fn(ImageEntry) -> bool,
    q: spec_fn(ImageEntry) -> bool,
)
    requires
        forall|x: ImageEntry| #[trigger] q(x) == !p(x),
    ensures
        s.to_multiset() =~= s.filter(p).to_multiset().add(s.filter(q).to_multiset()),
    decreases s.len(),
{
    reveal(Seq::filter);
    broadcast use vstd::multiset::group_multiset_axioms, vstd::seq_lib::group_to_multiset_ensures;

    if s.len() > 0 {
        let init = s.drop_last();
        let x = s.last();
        lemma_multiset_split(init, p, q);
        assert(init.push(x) =~= s);
        assert(q(x) == !p(x));
    }
}

/// Undoing a move restores the library: taking the image `e` out (what
/// `complete_move` does to the library) and putting it back (what
/// `complete_undo` does) leaves exactly the images there were before, in
/// sorted order, provided `e` was the only image stored at its path.
pub proof fn lemma_undo_restores_library(
    order: SortOrder,
    entries: Seq<ImageEntry>,
    e: ImageEntry,
    restored: Seq<ImageEntry>,
)
    requires
        images_at(entries, e.path@) == seq![e],
        is_arrangement_of(order, restored, entries.filter(not_at(e.path@)).push(e)),
    ensures
        restored.to_multiset() == entries.to_multiset(),
        is_sorted_by(order, restored),
        restored.len() == entries.len(),
{
    broadcast use vstd::multiset::group_multiset_axioms, vstd::seq_lib::group_to_multiset_ensures;

    let at = |x: ImageEntry| normal_form(x.path@) == normal_form(e.path@);
    lemma_multiset_split(entries, not_at(e.path@), at);
    let after = entries.filter(not_at(e.path@));
    assert(seq![e].to_multiset() =~= vstd::multiset::Multiset::<ImageEntry>::empty().insert(e)) by {
        assert(Seq::<ImageEntry>::empty().push(e) =~= seq![e]);
    }
    assert(after.push(e).to_multiset() =~= after.to_multiset().insert(e));
    assert(restored.to_multiset() =~= entries.to_multiset());
    assert(restored.len() == restored.to_multiset().len());
    assert(entries.len() == entries.to_multiset().len());
}

/// Filtering keeps a sequence whose elements all pass the test.
proof fn lemma_filter_keeps_passing(s: Seq<ImageEntry>, p: spec_fn(ImageEntry) -> bool)
    requires
        forall|i: int| 0 <= i < s.len() ==> p(#[trigger] s[i]),
    ensures
        s.filter(p) == s,
    decreases s.len(),
{
    reveal(Seq::filter);
    if s.len() > 0 {
        let init = s.drop_last();
        assert forall|i: int| 0 <= i < init.len() implies p(#[trigger] init[i]) by {
            assert(init[i] == s[i]);
        }
        lemma_filter_keeps_passing(init, p);
        assert(p(s[s.len() - 1]));
        assert(init.push(s.last()) =~= s);
    }
}

/// Undo puts an image back exactly where it was: when `e` is the only image at
/// its path and no other image shares its sort key, taking it out of a sorted
/// library and putting it back yields the very same sequence.
pub proof fn lemma_undo_restores_position(
    order: SortOrder,
    entries: Seq<ImageEntry>,
    e: ImageEntry,
    restored: Seq<ImageEntry>,
)
    requires
        is_sorted_by(order, entries),
        images_at(entries, e.path@) == seq![e],
        tie_class(order, entries, e) == seq![e],
        is_arrangement_of(order, restored, entries.filter(not_at(e.path@)).push(e)),
    ensures
        restored == entries,
{
    broadcast use vstd::seq_lib::group_filter_ensures;

    lemma_undo_restores_library(order, entries, e, restored);
    let after = entries.filter(not_at(e.path@));
    let at = |x: ImageEntry| normal_form(x.path@) == normal_form(e.path@);
    // The only image at `e`'s path is `e`.
    assert forall|i: int|
        0 <= i < entries.len() && normal_form((#[trigger] entries[i]).path@) == normal_form(e.path@)
        implies entries[i] == e by {
        assert(at(entries[i]));
        assert(images_at(entries, e.path@).contains(entries[i]));
        assert(seq![e][0] == e);
    }
    assert forall|c: ImageEntry| #[trigger] tie_class(order, entries, c) == tie_class(
        order,
        after.push(e),
        c,
    ) by {
        let pc = tie_pred(order, c);
        let both = |x: ImageEntry| not_at(e.path@)(x) && pc(x);
        let both_rev = |x: ImageEntry| pc(x) && not_at(e.path@)(x);
        lemma_filter_twice(entries, not_at(e.path@), pc, both);
        lemma_filter_twice(entries, pc, not_at(e.path@), both_rev);
        assert(both =~= both_rev);
        after.lemma_filter_push(e, pc);
        let cls = entries.filter(pc);
        lemma_order_facts(order, e, c, e);
        if ties(order, e, c) {
            assert(pc =~= tie_pred(order, e)) by {
                assert forall|x: ImageEntry| #[trigger] pc(x) == tie_pred(order, e)(x) by {
                    lemma_order_facts(order, x, c, e);
                    lemma_order_facts(order, x, e, c);
                    lemma_order_facts(order, c, e, x);
                }
            }
            assert(cls == seq![e]);
            assert(cls.filter(not_at(e.path@)) =~= Seq::<ImageEntry>::empty()) by {
                reveal(Seq::filter);
                assert(seq![e].drop_last() =~= Seq::<ImageEntry>::empty());
                assert(seq![e].last() == e);
                assert(!not_at(e.path@)(e));
                assert(Seq::<ImageEntry>::empty().filter(not_at(e.path@)) =~= Seq::<
                    ImageEntry,
                >::empty());
                assert(seq![e].filter(not_at(e.path@)) == seq![e].drop_last().filter(
                    not_at(e.path@),
                ));
            }
            assert(Seq::<ImageEntry>::empty().push(e) =~= seq![e]);
        } else {
            assert forall|i: int| 0 <= i < cls.len() implies not_at(e.path@)(#[trigger] cls[i]) by {
                assert(pc(cls[i]));
                assert(cls.contains(cls[i]));
                entries.lemma_filter_contains_rev(pc, cls[i]);
                let k = choose|k: int| 0 <= k < entries.len() && entries[k] == cls[i];
                if normal_form(cls[i].path@) == normal_form(e.path@) {
                    assert(entries[k] == e);
                }
            }
            lemma_filter_keeps_passing(cls, not_at(e.path@));
        }
    }
    lemma_sorted_is_fixed_point(order, entries, entries);
    lemma_arrangement_unique(order, restored, entries, after.push(e));
}

/// Clamping puts the cursor inside a non-empty library, at or before where
/// it was, and leaves a cursor that is already at or before the last page
/// boundary where it is.
pub proof fn lemma_clamp_in_range(current: nat, total: nat, view_count: nat)
    requires
        view_count > 0,
    ensures
        total > 0 ==> clamped_index(current, total, view_count) < total,
        total == 0 ==> clamped_index(current, total, view_count) == 0,
        clamped_index(current, total, view_count) <= current,
        current <= ((total - 1) as nat / view_count) * view_count ==> total > 0 ==> clamped_index(
            current,
            total,
            view_count,
        ) == current,
        current % view_count == 0 ==> clamped_index(current, total, view_count) % view_count == 0,
        clamped_index(current, total, view_count) < current ==> total <= clamped_index(
            current,
            total,
            view_count,
        ) + view_count,
{
    if total > 0 {
        lemma_floor_multiple((total - 1) as int, view_count as int);
        lemma_page_starts((total - 1) as int / view_count as int, view_count as int);
    }
    lemma_page_starts(0, view_count as int);
}

/// The cursor moves back only as far as it must: when clamping moves it, it
/// lands on the last page start of the library, the one page start `p` with
/// `p < total <= p + view_count`; otherwise it stays where it was.
pub proof fn lemma_clamp_lands_on_last_page(current: nat, total: nat, view_count: nat)
    requires
        view_count > 0,
        current % view_count == 0,
    ensures
        ({
            let c = clamped_index(current, total, view_count);
            &&& c <= current
            &&& c % view_count == 0
            &&& total > 0 ==> c < total
            &&& total == 0 ==> c == 0
            &&& current < total ==> c == current
            &&& total > 0 && c < current ==> total <= c + view_count
        }),
{
    lemma_clamp_in_range(current, total, view_count);
    if total > 0 && current < total {
        lemma_div_is_ordered(current as int, (total - 1) as int, view_count as int);
        lemma_aligned(current as int, view_count as int);
        lemma_mul_inequality(
            current as int / view_count as int,
            (total - 1) as int / view_count as int,
            view_count as int,
        );
    }
}

/// Changing the page size keeps the first image visible before on screen:
/// the new cursor is a page start at the new size, at or before the old cursor,
/// and less than one new page before it.
pub proof fn lemma_page_start_keeps_image(index: nat, view_count: nat)
    requires
        view_count > 0,
    ensures
        page_start(index, view_count) % view_count == 0,
        page_start(index, view_count) <= index < page_start(index, view_count) + view_count,
{
    lemma_floor_multiple(index as int, view_count as int);
    lemma_page_starts(index as int / view_count as int, view_count as int);
}

/// When every visible file is still on disk, nothing is stale: the library
/// keeps all its images and no event is reported.
pub proof fn lemma_no_stale_when_all_present(page: Seq<ImageEntry>, probes: Seq<FileProbe>)
    requires
        probes.len() == page.len(),
        forall|i: int| 0 <= i < probes.len() ==> (#[trigger] probes[i]).present,
    ensures
        stale_paths(page, probes) == Seq::<Seq<char>>::empty(),
        forall|entries: Seq<ImageEntry>| #[trigger]
            entries.filter(not_in(stale_paths(page, probes))) == entries,
    decreases page.len(),
{
    if page.len() > 0 {
        lemma_no_stale_when_all_present(page.drop_last(), probes.take(page.len() - 1));
        lemma_stale_paths_prefix(page.drop_last(), probes, probes.take(page.len() - 1));
        assert(probes[page.len() - 1].present);
    }
    assert forall|entries: Seq<ImageEntry>| #[trigger]
        entries.filter(not_in(stale_paths(page, probes))) == entries by {
        lemma_filter_all(entries, not_in(stale_paths(page, probes)));
    }
}

/// `stale_paths` only reads the probes of the entries it is given.
proof fn lemma_stale_paths_prefix(page: Seq<ImageEntry>, p1: Seq<FileProbe>, p2: Seq<FileProbe>)
    requires
        page.len() <= p1.len(),
        page.len() <= p2.len(),
        forall|i: int| 0 <= i < page.len() ==> p1[i] == p2[i],
    ensures
        stale_paths(page, p1) == stale_paths(page, p2),
    decreases page.len(),
{
    if page.len() > 0 {
        lemma_stale_paths_prefix(page.drop_last(), p1, p2);
    }
}

/// The images returned for a page are one per entry whose file exists.
pub proof fn lemma_sweep_counts(
    cache: Map<Seq<char>, ImageView>,
    page: Seq<ImageEntry>,
    probes: Seq<FileProbe>,
)
    requires
        probes.len() == page.len(),
    ensures
        sweep_images(cache, page, probes).len() + stale_paths(page, probes).len() == page.len(),
    decreases page.len(),
{
    if page.len() > 0 {
        lemma_sweep_counts(cache, page.drop_last(), probes.take(page.len() - 1));
        lemma_stale_paths_prefix(page.drop_last(), probes, probes.take(page.len() - 1));
        lemma_sweep_images_prefix(cache, page.drop_last(), probes, probes.take(page.len() - 1));
    }
}

proof fn lemma_sweep_images_prefix(
    cache: Map<Seq<char>, ImageView>,
    page: Seq<ImageEntry>,
    p1: Seq<FileProbe>,
    p2: Seq<FileProbe>,
)
    requires
        page.len() <= p1.len(),
        page.len() <= p2.len(),
        forall|i: int| 0 <= i < page.len() ==> p1[i] == p2[i],
    ensures
        sweep_images(cache, page, p1).len() == sweep_images(cache, page, p2).len(),
    decreases page.len(),
{
    if page.len() > 0 {
        lemma_sweep_images_prefix(cache, page.drop_last(), p1, p2);
    }
}

/// A partial last page only happens with pages of two or more images, so
/// counting it cannot overflow.
proof fn lemma_partial_page(a: int, b: int)
    by (nonlinear_arith)
    requires
        0 < a,
        0 < b,
    ensures
        a % b != 0 ==> a / b < a,
        a / b <= a,
{
    if b == 1 {
        assert(a % b == 0);
    }
}

/// `(a / b) * b` lies between `a - b` (exclusive) and `a`.
/// The page of an index inside the library is below the page count, and the
/// page count of a non-empty library is at most its size.
proof fn lemma_page_bounds(ci: int, total: int, vc: int)
    requires
        0 <= ci < total,
        0 < vc,
    ensures
        ci / vc < pages_needed(total as nat, vc as nat),
        pages_needed(total as nat, vc as nat) <= total,
{
    let q = total / vc;
    let r = total % vc;
    assert(q * vc + r == total && 0 <= r < vc && 0 <= q) by (nonlinear_arith)
        requires
            q == total / vc,
            r == total % vc,
            0 < vc,
            0 < total,
    ;
    lemma_floor_multiple(ci, vc);
    let c = ci / vc;
    assert(c * vc <= ci && 0 <= c);
    if r == 0 {
        assert(c < q) by (nonlinear_arith)
            requires
                c * vc <= ci,
                ci < q * vc,
                0 < vc,
        ;
        assert(q <= q * vc) by (nonlinear_arith)
            requires
                0 <= q,
                1 <= vc,
        ;
    } else {
        assert(c < q + 1) by (nonlinear_arith)
            requires
                c * vc <= ci,
                ci < q * vc + vc,
                0 < vc,
        ;
        assert(q <= q * vc) by (nonlinear_arith)
            requires
                0 <= q,
                1 <= vc,
        ;
    }
}

/// Page starts are the multiples of the page size: one page on or back from a
/// page start is a page start.
proof fn lemma_page_starts(k: int, vc: int)
    requires
        0 < vc,
    ensures
        (k * vc) % vc == 0,
        (k * vc + vc) % vc == 0,
        (k * vc - vc) % vc == 0,
{
    lemma_mod_multiples_basic(k, vc);
    lemma_mod_multiples_basic(k + 1, vc);
    lemma_mod_multiples_basic(k - 1, vc);
    assert((k + 1) * vc == k * vc + vc) by (nonlinear_arith);
    assert((k - 1) * vc == k * vc - vc) by (nonlinear_arith);
}

/// A multiple of the page size is the start of page `index / vc`.
proof fn lemma_aligned(index: int, vc: int)
    requires
        0 < vc,
        index % vc == 0,
    ensures
        index == (index / vc) * vc,
{
    lemma_fundamental_div_mod(index, vc);
    assert(vc * (index / vc) == (index / vc) * vc) by (nonlinear_arith);
}

proof fn lemma_floor_multiple(a: int, b: int)
    by (nonlinear_arith)
    requires
        0 <= a,
        0 < b,
    ensures
        (a / b) * b <= a,
        a - b < (a / b) * b,
        0 <= (a / b) * b,
{
}

} // verus!
