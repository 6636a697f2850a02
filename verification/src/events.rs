//! The events the session emits, and the small enums they carry.

use vstd::prelude::*;

use crate::image_cache::{Image, ImageView};
use crate::image_index::SortOrder;
use crate::stats::LibraryStats;

verus! {

/// Whether a file was selected or rejected.
#[derive(Debug, Clone, Copy, PartialEq, Eq, Structural)]
pub enum MoveAction {
    Select,
    Reject,
}

/// Which boundary was hit during navigation.
#[derive(Debug, Clone, Copy, PartialEq, Eq, Structural)]
pub enum BoundaryKind {
    /// Already on the first page; moving back did nothing.
    FirstPage,
    /// Already on the last page; moving forward did nothing.
    LastPage,
}


/// A snapshot of the visible page, emitted whenever what is visible changes.
#[derive(Debug, Clone)]
pub struct PageState {
    /// Images currently visible, in list order.
    pub images: Vec<Image>,
    /// Index into the full image list where this page starts.
    pub current_index: usize,
    /// Total images remaining in the library.
    pub total: usize,
    /// How many pages exist at this view count.
    pub total_pages: usize,
    /// Which page the window is on (0-based).
    pub current_page: usize,
    /// How many images a page shows.
    pub view_count: usize,
}

/// The mathematical value of a page snapshot.
pub struct PageStateView {
    pub images: Seq<ImageView>,
    pub current_index: usize,
    pub total: usize,
    pub total_pages: usize,
    pub current_page: usize,
    pub view_count: usize,
}

impl View for PageState {
    type V = PageStateView;

    open spec fn view(&self) -> PageStateView {
        PageStateView {
            images: self.images@.map_values(|img: Image| img@),
            current_index: self.current_index,
            total: self.total,
            total_pages: self.total_pages,
            current_page: self.current_page,
            view_count: self.view_count,
        }
    }
}

/// Every state change the session can report.
#[derive(Debug, Clone)]
pub enum AppEvent {
    /// A directory scan began.
    ScanStarted { path: String },
    /// One more image was found; `scanned` counts the images found so far.
    ScanProgress { scanned: usize },
    /// The scan finished with `total` images.
    ScanComplete { total: usize },
    /// A directory was scanned and the library is ready.
    DirectoryLoaded { path: String, total: usize },
    /// The visible page changed.
    PageChanged(PageState),
    /// A file was moved into `selected/` or `rejected/`.
    FileMoved { from: String, to: String, action: MoveAction },
    /// The last move was undone; the file is back in the library.
    Undone { path: String, action: MoveAction },
    /// Undo was requested with nothing to undo.
    UndoStackEmpty,
    /// The session counters changed.
    StatsChanged(LibraryStats),
    /// The sort order changed.
    SortChanged { order: SortOrder },
    /// The number of images per page changed.
    ViewCountChanged { view_count: usize },
    /// An entry whose file vanished from disk was dropped.
    StaleEntryRemoved { path: String },
    /// No images are left.
    LibraryEmpty,
    /// Navigation hit the first or the last page.
    NavigationBoundary { kind: BoundaryKind },
}

/// The mathematical value of an event.
pub enum EventView {
    ScanStarted { path: Seq<char> },
    ScanProgress { scanned: usize },
    ScanComplete { total: usize },
    DirectoryLoaded { path: Seq<char>, total: usize },
    PageChanged(PageStateView),
    FileMoved { from: Seq<char>, to: Seq<char>, action: MoveAction },
    Undone { path: Seq<char>, action: MoveAction },
    UndoStackEmpty,
    StatsChanged(LibraryStats),
    SortChanged { order: SortOrder },
    ViewCountChanged { view_count: usize },
    StaleEntryRemoved { path: Seq<char> },
    LibraryEmpty,
    NavigationBoundary { kind: BoundaryKind },
}

impl View for AppEvent {
    type V = EventView;

    open spec fn view(&self) -> EventView {
        match self {
            AppEvent::ScanStarted { path } => EventView::ScanStarted { path: path@ },
            AppEvent::ScanProgress { scanned } => EventView::ScanProgress { scanned: *scanned },
            AppEvent::ScanComplete { total } => EventView::ScanComplete { total: *total },
            AppEvent::DirectoryLoaded { path, total } => EventView::DirectoryLoaded {
                path: path@,
                total: *total,
            },
            AppEvent::PageChanged(page) => EventView::PageChanged(page@),
            AppEvent::FileMoved { from, to, action } => EventView::FileMoved {
                from: from@,
                to: to@,
                action: *action,
            },
            AppEvent::Undone { path, action } => EventView::Undone { path: path@, action: *action },
            AppEvent::UndoStackEmpty => EventView::UndoStackEmpty,
            AppEvent::StatsChanged(stats) => EventView::StatsChanged(*stats),
            AppEvent::SortChanged { order } => EventView::SortChanged { order: *order },
            AppEvent::ViewCountChanged { view_count } => EventView::ViewCountChanged {
                view_count: *view_count,
            },
            AppEvent::StaleEntryRemoved { path } => EventView::StaleEntryRemoved { path: path@ },
            AppEvent::LibraryEmpty => EventView::LibraryEmpty,
            AppEvent::NavigationBoundary { kind } => EventView::NavigationBoundary { kind: *kind },
        }
    }
}

/// The values of a list of events.
pub open spec fn events_view(events: Seq<AppEvent>) -> Seq<EventView> {
    events.map_values(|e: AppEvent| e@)
}

} // verus!
