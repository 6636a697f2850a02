//! The page cursor: which slice of the image list is on screen.

use vstd::prelude::*;

verus! {

/// Tracks the index of the first visible image and how many images a page shows.
#[derive(Debug)]
pub struct NavigationEngine {
    pub current_index: usize,
    pub view_count: usize,
}

/// Where the cursor stands after moving forward over a list of `total` items.
pub open spec fn next_index(current: nat, view_count: nat, total: nat) -> nat {
    if total > 0 && current + view_count < total {
        current + view_count
    } else {
        current
    }
}

/// Where the cursor stands after moving back one page.
pub open spec fn prev_index(current: nat, view_count: nat) -> nat {
    if current >= view_count {
        (current - view_count) as nat
    } else {
        0
    }
}

/// The end (exclusive) of the visible window over `total` items.
pub open spec fn window_end(current: nat, view_count: nat, total: nat) -> nat {
    if current + view_count <= total {
        current + view_count
    } else {
        total
    }
}

impl NavigationEngine {
    /// A cursor on the first page.
    pub fn new(view_count: usize) -> (nav: Self)
        requires
            view_count > 0,
        ensures
            nav.current_index == 0,
            nav.view_count == view_count,
    {
        NavigationEngine { current_index: 0, view_count }
    }

    /// Move forward one page, unless that page would start past the end.
    pub fn next(&mut self, total_items: usize)
        ensures
            final(self).view_count == old(self).view_count,
            final(self).current_index == next_index(
                old(self).current_index as nat,
                old(self).view_count as nat,
                total_items as nat,
            ),
    {
        // `current_index + view_count < total_items`, without overflow.
        if self.current_index < total_items && self.view_count < total_items - self.current_index {
            self.current_index = self.current_index + self.view_count;
        }
    }

    /// Move back one page, stopping at the first item.
    pub fn prev(&mut self)
        ensures
            final(self).view_count == old(self).view_count,
            final(self).current_index == prev_index(
                old(self).current_index as nat,
                old(self).view_count as nat,
            ),
    {
        if self.current_index >= self.view_count {
            self.current_index = self.current_index - self.view_count;
        } else {
            self.current_index = 0;
        }
    }

    /// The half-open window `[start, end)` of visible items.
    pub fn range(&self, total_items: usize) -> (r: (usize, usize))
        ensures
            r.0 == self.current_index,
            r.1 == window_end(self.current_index as nat, self.view_count as nat, total_items as nat),
    {
        let start = self.current_index;
        // `min(start + view_count, total_items)`, without overflow.
        let end = if start < total_items && self.view_count < total_items - start {
            start + self.view_count
        } else {
            total_items
        };
        (start, end)
    }
}

/// Moving forward never leaves a non-empty list: a cursor inside the list
/// stays inside it.
pub proof fn lemma_next_stays_in_list(current: nat, view_count: nat, total: nat)
    requires
        current < total,
    ensures
        next_index(current, view_count, total) < total,
{
}

/// A forward move that took effect is undone by a backward move.
pub proof fn lemma_prev_undoes_next(current: nat, view_count: nat, total: nat)
    requires
        next_index(current, view_count, total) != current,
    ensures
        prev_index(next_index(current, view_count, total), view_count) == current,
{
}

/// The visible window never reaches past the list nor holds more than a page.
pub proof fn lemma_window_bounds(current: nat, view_count: nat, total: nat)
    requires
        current <= total,
    ensures
        current <= window_end(current, view_count, total) <= total,
        window_end(current, view_count, total) - current <= view_count,
{
}

/// Moving back never goes below the first item and never moves forward.
pub proof fn lemma_prev_moves_back(current: nat, view_count: nat)
    ensures
        prev_index(current, view_count) <= current,
        current > 0 && view_count > 0 ==> prev_index(current, view_count) < current,
{
}

} // verus!
