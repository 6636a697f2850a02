//! Core logic of a photo-culling session: a sorted index of the images in a
//! folder, a page cursor over it, a metadata cache, a bounded undo history and
//! the session state machine that turns user requests into events.
//!
//! The library performs no file-system work itself. Whatever it needs to know
//! about the disk (a directory listing, whether a file still exists, how many
//! images sit in `selected/`) is handed to it as plain values, and whatever it
//! wants done on disk (a move, an undo) it hands back as a request.

use vstd::prelude::*;

pub mod app_state;
pub mod command;
pub mod events;
pub mod forwarding;
pub mod image_cache;
pub mod image_index;
pub mod navigation;
pub mod stats;
pub mod text;
pub mod undo;

verus! {

/// A fixed greeting, used to check that the library links.
pub fn hello() -> (s: &'static str)
    ensures
        s@ == "Hello from photo-selector core"@,
{
    "Hello from photo-selector core"
}

} // verus!
