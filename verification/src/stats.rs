//! Session counters (images still undecided, selected and rejected), and
//! counting the images in a folder listing.

use vstd::prelude::*;

use crate::image_index::{is_image_file, FileInfo};
use crate::text::is_image_file_name;

verus! {

/// Counts of images in each state within a session.
#[derive(Debug, Clone, Copy, PartialEq, Eq, Structural)]
pub struct LibraryStats {
    /// Images still in the main directory (not yet actioned).
    pub remaining: usize,
    /// Images moved to selected/ since the directory was loaded.
    pub selected: usize,
    /// Images moved to rejected/ since the directory was loaded.
    pub rejected: usize,
}

/// Every image of the session: remaining, selected and rejected together.
pub open spec fn session_total(s: LibraryStats) -> int {
    s.remaining + s.selected + s.rejected
}

/// The share of the session's images that have been actioned, in whole
/// percent rounded down; 0 for an empty session.
pub open spec fn percent_actioned(s: LibraryStats) -> int {
    if session_total(s) == 0 {
        0
    } else {
        ((s.selected + s.rejected) * 100) / session_total(s)
    }
}

impl LibraryStats {
    /// Total images in the session (remaining + selected + rejected).
    pub fn total_session(&self) -> (n: usize)
        requires
            session_total(*self) <= usize::MAX,
        ensures
            n == session_total(*self),
    {
        self.remaining + self.selected + self.rejected
    }

    /// Percentage of images actioned (0 to 100), rounded down.
    pub fn progress_percent(&self) -> (p: u8)
        requires
            session_total(*self) <= usize::MAX,
            (self.selected + self.rejected) * 100 <= usize::MAX,
        ensures
            p == percent_actioned(*self),
    {
        let total = self.total_session();
        if total == 0 {
            return 0;
        }
        let actioned = self.selected + self.rejected;
        let pct = (actioned * 100) / total;
        proof {
            lemma_percent_bounds(*self);
        }
        let capped = if pct < 100 { pct } else { 100 };
        capped as u8
    }
}

impl Default for LibraryStats {
    fn default() -> (s: Self)
        ensures
            s.remaining == 0,
            s.selected == 0,
            s.rejected == 0,
    {
        LibraryStats { remaining: 0, selected: 0, rejected: 0 }
    }
}

proof fn lemma_share_bounds(a: int, t: int)
    by (nonlinear_arith)
    requires
        0 <= a <= t,
        0 < t,
    ensures
        0 <= (a * 100) / t <= 100,
        (a * 100) / t == 100 <==> a == t,
{
    if a < t {
        assert(a * 100 <= t * 100 - 100);
        assert((a * 100) / t < 100);
    }
}

/// Progress never exceeds 100 percent, and reaches it exactly when a non-empty
/// session has no undecided image left.
pub proof fn lemma_percent_bounds(s: LibraryStats)
    ensures
        0 <= percent_actioned(s) <= 100,
        percent_actioned(s) == 100 <==> (session_total(s) > 0 && s.remaining == 0),
        session_total(s) == 0 ==> percent_actioned(s) == 0,
{
    if session_total(s) > 0 {
        lemma_share_bounds(s.selected + s.rejected, session_total(s));
    }
}

/// How many images a folder listing holds; 0 for a missing folder.
pub open spec fn images_in(listing: Option<Vec<FileInfo>>) -> int {
    match listing {
        Some(files) => files@.filter(|f: FileInfo| is_image_file(f)).len() as int,
        None => 0,
    }
}

/// Count the images (regular files with a supported extension) in a folder
/// listing; 0 when the folder does not exist.
pub fn count_in_subdir(listing: &Option<Vec<FileInfo>>) -> (n: usize)
    ensures
        n == images_in(*listing),
{
    match listing {
        None => 0,
        Some(files) => {
            let mut n: usize = 0;
            let mut i: usize = 0;
            proof {
                assert(files@.take(0) =~= Seq::<FileInfo>::empty());
            }
            while i < files.len()
                invariant
                    i <= files@.len(),
                    n == files@.take(i as int).filter(|f: FileInfo| is_image_file(f)).len(),
                    n <= i,
                decreases files@.len() - i,
            {
                let f = &files[i];
                proof {
                    assert(files@.take(i + 1) =~= files@.take(i as int).push(*f));
                    files@.take(i as int).lemma_filter_push(*f, |f: FileInfo| is_image_file(f));
                }
                if f.is_file && is_supported_ext(f.filename.as_str()) {
                    n = n + 1;
                }
                i = i + 1;
            }
            proof {
                assert(files@.take(files@.len() as int) =~= files@);
            }
            n
        },
    }
}

/// Whether a file name has a supported image extension: `jpg`, `jpeg` or
/// `png`, in any letter case.
pub fn is_supported_ext(filename: &str) -> (b: bool)
    ensures
        b == crate::text::is_image_name(filename@),
{
    is_image_file_name(filename)
}

} // verus!
