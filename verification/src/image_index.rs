//! The sorted list of images discovered in the loaded folder.

use vstd::prelude::*;
use vstd::seq_lib::*;

use crate::text::{
    is_image_file_name, is_image_name, lemma_seq_lt_irreflexive, lemma_seq_lt_transitive,
    lemma_seq_lt_trichotomy, normal_form, normal_path, seq_lt, text_lt,
};

verus! {

broadcast use {group_to_multiset_ensures, group_filter_ensures};

/// One entry of a directory listing, as read from disk by the caller.
#[derive(Debug, Clone)]
pub struct FileInfo {
    /// Full path of the entry.
    pub path: String,
    /// The entry's file name (the last path component).
    pub filename: String,
    /// Whether the entry is a regular file.
    pub is_file: bool,
    /// Size in bytes.
    pub file_size: u64,
    /// Modification time, in nanoseconds since the Unix epoch.
    pub date_modified: u64,
}

/// An image in the index: path, file name, size and modification time, all
/// captured when the folder was scanned.
#[derive(Debug, Clone)]
pub struct ImageEntry {
    pub path: String,
    pub filename: String,
    pub file_size: u64,
    /// Modification time, in nanoseconds since the Unix epoch.
    pub date_modified: u64,
}

/// The orders in which the index can list its images.
#[derive(Debug, Clone, Copy, PartialEq, Eq, Structural)]
pub enum SortOrder {
    /// By file name, A to Z (the default).
    NameAsc,
    /// By file name, Z to A.
    NameDesc,
    /// Oldest modification first.
    DateAsc,
    /// Newest modification first.
    DateDesc,
    /// Smallest file first.
    SizeAsc,
    /// Largest file first.
    SizeDesc,
}

/// Whether `a` must be listed strictly before `b` under `order`.
pub open spec fn precedes(order: SortOrder, a: ImageEntry, b: ImageEntry) -> bool {
    match order {
        SortOrder::NameAsc => seq_lt(a.filename@, b.filename@),
        SortOrder::NameDesc => seq_lt(b.filename@, a.filename@),
        SortOrder::DateAsc => a.date_modified < b.date_modified,
        SortOrder::DateDesc => b.date_modified < a.date_modified,
        SortOrder::SizeAsc => a.file_size < b.file_size,
        SortOrder::SizeDesc => b.file_size < a.file_size,
    }
}

/// Whether `a` and `b` have the same sort key under `order`.
pub open spec fn ties(order: SortOrder, a: ImageEntry, b: ImageEntry) -> bool {
    match order {
        SortOrder::NameAsc | SortOrder::NameDesc => a.filename@ == b.filename@,
        SortOrder::DateAsc | SortOrder::DateDesc => a.date_modified == b.date_modified,
        SortOrder::SizeAsc | SortOrder::SizeDesc => a.file_size == b.file_size,
    }
}

/// No entry is listed after one that must precede it.
pub open spec fn is_sorted_by(order: SortOrder, s: Seq<ImageEntry>) -> bool {
    forall|i: int, j: int| 0 <= i < j < s.len() ==> !precedes(order, #[trigger] s[j], #[trigger] s[i])
}

/// The test for "has the same sort key as `e`".
pub open spec fn tie_pred(order: SortOrder, e: ImageEntry) -> spec_fn(ImageEntry) -> bool {
    |x: ImageEntry| ties(order, x, e)
}

/// The entries of `s` that tie with `e`, in the order `s` lists them.
pub open spec fn tie_class(order: SortOrder, s: Seq<ImageEntry>, e: ImageEntry) -> Seq<ImageEntry> {
    s.filter(tie_pred(order, e))
}

/// `out` is `input` stably sorted by `order`: it is sorted, holds the same
/// entries, and entries with equal keys keep the relative order they had.
pub open spec fn is_arrangement_of(order: SortOrder, out: Seq<ImageEntry>, input: Seq<ImageEntry>) -> bool {
    &&& is_sorted_by(order, out)
    &&& out.to_multiset() == input.to_multiset()
    &&& forall|e: ImageEntry| #[trigger] tie_class(order, out, e) == tie_class(order, input, e)
}

/// Whether a listing entry is an image the index keeps.
pub open spec fn is_image_file(f: FileInfo) -> bool {
    f.is_file && is_image_name(f.filename@)
}

/// The index entry recorded for a listing entry.
pub open spec fn entry_of(f: FileInfo) -> ImageEntry {
    ImageEntry {
        path: f.path,
        filename: f.filename,
        file_size: f.file_size,
        date_modified: f.date_modified,
    }
}

/// The images a listing holds, in listing order.
pub open spec fn scanned_entries(listing: Seq<FileInfo>) -> Seq<ImageEntry> {
    listing.filter(|f: FileInfo| is_image_file(f)).map_values(|f: FileInfo| entry_of(f))
}

/// The test for "is stored somewhere other than `path`": its path has other
/// components (see `normal_form`).
pub open spec fn not_at(path: Seq<char>) -> spec_fn(ImageEntry) -> bool {
    |e: ImageEntry| normal_form(e.path@) != normal_form(path)
}

/// The facts about `precedes` and `ties` that sorting relies on: `precedes` is
/// a strict weak order whose incomparability relation is `ties`.
pub proof fn lemma_order_facts(order: SortOrder, a: ImageEntry, b: ImageEntry, c: ImageEntry)
    ensures
        !precedes(order, a, a),
        ties(order, a, a),
        precedes(order, a, b) ==> !precedes(order, b, a),
        precedes(order, a, b) ==> !ties(order, a, b),
        (!precedes(order, a, b) && !precedes(order, b, a)) <==> ties(order, a, b),
        ties(order, a, b) ==> ties(order, b, a),
        ties(order, a, b) && ties(order, b, c) ==> ties(order, a, c),
        !precedes(order, a, b) && !precedes(order, b, c) ==> !precedes(order, a, c),
{
    lemma_seq_lt_trichotomy(a.filename@, b.filename@);
    lemma_seq_lt_trichotomy(b.filename@, c.filename@);
    lemma_seq_lt_trichotomy(a.filename@, c.filename@);
    lemma_seq_lt_irreflexive(a.filename@);
    if seq_lt(b.filename@, a.filename@) && seq_lt(c.filename@, b.filename@) {
        lemma_seq_lt_transitive(c.filename@, b.filename@, a.filename@);
    }
    if seq_lt(a.filename@, b.filename@) && seq_lt(b.filename@, c.filename@) {
        lemma_seq_lt_transitive(a.filename@, b.filename@, c.filename@);
    }
}

/// Filtering a sorted sequence leaves it sorted.
pub proof fn lemma_filter_keeps_sorted(order: SortOrder, s: Seq<ImageEntry>, p: spec_fn(ImageEntry) -> bool)
    requires
        is_sorted_by(order, s),
    ensures
        is_sorted_by(order, s.filter(p)),
    decreases s.len(),
{
    reveal(Seq::filter);
    if s.len() > 0 {
        let init = s.drop_last();
        assert(is_sorted_by(order, init)) by {
            assert forall|i: int, j: int| 0 <= i < j < init.len() implies !precedes(
                order,
                #[trigger] init[j],
                #[trigger] init[i],
            ) by {
                assert(init[i] == s[i] && init[j] == s[j]);
            }
        }
        lemma_filter_keeps_sorted(order, init, p);
        if p(s.last()) {
            let f = init.filter(p);
            let g = f.push(s.last());
            assert forall|i: int, j: int| 0 <= i < j < g.len() implies !precedes(
                order,
                #[trigger] g[j],
                #[trigger] g[i],
            ) by {
                if j == g.len() - 1 {
                    assert(f.contains(g[i]));
                    init.lemma_filter_contains_rev(p, g[i]);
                    let k = choose|k: int| 0 <= k < init.len() && init[k] == g[i];
                    assert(s[k] == g[i]);
                    assert(s[s.len() - 1] == s.last());
                } else {
                    assert(g[i] == f[i] && g[j] == f[j]);
                }
            }
        }
    }
}

/// The entries of `s` that fail `p` leave no trace in `s.filter(p)`.
proof fn lemma_filter_none(s: Seq<ImageEntry>, p: spec_fn(ImageEntry) -> bool)
    requires
        forall|i: int| 0 <= i < s.len() ==> !p(#[trigger] s[i]),
    ensures
        s.filter(p) == Seq::<ImageEntry>::empty(),
{
    s.lemma_all_neg_filter_empty(p);
    assert(s.filter(p) =~= Seq::<ImageEntry>::empty());
}

/// Whether `a` must be listed strictly before `b` under `order`.
fn precedes_exec(order: SortOrder, a: &ImageEntry, b: &ImageEntry) -> (r: bool)
    ensures
        r == precedes(order, *a, *b),
{
    match order {
        SortOrder::NameAsc => text_lt(a.filename.as_str(), b.filename.as_str()),
        SortOrder::NameDesc => text_lt(b.filename.as_str(), a.filename.as_str()),
        SortOrder::DateAsc => a.date_modified < b.date_modified,
        SortOrder::DateDesc => b.date_modified < a.date_modified,
        SortOrder::SizeAsc => a.file_size < b.file_size,
        SortOrder::SizeDesc => b.file_size < a.file_size,
    }
}

/// Insert `x` into the sorted `out`, after every entry it does not precede.
fn insert_sorted(order: SortOrder, out: &mut Vec<ImageEntry>, x: ImageEntry)
    requires
        is_sorted_by(order, old(out)@),
    ensures
        is_sorted_by(order, final(out)@),
        final(out)@.to_multiset() == old(out)@.to_multiset().insert(x),
        forall|e: ImageEntry|
            #[trigger] tie_class(order, final(out)@, e) == tie_class(order, old(out)@.push(x), e),
{
    let ghost s = out@;
    let mut p = out.len();
    while p > 0 && precedes_exec(order, &x, &out[p - 1])
        invariant
            out@ == s,
            p <= s.len(),
            forall|j: int| p <= j < s.len() ==> precedes(order, x, #[trigger] s[j]),
        decreases p,
    {
        p = p - 1;
    }
    proof {
        if p > 0 {
            assert(!precedes(order, x, s[p - 1]));
        }
    }
    out.insert(p, x);
    proof {
        let n = s.len() as int;
        let pi = p as int;
        let t = out@;
        assert(t =~= s.subrange(0, pi) + seq![x] + s.subrange(pi, n));
        assert forall|i: int, j: int| 0 <= i < j < t.len() implies !precedes(
            order,
            #[trigger] t[j],
            #[trigger] t[i],
        ) by {
            if j < pi {
                assert(t[i] == s[i] && t[j] == s[j]);
            } else if j == pi {
                assert(t[i] == s[i]);
                lemma_order_facts(order, x, s[pi - 1], s[i]);
                if i < pi - 1 {
                    assert(!precedes(order, s[pi - 1], s[i]));
                } else {
                    lemma_order_facts(order, s[i], s[i], s[i]);
                }
            } else if i == pi {
                assert(t[j] == s[j - 1]);
                lemma_order_facts(order, x, s[j - 1], x);
            } else if i < pi {
                assert(t[i] == s[i] && t[j] == s[j - 1]);
            } else {
                assert(t[i] == s[i - 1] && t[j] == s[j - 1]);
            }
        }
        to_multiset_insert(s, pi, x);
        assert forall|e: ImageEntry| #[trigger]
            tie_class(order, t, e) == tie_class(order, s.push(x), e) by {
            let pr = tie_pred(order, e);
            let a = s.subrange(0, pi);
            let b = s.subrange(pi, n);
            let xs = seq![x];
            assert(s.push(x) =~= a + b + xs);
            Seq::filter_distributes_over_add(a + xs, b, pr);
            Seq::filter_distributes_over_add(a, xs, pr);
            Seq::filter_distributes_over_add(a + b, xs, pr);
            Seq::filter_distributes_over_add(a, b, pr);
            if ties(order, x, e) {
                assert forall|i: int| 0 <= i < b.len() implies !pr(#[trigger] b[i]) by {
                    assert(b[i] == s[pi + i]);
                    lemma_order_facts(order, x, b[i], e);
                    lemma_order_facts(order, b[i], x, e);
                    lemma_order_facts(order, x, e, b[i]);
                    lemma_order_facts(order, e, x, b[i]);
                    lemma_order_facts(order, b[i], e, x);
                }
                lemma_filter_none(b, pr);
                assert(b.filter(pr) =~= Seq::<ImageEntry>::empty());
                assert(a.filter(pr) + xs.filter(pr) + b.filter(pr) =~= a.filter(pr) + b.filter(pr)
                    + xs.filter(pr));
            } else {
                assert(!pr(xs[0]));
                lemma_filter_none(xs, pr);
                assert(a.filter(pr) + xs.filter(pr) + b.filter(pr) =~= a.filter(pr) + b.filter(pr)
                    + xs.filter(pr));
            }
        }
    }
}

/// Stably sort `input` by `order`.
pub fn arrange(order: SortOrder, input: Vec<ImageEntry>) -> (out: Vec<ImageEntry>)
    ensures
        is_arrangement_of(order, out@, input@),
{
    let ghost orig = input@;
    let mut rest = input;
    let mut out: Vec<ImageEntry> = Vec::new();
    proof {
        assert(orig.take(0) =~= Seq::<ImageEntry>::empty());
        assert(rest@ =~= orig.skip(0));
    }
    while rest.len() > 0
        invariant
            rest@.len() <= orig.len(),
            rest@ == orig.skip(orig.len() - rest@.len()),
            is_arrangement_of(order, out@, orig.take(orig.len() - rest@.len())),
        decreases rest@.len(),
    {
        let ghost k = orig.len() - rest@.len();
        let x = rest.remove(0);
        proof {
            assert(x == orig[k]);
            assert(rest@ =~= orig.skip(k + 1));
            assert(orig.take(k + 1) =~= orig.take(k).push(x));
        }
        let ghost before = out@;
        insert_sorted(order, &mut out, x);
        proof {
            assert forall|e: ImageEntry| #[trigger]
                tie_class(order, out@, e) == tie_class(order, orig.take(k + 1), e) by {
                assert(tie_class(order, out@, e) == tie_class(order, before.push(x), e));
                assert(tie_class(order, before, e) == tie_class(order, orig.take(k), e));
                before.lemma_filter_push(x, tie_pred(order, e));
                orig.take(k).lemma_filter_push(x, tie_pred(order, e));
            }
        }
    }
    proof {
        assert(orig.take(orig.len() as int) =~= orig);
    }
    out
}

/// The sorted list of images found in the loaded folder.
pub struct ImageIndex {
    pub images: Vec<ImageEntry>,
    /// The order `images` is kept in.
    pub sort_order: SortOrder,
}

impl ImageIndex {
    /// The order the index keeps its images in.
    pub open spec fn order(&self) -> SortOrder {
        self.sort_order
    }

    /// An empty index sorted by name, A to Z.
    pub fn new() -> (index: Self)
        ensures
            index.images@ == Seq::<ImageEntry>::empty(),
            index.order() == SortOrder::NameAsc,
    {
        ImageIndex { images: Vec::new(), sort_order: SortOrder::NameAsc }
    }

    /// The order the index keeps its images in.
    pub fn sort_order(&self) -> (order: SortOrder)
        ensures
            order == self.order(),
    {
        self.sort_order
    }

    /// Whether a file name has a supported image extension: `jpg`, `jpeg` or
    /// `png`, in any letter case.
    pub fn is_supported(filename: &str) -> (b: bool)
        ensures
            b == is_image_name(filename@),
    {
        is_image_file_name(filename)
    }

    /// Replace the contents with the images of a directory listing, sorted in
    /// the index's order. Entries that are not regular files or lack a supported
    /// extension are skipped.
    pub fn scan_dir(&mut self, listing: &Vec<FileInfo>)
        ensures
            final(self).order() == old(self).order(),
            is_arrangement_of(old(self).order(), final(self).images@, scanned_entries(listing@)),
    {
        let mut found: Vec<ImageEntry> = Vec::new();
        let mut i: usize = 0;
        proof {
            assert(listing@.take(0) =~= Seq::<FileInfo>::empty());
            assert(scanned_entries(listing@.take(0)) =~= Seq::<ImageEntry>::empty());
        }
        while i < listing.len()
            invariant
                i <= listing@.len(),
                found@ == scanned_entries(listing@.take(i as int)),
            decreases listing@.len() - i,
        {
            let f = &listing[i];
            let keep = f.is_file && Self::is_supported(f.filename.as_str());
            proof {
                assert(listing@.take(i + 1) =~= listing@.take(i as int).push(*f));
                listing@.take(i as int).lemma_filter_push(*f, |f: FileInfo| is_image_file(f));
            }
            if keep {
                let entry = ImageEntry {
                    path: f.path.clone(),
                    filename: f.filename.clone(),
                    file_size: f.file_size,
                    date_modified: f.date_modified,
                };
                found.push(entry);
                proof {
                    let pre = listing@.take(i as int).filter(|f: FileInfo| is_image_file(f));
                    assert(pre.push(*f).map_values(|f: FileInfo| entry_of(f)) =~= pre.map_values(
                        |f: FileInfo| entry_of(f),
                    ).push(entry_of(*f)));
                }
            }
            i = i + 1;
        }
        proof {
            assert(listing@.take(listing@.len() as int) =~= listing@);
        }
        self.images = arrange(self.sort_order, found);
    }

    /// Drop every image stored at `path`, comparing paths by their components.
    pub fn remove_by_path(&mut self, path: &str)
        ensures
            final(self).order() == old(self).order(),
            final(self).images@ == old(self).images@.filter(not_at(path@)),
    {
        let ghost orig = self.images@;
        let target = normal_path(path);
        let mut rest: Vec<ImageEntry> = Vec::new();
        std::mem::swap(&mut rest, &mut self.images);
        proof {
            assert(orig.take(0) =~= Seq::<ImageEntry>::empty());
            assert(rest@ =~= orig.skip(0));
        }
        while rest.len() > 0
            invariant
                rest@.len() <= orig.len(),
                rest@ == orig.skip(orig.len() - rest@.len()),
                self.images@ == orig.take(orig.len() - rest@.len()).filter(not_at(path@)),
                self.sort_order == old(self).sort_order,
                target@ == normal_form(path@),
            decreases rest@.len(),
        {
            let ghost k = orig.len() - rest@.len();
            let e = rest.remove(0);
            proof {
                assert(e == orig[k]);
                assert(rest@ =~= orig.skip(k + 1));
                assert(orig.take(k + 1) =~= orig.take(k).push(e));
                orig.take(k).lemma_filter_push(e, not_at(path@));
            }
            if normal_path(e.path.as_str()) != target {
                self.images.push(e);
            }
        }
        proof {
            assert(orig.take(orig.len() as int) =~= orig);
        }
    }

    /// Re-sort the images in the current order.
    pub fn resort(&mut self)
        ensures
            final(self).order() == old(self).order(),
            is_arrangement_of(old(self).order(), final(self).images@, old(self).images@),
    {
        let mut taken: Vec<ImageEntry> = Vec::new();
        std::mem::swap(&mut taken, &mut self.images);
        self.images = arrange(self.sort_order, taken);
    }

    /// Switch to `order` and re-sort. Returns `false`, changing nothing, when
    /// the index is already in that order.
    pub fn set_sort_order(&mut self, order: SortOrder) -> (changed: bool)
        ensures
            changed == (order != old(self).order()),
            final(self).order() == order,
            !changed ==> final(self).images@ == old(self).images@,
            changed ==> is_arrangement_of(order, final(self).images@, old(self).images@),
    {
        if self.sort_order == order {
            return false;
        }
        self.sort_order = order;
        self.resort();
        true
    }
}

impl Default for ImageIndex {
    fn default() -> (index: Self)
        ensures
            index.images@ == Seq::<ImageEntry>::empty(),
            index.order() == SortOrder::NameAsc,
    {
        ImageIndex::new()
    }
}


/// Two sorted sequences with the same entries and the same order within each
/// tie class are equal.
proof fn lemma_sorted_classes_determine(order: SortOrder, a: Seq<ImageEntry>, b: Seq<ImageEntry>)
    requires
        is_sorted_by(order, a),
        is_sorted_by(order, b),
        a.to_multiset() == b.to_multiset(),
        forall|e: ImageEntry| #[trigger] tie_class(order, a, e) == tie_class(order, b, e),
    ensures
        a == b,
    decreases a.len(),
{
    broadcast use vstd::multiset::group_multiset_axioms;

    reveal(Seq::filter);
    assert(a.len() == a.to_multiset().len());
    assert(b.len() == b.to_multiset().len());
    if a.len() == 0 {
        assert(a =~= b);
        return;
    }
    let n = a.len() as int;
    let x = a.last();
    let y = b.last();
    // `y` occurs in `a`, `x` occurs in `b`; both are maximal, so they tie.
    assert(a.to_multiset().count(y) > 0);
    assert(a.contains(y));
    let k = choose|k: int| 0 <= k < n && a[k] == y;
    assert(a[n - 1] == x);
    assert(a.contains(x));
    assert(b.to_multiset().count(x) > 0);
    assert(b.contains(x));
    let m = choose|m: int| 0 <= m < n && b[m] == x;
    lemma_order_facts(order, x, y, x);
    lemma_order_facts(order, y, x, y);
    if k < n - 1 {
        assert(!precedes(order, a[n - 1], a[k]));
    }
    if m < n - 1 {
        assert(!precedes(order, b[n - 1], b[m]));
    }
    assert(ties(order, y, x));
    // The last member of `x`'s class is `x` in `a` and `y` in `b`.
    let p = tie_pred(order, x);
    assert(p(x) && p(y));
    assert(a.filter(p) == a.drop_last().filter(p).push(x));
    assert(b.filter(p) == b.drop_last().filter(p).push(y));
    assert(tie_class(order, a, x) == tie_class(order, b, x));
    assert(a.filter(p).last() == x);
    assert(b.filter(p).last() == y);
    assert(x == y);
    let a1 = a.drop_last();
    let b1 = b.drop_last();
    assert(a1.push(x) =~= a);
    assert(b1.push(x) =~= b);
    assert(is_sorted_by(order, a1)) by {
        assert forall|i: int, j: int| 0 <= i < j < a1.len() implies !precedes(
            order,
            #[trigger] a1[j],
            #[trigger] a1[i],
        ) by {
            assert(a1[i] == a[i] && a1[j] == a[j]);
        }
    }
    assert(is_sorted_by(order, b1)) by {
        assert forall|i: int, j: int| 0 <= i < j < b1.len() implies !precedes(
            order,
            #[trigger] b1[j],
            #[trigger] b1[i],
        ) by {
            assert(b1[i] == b[i] && b1[j] == b[j]);
        }
    }
    assert(a1.to_multiset() =~= b1.to_multiset()) by {
        to_multiset_build(a1, x);
        to_multiset_build(b1, x);
        assert(a.to_multiset() == a1.to_multiset().insert(x));
        assert(b.to_multiset() == b1.to_multiset().insert(x));
        assert forall|v: ImageEntry| a1.to_multiset().count(v) == b1.to_multiset().count(v) by {
            assert(a.to_multiset().count(v) == b.to_multiset().count(v));
            assert(a1.to_multiset().insert(x).count(v) == a1.to_multiset().count(v) + if v == x {
                1int
            } else {
                0int
            });
            assert(b1.to_multiset().insert(x).count(v) == b1.to_multiset().count(v) + if v == x {
                1int
            } else {
                0int
            });
        }
    }
    assert forall|e: ImageEntry| #[trigger] tie_class(order, a1, e) == tie_class(order, b1, e) by {
        let q = tie_pred(order, e);
        assert(tie_class(order, a, e) == tie_class(order, b, e));
        a1.lemma_filter_push(x, q);
        b1.lemma_filter_push(x, q);
        if q(x) {
            assert(a1.filter(q) =~= a1.push(x).filter(q).drop_last());
            assert(b1.filter(q) =~= b1.push(x).filter(q).drop_last());
        }
    }
    lemma_sorted_classes_determine(order, a1, b1);
}

/// Sorting is deterministic: a sequence has exactly one stable arrangement in
/// a given order, so `is_arrangement_of` pins the result of a sort down.
pub proof fn lemma_arrangement_unique(
    order: SortOrder,
    a: Seq<ImageEntry>,
    b: Seq<ImageEntry>,
    input: Seq<ImageEntry>,
)
    requires
        is_arrangement_of(order, a, input),
        is_arrangement_of(order, b, input),
    ensures
        a == b,
{
    assert forall|e: ImageEntry| #[trigger] tie_class(order, a, e) == tie_class(order, b, e) by {
        assert(tie_class(order, a, e) == tie_class(order, input, e));
        assert(tie_class(order, b, e) == tie_class(order, input, e));
    }
    lemma_sorted_classes_determine(order, a, b);
}

/// A sorted sequence is its own arrangement: sorting sorted data changes nothing.
pub proof fn lemma_sorted_is_fixed_point(order: SortOrder, s: Seq<ImageEntry>, out: Seq<ImageEntry>)
    requires
        is_sorted_by(order, s),
        is_arrangement_of(order, out, s),
    ensures
        out == s,
{
    lemma_arrangement_unique(order, out, s, s);
}


/// Whether `e` records a supported image file of `listing`.
pub open spec fn comes_from(listing: Seq<FileInfo>, e: ImageEntry) -> bool {
    exists|j: int| 0 <= j < listing.len() && is_image_file(listing[j]) && entry_of(listing[j]) == e
}

/// After a scan the library holds only images of the listing: every entry is a
/// regular file of the listing with a supported extension, recorded with that
/// file's path, name, size and date.
pub proof fn lemma_scan_keeps_only_images(order: SortOrder, out: Seq<ImageEntry>, listing: Seq<FileInfo>)
    requires
        is_arrangement_of(order, out, scanned_entries(listing)),
    ensures
        forall|i: int| 0 <= i < out.len() ==> comes_from(listing, #[trigger] out[i]),
        forall|i: int| 0 <= i < out.len() ==> is_image_name((#[trigger] out[i]).filename@),
        out.len() == listing.filter(|f: FileInfo| is_image_file(f)).len(),
{
    let keep = |f: FileInfo| is_image_file(f);
    let kept = listing.filter(keep);
    let scanned = scanned_entries(listing);
    assert(out.len() == out.to_multiset().len());
    assert(scanned.len() == scanned.to_multiset().len());
    assert forall|i: int| 0 <= i < out.len() implies comes_from(listing, #[trigger] out[i]) by {
        assert(out.contains(out[i]));
        assert(out.to_multiset().count(out[i]) > 0);
        assert(scanned.contains(out[i]));
        let k = choose|k: int| 0 <= k < scanned.len() && scanned[k] == out[i];
        assert(scanned[k] == entry_of(kept[k]));
        assert(keep(kept[k]));
        assert(kept.contains(kept[k]));
        listing.lemma_filter_contains_rev(keep, kept[k]);
        let j = choose|j: int| 0 <= j < listing.len() && listing[j] == kept[k];
        assert(is_image_file(listing[j]) && entry_of(listing[j]) == out[i]);
    }
    assert forall|i: int| 0 <= i < out.len() implies is_image_name((#[trigger] out[i]).filename@) by {
        assert(comes_from(listing, out[i]));
        let j = choose|j: int|
            0 <= j < listing.len() && is_image_file(listing[j]) && entry_of(listing[j]) == out[i];
    }
}

} // verus!
