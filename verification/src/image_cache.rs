//! Per-image metadata, cached by path.

use vstd::prelude::*;
use vstd::hash_map::StringHashMap;
use vstd::string::StringExecFns;

use crate::text::{normal_form, normal_path};

verus! {

/// Load state of an image: `Pending` until a thumbnail is made, `Ready` with
/// the thumbnail's bytes, or `Failed` with the reason it could not be read.
#[derive(Debug, PartialEq, Eq)]
pub enum ImageLoadState {
    Pending,
    Ready { thumbnail: Vec<u8> },
    Failed { reason: String },
}

/// The mathematical value of a load state.
pub enum LoadStateView {
    Pending,
    Ready { thumbnail: Seq<u8> },
    Failed { reason: Seq<char> },
}

impl View for ImageLoadState {
    type V = LoadStateView;

    open spec fn view(&self) -> LoadStateView {
        match self {
            ImageLoadState::Pending => LoadStateView::Pending,
            ImageLoadState::Ready { thumbnail } => LoadStateView::Ready { thumbnail: thumbnail@ },
            ImageLoadState::Failed { reason } => LoadStateView::Failed { reason: reason@ },
        }
    }
}

fn copy_bytes(bytes: &Vec<u8>) -> (out: Vec<u8>)
    ensures
        out@ == bytes@,
{
    let mut out: Vec<u8> = Vec::new();
    let mut i: usize = 0;
    while i < bytes.len()
        invariant
            i <= bytes@.len(),
            out@ == bytes@.take(i as int),
        decreases bytes@.len() - i,
    {
        out.push(bytes[i]);
        i = i + 1;
        assert(out@ =~= bytes@.take(i as int));
    }
    assert(bytes@.take(bytes@.len() as int) =~= bytes@);
    out
}

impl Clone for ImageLoadState {
    fn clone(&self) -> (copy: Self)
        ensures
            copy@ == self@,
    {
        match self {
            ImageLoadState::Pending => ImageLoadState::Pending,
            ImageLoadState::Ready { thumbnail } => ImageLoadState::Ready {
                thumbnail: copy_bytes(thumbnail),
            },
            ImageLoadState::Failed { reason } => ImageLoadState::Failed { reason: reason.clone() },
        }
    }
}

/// Metadata for a single image. The optional fields stay `None` until
/// something fills them in.
#[derive(Debug, PartialEq, Eq)]
pub struct Image {
    pub path: String,
    /// Pixel dimensions.
    pub dimensions: Option<(u32, u32)>,
    /// File size in bytes.
    pub file_size: Option<u64>,
    /// Date taken, in Unix seconds.
    pub date_taken: Option<u64>,
    /// Current load state.
    pub load_state: ImageLoadState,
}

/// The mathematical value of an image's metadata.
pub struct ImageView {
    pub path: Seq<char>,
    pub dimensions: Option<(u32, u32)>,
    pub file_size: Option<u64>,
    pub date_taken: Option<u64>,
    pub load_state: LoadStateView,
}

impl View for Image {
    type V = ImageView;

    open spec fn view(&self) -> ImageView {
        ImageView {
            path: self.path@,
            dimensions: self.dimensions,
            file_size: self.file_size,
            date_taken: self.date_taken,
            load_state: self.load_state@,
        }
    }
}

/// The metadata of an image nothing is known about yet, except its size.
pub open spec fn pending_view(path: Seq<char>, file_size: Option<u64>) -> ImageView {
    ImageView {
        path,
        dimensions: None,
        file_size,
        date_taken: None,
        load_state: LoadStateView::Pending,
    }
}

impl Clone for Image {
    fn clone(&self) -> (copy: Self)
        ensures
            copy@ == self@,
    {
        Image {
            path: self.path.clone(),
            dimensions: self.dimensions,
            file_size: self.file_size,
            date_taken: self.date_taken,
            load_state: self.load_state.clone(),
        }
    }
}

impl Image {
    /// An image known only by its path: no metadata, load state `Pending`.
    pub fn pending(path: String) -> (img: Self)
        ensures
            img@ == pending_view(path@, None),
    {
        Image {
            path,
            dimensions: None,
            file_size: None,
            date_taken: None,
            load_state: ImageLoadState::Pending,
        }
    }

    /// Whether a thumbnail is ready.
    pub fn is_ready(&self) -> (b: bool)
        ensures
            b == (self.load_state@ is Ready),
    {
        match self.load_state {
            ImageLoadState::Ready { .. } => true,
            _ => false,
        }
    }
}

/// The cache after looking `path` up: unchanged if an image with the same
/// components is cached, otherwise with a pending entry of the given size added
/// under the path's normal form.
pub open spec fn after_lookup(
    cache: Map<Seq<char>, ImageView>,
    path: Seq<char>,
    file_size: Option<u64>,
) -> Map<Seq<char>, ImageView> {
    if cache.contains_key(normal_form(path)) {
        cache
    } else {
        cache.insert(normal_form(path), pending_view(path, file_size))
    }
}

/// Looking a path up twice gives the same image both times and leaves the
/// cache as the first lookup left it, whatever size the second one offers;
/// so does looking up another spelling of the same path.
pub proof fn lemma_lookup_idempotent(
    cache: Map<Seq<char>, ImageView>,
    path: Seq<char>,
    other: Seq<char>,
    size1: Option<u64>,
    size2: Option<u64>,
)
    requires
        normal_form(other) == normal_form(path),
    ensures
        after_lookup(after_lookup(cache, path, size1), other, size2) == after_lookup(
            cache,
            path,
            size1,
        ),
        after_lookup(cache, path, size1).contains_key(normal_form(path)),
        cache.contains_key(normal_form(path)) ==> after_lookup(cache, path, size1)[normal_form(
            path,
        )] == cache[normal_form(path)],
{
}

/// Image metadata, cached by path.
pub struct ImageCache {
    cache: StringHashMap<Image>,
}

impl View for ImageCache {
    type V = Map<Seq<char>, ImageView>;

    /// The cached metadata, by the normal form of the image's path.
    closed spec fn view(&self) -> Map<Seq<char>, ImageView> {
        self.cache@.map_values(|img: Image| img@)
    }
}

impl ImageCache {
    /// Finitely many images are cached, each under the normal form of its path.
    pub open spec fn wf(&self) -> bool {
        &&& self@.dom().finite()
        &&& forall|p: Seq<char>| #[trigger] self@.contains_key(p) ==> normal_form(self@[p].path) == p
    }

    /// An empty cache.
    pub fn new() -> (cache: Self)
        ensures
            cache.wf(),
            cache@ == Map::<Seq<char>, ImageView>::empty(),
    {
        let cache = ImageCache { cache: StringHashMap::new() };
        assert(cache@ =~= Map::<Seq<char>, ImageView>::empty());
        cache
    }

    /// The image cached for `path` (or for any path with the same components),
    /// inserting a `Pending` entry with the given file size when there is none.
    /// The size is only used for a new entry.
    pub fn get(&mut self, path: &str, file_size: Option<u64>) -> (img: &Image)
        requires
            old(self).wf(),
        ensures
            final(self).wf(),
            final(self)@ == after_lookup(old(self)@, path@, file_size),
            img@ == final(self)@[normal_form(path@)],
            final(self)@.len() == old(self)@.len() + if old(self)@.contains_key(normal_form(path@)) {
                0int
            } else {
                1int
            },
    {
        let key = normal_path(path);
        if !self.cache.contains_key(key.as_str()) {
            let img = Image {
                path: String::from_str(path),
                dimensions: None,
                file_size,
                date_taken: None,
                load_state: ImageLoadState::Pending,
            };
            let ghost before = self@;
            self.cache.insert(key.clone(), img);
            assert(self@ =~= before.insert(normal_form(path@), pending_view(path@, file_size)));
        }
        self.cache.get(key.as_str()).unwrap()
    }

    /// The image cached for `path` (or for any path with the same components),
    /// if any; nothing is inserted.
    pub fn get_cached(&self, path: &str) -> (img: Option<&Image>)
        ensures
            match img {
                Some(i) => self@.contains_key(normal_form(path@)) && i@ == self@[normal_form(
                    path@,
                )],
                None => !self@.contains_key(normal_form(path@)),
            },
    {
        let key = normal_path(path);
        self.cache.get(key.as_str())
    }

    /// Mark a cached image as failed, with the reason; a path that is not
    /// cached is left alone.
    pub fn mark_failed(&mut self, path: &str, reason: String)
        requires
            old(self).wf(),
        ensures
            final(self).wf(),
            final(self)@ == if old(self)@.contains_key(normal_form(path@)) {
                old(self)@.insert(
                    normal_form(path@),
                    ImageView {
                        load_state: LoadStateView::Failed { reason: reason@ },
                        ..old(self)@[normal_form(path@)]
                    },
                )
            } else {
                old(self)@
            },
    {
        let key = normal_path(path);
        let updated = match self.cache.get(key.as_str()) {
            Some(found) => Image {
                path: found.path.clone(),
                dimensions: found.dimensions,
                file_size: found.file_size,
                date_taken: found.date_taken,
                load_state: ImageLoadState::Failed { reason },
            },
            None => {
                return ;
            },
        };
        let ghost before = self@;
        assert(before.contains_key(key@));
        assert(normal_form(updated.path@) == key@);
        self.cache.insert(key, updated);
        assert(self@ =~= before.insert(
            normal_form(path@),
            ImageView {
                load_state: LoadStateView::Failed { reason: reason@ },
                ..before[normal_form(path@)]
            },
        ));
    }

    /// Number of cached entries.
    pub fn len(&self) -> (n: usize)
        ensures
            n == self@.len(),
    {
        assert(self@.dom() =~= self.cache@.dom());
        self.cache.len()
    }

    /// Whether nothing is cached.
    pub fn is_empty(&self) -> (b: bool)
        ensures
            b == (self@.len() == 0),
    {
        self.len() == 0
    }

    /// Forget the entry for `path` (or for any path with the same components).
    pub fn remove(&mut self, path: &str)
        requires
            old(self).wf(),
        ensures
            final(self).wf(),
            final(self)@ == old(self)@.remove(normal_form(path@)),
            final(self)@.len() == old(self)@.len() - if old(self)@.contains_key(normal_form(path@)) {
                1int
            } else {
                0int
            },
    {
        let key = normal_path(path);
        let ghost before = self@;
        self.cache.remove(key.as_str());
        assert(self@ =~= before.remove(normal_form(path@)));
    }
}

} // verus!
