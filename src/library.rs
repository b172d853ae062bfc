//! The image library index: resolution buckets, each holding the paths of the
//! image files found in its directory.

use vstd::prelude::*;
use vstd::pervasive::VecAdditionalExecFns;
use rand::Rng;
use crate::resolution::{Resolution, parse_spec};

verus! {

/// What a directory entry is.
#[derive(Clone, Copy, Debug, PartialEq, Eq, Structural)]
pub enum EntryKind {
    Directory,
    File,
    Other,
}

/// An entry of a bucket directory.
#[derive(Debug, PartialEq, Eq)]
pub struct FsEntry {
    pub path: String,
    pub kind: EntryKind,
}

/// An entry of the root directory. For a directory, `contents` lists what
/// reading it gave, in the order it was read: an `Err` holds the cause of a
/// failed read and ends the listing.
#[derive(Debug, PartialEq, Eq)]
pub struct RootEntry {
    pub path: String,
    pub kind: EntryKind,
    pub contents: Vec<Result<FsEntry, String>>,
}

/// Why building the index failed.
#[derive(Debug, PartialEq, Eq)]
pub enum BuildError {
    /// The root is not a directory.
    NotADirectory,
    /// A bucket directory's path holds no resolution; it carries the path.
    InvalidBucketName(String),
    /// Reading the file system failed; it carries the cause.
    FilesystemError(String),
}

/// Why a query found no image.
#[derive(Clone, Copy, Debug, PartialEq, Eq, Structural)]
pub enum SelectionError {
    /// The index has no bucket.
    EmptyLibrary,
    /// The chosen bucket holds no image.
    EmptyBucket,
}

/// The model of an index: its buckets in order, each a resolution and the
/// image paths filed under it.
pub type LibraryModel = Seq<(Resolution, Seq<Seq<char>>)>;

pub open spec fn has_key(m: LibraryModel, r: Resolution) -> bool {
    exists|i: int| 0 <= i < m.len() && (#[trigger] m[i]).0 == r
}

pub open spec fn keys_unique(m: LibraryModel) -> bool {
    forall|i: int, j: int| 0 <= i < m.len() && 0 <= j < m.len() && (#[trigger] m[i]).0 == (#[trigger] m[j]).0 ==> i == j
}

/// Registering a resolution adds an empty bucket unless it is already there.
pub open spec fn add_resolution_spec(m: LibraryModel, r: Resolution) -> LibraryModel {
    if has_key(m, r) {
        m
    } else {
        m.push((r, Seq::empty()))
    }
}

/// Adding an image appends its path to the bucket of its resolution.
pub open spec fn add_image_spec(m: LibraryModel, r: Resolution, p: Seq<char>) -> LibraryModel {
    m.map_values(|b: (Resolution, Seq<Seq<char>>)| if b.0 == r { (b.0, b.1.push(p)) } else { b })
}

/// Filing the entries of a bucket directory under `r`: every regular file is
/// added, other entries are skipped, and a failed read stops with its cause.
pub open spec fn load_spec(m: LibraryModel, r: Resolution, c: Seq<Result<FsEntry, String>>) -> Result<LibraryModel, BuildError>
    decreases c.len(),
{
    if c.len() == 0 {
        Ok(m)
    } else {
        match load_spec(m, r, c.drop_last()) {
            Err(e) => Err(e),
            Ok(m2) => match c.last() {
                Err(e) => Err(BuildError::FilesystemError(e)),
                Ok(f) => if f.kind == EntryKind::File {
                    Ok(add_image_spec(m2, r, f.path@))
                } else {
                    Ok(m2)
                },
            },
        }
    }
}

/// One root entry's effect on the index being built.
pub open spec fn build_step(m: LibraryModel, e: Result<RootEntry, String>) -> Result<LibraryModel, BuildError> {
    match e {
        Err(cause) => Err(BuildError::FilesystemError(cause)),
        Ok(d) => if d.kind != EntryKind::Directory {
            Ok(m)
        } else {
            match parse_spec(d.path@) {
                Err(_) => Err(BuildError::InvalidBucketName(d.path)),
                Ok(r) => load_spec(add_resolution_spec(m, r), r, d.contents@),
            }
        },
    }
}

/// The index that the root entries `l` give, taken in order; the first
/// failure ends the build.
pub open spec fn build_spec(l: Seq<Result<RootEntry, String>>) -> Result<LibraryModel, BuildError>
    decreases l.len(),
{
    if l.len() == 0 {
        Ok(Seq::empty())
    } else {
        match build_spec(l.drop_last()) {
            Err(e) => Err(e),
            Ok(m) => build_step(m, l.last()),
        }
    }
}

/// Once loading a prefix of the entries fails, loading them all fails alike.
proof fn lemma_load_failure_final(m: LibraryModel, r: Resolution, c: Seq<Result<FsEntry, String>>, n: int)
    requires
        0 <= n <= c.len(),
        load_spec(m, r, c.take(n)) is Err,
    ensures
        load_spec(m, r, c) == load_spec(m, r, c.take(n)),
    decreases c.len() - n,
{
    if n < c.len() {
        assert(c.take(n + 1).drop_last() =~= c.take(n));
        lemma_load_failure_final(m, r, c, n + 1);
    } else {
        assert(c.take(n) =~= c);
    }
}

/// Adding an image keeps every bucket's resolution in its place.
proof fn lemma_add_image_keys(m: LibraryModel, r: Resolution, p: Seq<char>)
    ensures
        add_image_spec(m, r, p).len() == m.len(),
        forall|i: int| 0 <= i < m.len() ==> (#[trigger] add_image_spec(m, r, p)[i]).0 == m[i].0,
        has_key(m, r) ==> has_key(add_image_spec(m, r, p), r),
        keys_unique(m) ==> keys_unique(add_image_spec(m, r, p)),
{
    if has_key(m, r) {
        let i = choose|i: int| 0 <= i < m.len() && (#[trigger] m[i]).0 == r;
        assert(add_image_spec(m, r, p)[i].0 == r);
    }
}

/// Once building from a prefix of the entries fails, building from them all
/// fails alike.
pub proof fn lemma_build_failure_final(l: Seq<Result<RootEntry, String>>, n: int)
    requires
        0 <= n <= l.len(),
        build_spec(l.take(n)) is Err,
    ensures
        build_spec(l) == build_spec(l.take(n)),
    decreases l.len() - n,
{
    if n < l.len() {
        assert(l.take(n + 1).drop_last() =~= l.take(n));
        lemma_build_failure_final(l, n + 1);
    } else {
        assert(l.take(n) =~= l);
    }
}

struct Bucket {
    resolution: Resolution,
    images: Vec<String>,
}

impl Bucket {
    spec fn model(&self) -> (Resolution, Seq<Seq<char>>) {
        (self.resolution, self.images@.map_values(|s: String| s@))
    }
}

/// An index from resolution to the paths of the images of that resolution.
pub struct ImageLibrary {
    buckets: Vec<Bucket>,
}

impl View for ImageLibrary {
    type V = LibraryModel;

    closed spec fn view(&self) -> LibraryModel {
        self.buckets@.map_values(|b: Bucket| b.model())
    }
}

/// Draws an index below `n`, uniformly.
///
/// Relies on `rand::thread_rng` and `rand::Rng::gen_range`, which returns a
/// value of the half-open range and panics only on an empty one.
#[verifier::external_body]
fn random_index(n: usize) -> (r: usize)
    requires
        n > 0,
    ensures
        r < n,
{
    rand::thread_rng().gen_range(0..n)
}

impl ImageLibrary {
    pub open spec fn wf(&self) -> bool {
        keys_unique(self@)
    }

    /// An index with no bucket.
    pub fn default() -> (r: ImageLibrary)
        ensures
            r@ == Seq::<(Resolution, Seq<Seq<char>>)>::empty(),
            r.wf(),
    {
        let r = ImageLibrary { buckets: Vec::new() };
        assert(r@ =~= Seq::<(Resolution, Seq<Seq<char>>)>::empty());
        r
    }

    /// The position of the bucket of `resolution`, if there is one.
    fn find(&self, resolution: &Resolution) -> (r: Option<usize>)
        ensures
            r matches Some(i) ==> i < self@.len() && self@[i as int].0 == *resolution,
            r is None ==> !has_key(self@, *resolution),
    {
        let mut i: usize = 0;
        while i < self.buckets.len()
            invariant
                i <= self.buckets@.len(),
                forall|k: int| 0 <= k < i ==> (#[trigger] self@[k]).0 != *resolution,
            decreases self.buckets@.len() - i,
        {
            if self.buckets[i].resolution == *resolution {
                return Some(i);
            }
            i = i + 1;
        }
        None
    }

    /// Registers `resolution` with an empty bucket; a resolution already
    /// present keeps its bucket as it is.
    pub fn add_resolution(&mut self, resolution: Resolution)
        requires
            old(self).wf(),
        ensures
            final(self)@ == add_resolution_spec(old(self)@, resolution),
            final(self).wf(),
            has_key(final(self)@, resolution),
    {
        match self.find(&resolution) {
            Some(i) => {
                assert(self@[i as int].0 == resolution);
            },
            None => {
                let b = Bucket { resolution, images: Vec::new() };
                assert(b.model().1 =~= Seq::<Seq<char>>::empty());
                self.buckets.push(b);
                assert(self@ =~= add_resolution_spec(old(self)@, resolution));
                assert(self@[self@.len() - 1].0 == resolution);
            },
        }
    }

    /// Appends `image_path` to the bucket of `resolution`, which must be
    /// registered.
    pub fn add_image(&mut self, resolution: &Resolution, image_path: String)
        requires
            old(self).wf(),
            has_key(old(self)@, *resolution),
        ensures
            final(self)@ == add_image_spec(old(self)@, *resolution, image_path@),
            final(self).wf(),
    {
        let j = self.find(resolution).unwrap();
        let mut b = Bucket { resolution: *resolution, images: Vec::new() };
        self.buckets.set_and_swap(j, &mut b);
        b.images.push(image_path);
        assert(b.model().1 =~= old(self)@[j as int].1.push(image_path@));
        self.buckets.set_and_swap(j, &mut b);
        assert(self@ =~= add_image_spec(old(self)@, *resolution, image_path@));
    }

    /// Files the regular files among `contents` under `resolution`, which must
    /// be registered; a failed read ends it with `FilesystemError`.
    pub fn load_images(&mut self, resolution: Resolution, contents: &Vec<Result<FsEntry, String>>) -> (r: Result<(), BuildError>)
        requires
            old(self).wf(),
            has_key(old(self)@, resolution),
        ensures
            final(self).wf(),
            load_spec(old(self)@, resolution, contents@) matches Ok(m) ==> r is Ok && final(self)@ == m,
            load_spec(old(self)@, resolution, contents@) matches Err(e) ==> r == Err::<(), BuildError>(e),
    {
        let mut k: usize = 0;
        while k < contents.len()
            invariant
                k <= contents@.len(),
                self.wf(),
                has_key(self@, resolution),
                load_spec(old(self)@, resolution, contents@.take(k as int)) == Ok::<LibraryModel, BuildError>(self@),
            decreases contents@.len() - k,
        {
            proof {
                assert(contents@.take(k as int + 1).drop_last() =~= contents@.take(k as int));
            }
            match &contents[k] {
                Err(e) => {
                    proof {
                        lemma_load_failure_final(old(self)@, resolution, contents@, k as int + 1);
                    }
                    return Err(BuildError::FilesystemError(e.clone()));
                },
                Ok(f) => {
                    if f.kind == EntryKind::File {
                        proof {
                            lemma_add_image_keys(self@, resolution, f.path@);
                        }
                        self.add_image(&resolution, f.path.clone());
                    }
                },
            }
            k = k + 1;
        }
        assert(contents@.take(k as int) =~= contents@);
        Ok(())
    }

    /// Builds the index from a listing of the root directory: `root_is_dir`
    /// tells whether the root is a directory, `entries` what reading it gave,
    /// in order (an `Err` holds the cause of a failed read).
    ///
    /// Entries that are not directories are skipped. Each directory's path
    /// must hold a resolution, under which the regular files it contains are
    /// filed; directories with equal resolutions share one bucket.
    pub fn new(root_is_dir: bool, entries: &Vec<Result<RootEntry, String>>) -> (r: Result<ImageLibrary, BuildError>)
        ensures
            !root_is_dir ==> r == Err::<ImageLibrary, BuildError>(BuildError::NotADirectory),
            root_is_dir ==> (build_spec(entries@) matches Ok(m) ==> r is Ok && r->Ok_0@ == m && r->Ok_0.wf()),
            root_is_dir ==> (build_spec(entries@) matches Err(e) ==> r == Err::<ImageLibrary, BuildError>(e)),
    {
        if !root_is_dir {
            return Err(BuildError::NotADirectory);
        }
        let mut library = ImageLibrary::default();
        let mut k: usize = 0;
        while k < entries.len()
            invariant
                root_is_dir,
                k <= entries@.len(),
                library.wf(),
                build_spec(entries@.take(k as int)) == Ok::<LibraryModel, BuildError>(library@),
            decreases entries@.len() - k,
        {
            proof {
                assert(entries@.take(k as int + 1).drop_last() =~= entries@.take(k as int));
            }
            match &entries[k] {
                Err(e) => {
                    proof {
                        lemma_build_failure_final(entries@, k as int + 1);
                    }
                    return Err(BuildError::FilesystemError(e.clone()));
                },
                Ok(d) => {
                    if d.kind == EntryKind::Directory {
                        match Resolution::new(d.path.as_str()) {
                            Err(_) => {
                                proof {
                                    lemma_build_failure_final(entries@, k as int + 1);
                                }
                                return Err(BuildError::InvalidBucketName(d.path.clone()));
                            },
                            Ok(resolution) => {
                                library.add_resolution(resolution);
                                match library.load_images(resolution, &d.contents) {
                                    Err(e) => {
                                        proof {
                                            lemma_build_failure_final(entries@, k as int + 1);
                                        }
                                        return Err(e);
                                    },
                                    Ok(()) => {},
                                }
                            },
                        }
                    }
                },
            }
            k = k + 1;
        }
        assert(entries@.take(k as int) =~= entries@);
        Ok(library)
    }

    /// The number of buckets.
    pub fn bucket_count(&self) -> (r: usize)
        ensures
            r == self@.len(),
    {
        self.buckets.len()
    }

    /// The resolutions of the buckets, in bucket order.
    pub fn resolutions(&self) -> (r: Vec<Resolution>)
        ensures
            r@ == self@.map_values(|b: (Resolution, Seq<Seq<char>>)| b.0),
    {
        let mut r: Vec<Resolution> = Vec::new();
        let mut i: usize = 0;
        while i < self.buckets.len()
            invariant
                i <= self.buckets@.len(),
                r@ == self@.take(i as int).map_values(|b: (Resolution, Seq<Seq<char>>)| b.0),
            decreases self.buckets@.len() - i,
        {
            r.push(self.buckets[i].resolution);
            assert(self@.take(i as int + 1).map_values(|b: (Resolution, Seq<Seq<char>>)| b.0)
                =~= self@.take(i as int).map_values(|b: (Resolution, Seq<Seq<char>>)| b.0).push(self@[i as int].0));
            i = i + 1;
        }
        assert(self@.take(i as int) =~= self@);
        r
    }

    /// The image paths filed under `resolution`, or `None` where it has no
    /// bucket.
    pub fn images_of(&self, resolution: &Resolution) -> (r: Option<&Vec<String>>)
        ensures
            r is None <==> !has_key(self@, *resolution),
            r matches Some(v) ==> exists|i: int| 0 <= i < self@.len() && (#[trigger] self@[i]).0 == *resolution
                && v@.map_values(|s: String| s@) == self@[i].1,
    {
        match self.find(resolution) {
            None => None,
            Some(i) => Some(&self.buckets[i].images),
        }
    }

    /// The image at position `image` of bucket `bucket`: what a query returns
    /// once it has drawn these two positions. A bucket with no image gives
    /// `EmptyBucket`.
    pub fn select_image(&self, bucket: usize, image: usize) -> (r: Result<&String, SelectionError>)
        requires
            bucket < self@.len(),
            self@[bucket as int].1.len() > 0 ==> image < self@[bucket as int].1.len(),
        ensures
            self@[bucket as int].1.len() == 0 ==> r == Err::<&String, SelectionError>(SelectionError::EmptyBucket),
            self@[bucket as int].1.len() > 0 ==> r is Ok && r->Ok_0@ == self@[bucket as int].1[image as int],
    {
        let images = &self.buckets[bucket].images;
        if images.len() == 0 {
            Err(SelectionError::EmptyBucket)
        } else {
            Ok(&images[image])
        }
    }

    /// Picks an image at random in two stages: a bucket, uniformly among all
    /// buckets, then an image, uniformly within that bucket. An index with no
    /// bucket gives `EmptyLibrary`; a chosen bucket with no image gives
    /// `EmptyBucket`.
    pub fn get_random_image(&self) -> (r: Result<&String, SelectionError>)
        ensures
            self@.len() == 0 <==> r == Err::<&String, SelectionError>(SelectionError::EmptyLibrary),
            r == Err::<&String, SelectionError>(SelectionError::EmptyBucket) ==> exists|b: int|
                0 <= b < self@.len() && (#[trigger] self@[b]).1.len() == 0,
            r is Ok ==> exists|b: int, i: int| 0 <= b < self@.len() && 0 <= i < self@[b].1.len()
                && r->Ok_0@ == #[trigger] self@[b].1[i],
            (self@.len() > 0 && forall|b: int| 0 <= b < self@.len() ==> (#[trigger] self@[b]).1.len() > 0)
                ==> r is Ok,
            (self@.len() > 0 && forall|b: int| 0 <= b < self@.len() ==> (#[trigger] self@[b]).1.len() == 0)
                ==> r == Err::<&String, SelectionError>(SelectionError::EmptyBucket),
    {
        let n = self.buckets.len();
        if n == 0 {
            return Err(SelectionError::EmptyLibrary);
        }
        let bucket = random_index(n);
        let size = self.buckets[bucket].images.len();
        let image = if size == 0 { 0 } else { random_index(size) };
        self.select_image(bucket, image)
    }
}

} // verus!
