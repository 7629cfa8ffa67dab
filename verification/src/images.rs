//! The image resource cache: entries keyed by resolved path, each
//! holding an optional decoded pixel buffer (absent is a cached miss,
//! not retried), an optional atlas-region handle assigned once during a
//! batched build pass, and a liveness flag reset at the start of each
//! render pass and set on any touch.
//!
//! The caller reads the file only when `contains` says the path is
//! uncached, and hands the raw bytes to `load`; decoding happens here.
//! Decode failures are absorbed as cached misses and never surface.

use vstd::prelude::*;
use crate::text::bytes_eq;

verus! {

/// Mathematical model of a decoded pixel buffer.
pub ghost struct ImageBufV {
    pub width: u32,
    pub height: u32,
    pub pixels: Seq<u8>,
}

/// A decoded pixel buffer: dimensions and RGBA bytes.
pub struct ImageBuf {
    pub width: u32,
    pub height: u32,
    pub pixels: Vec<u8>,
}

impl View for ImageBuf {
    type V = ImageBufV;

    open spec fn view(&self) -> ImageBufV {
        ImageBufV { width: self.width, height: self.height, pixels: self.pixels@ }
    }
}

/// Mathematical model of one cache entry.
pub ghost struct ImageDataV {
    pub used: bool,
    pub image: Option<ImageBufV>,
    pub rect: Option<i32>,
}

/// One cache entry: liveness flag, optional decoded buffer (absent is a
/// cached miss), optional atlas-region handle.
pub struct ImageData {
    pub used: bool,
    pub image: Option<ImageBuf>,
    pub rect: Option<i32>,
}

impl View for ImageData {
    type V = ImageDataV;

    open spec fn view(&self) -> ImageDataV {
        ImageDataV {
            used: self.used,
            image: match self.image {
                Some(b) => Some(b@),
                None => None,
            },
            rect: self.rect,
        }
    }
}

impl ImageData {
    /// A fresh entry: live, no region handle yet.
    pub fn new(image: Option<ImageBuf>) -> (r: Self)
        ensures
            r@.used == true,
            r@.rect is None,
            r@.image == match image {
                Some(b) => Some(b@),
                None => None::<ImageBufV>,
            },
    {
        ImageData { used: true, image, rect: None }
    }
}

/// What the PNG decoder returns for given bytes: a function of the
/// bytes alone.
pub uninterp spec fn png_decode(bytes: Seq<u8>) -> Option<ImageBufV>;

/// Relies on image::load_from_memory_with_format with the PNG format:
/// decoding is a pure computation, so its result is a function of the
/// bytes alone; a failure is reported as `None`.
#[verifier::external_body]
fn decode_png(bytes: &Vec<u8>) -> (r: Option<ImageBuf>)
    ensures
        (r is Some) == (png_decode(bytes@) is Some),
        r matches Some(b) ==> png_decode(bytes@) == Some(b@),
{
    match image::load_from_memory_with_format(bytes, image::ImageFormat::Png) {
        Ok(img) => {
            let rgba = img.to_rgba8();
            let width = rgba.width();
            let height = rgba.height();
            Some(ImageBuf { width, height, pixels: rgba.into_raw() })
        },
        Err(_) => None,
    }
}

/// What `load` decodes out of the optional raw file bytes.
pub open spec fn decoded_of(ob: Option<Vec<u8>>) -> Option<ImageBufV> {
    match ob {
        Some(b) => png_decode(b@),
        None => None,
    }
}

/// The cache model: entries in insertion order.
pub open spec fn contains_key(m: Seq<(Seq<u8>, ImageDataV)>, k: Seq<u8>) -> bool {
    exists|i: int| 0 <= i < m.len() && (#[trigger] m[i]).0 == k
}

/// The first entry with the given key.
pub open spec fn lookup(m: Seq<(Seq<u8>, ImageDataV)>, k: Seq<u8>) -> Option<ImageDataV>
    decreases m.len(),
{
    if m.len() == 0 {
        None
    } else if m[0].0 == k {
        Some(m[0].1)
    } else {
        lookup(m.drop_first(), k)
    }
}

/// Keys are unique: the cache holds one entry per path.
pub open spec fn uniq(m: Seq<(Seq<u8>, ImageDataV)>) -> bool {
    forall|i: int, j: int| 0 <= i < j < m.len() ==> (#[trigger] m[i]).0 != (#[trigger] m[j]).0
}

/// Marking the entry with the given key live.
pub open spec fn touch(m: Seq<(Seq<u8>, ImageDataV)>, k: Seq<u8>) -> Seq<(Seq<u8>, ImageDataV)> {
    Seq::new(
        m.len(),
        |i: int|
            if m[i].0 == k {
                (m[i].0, ImageDataV { used: true, ..m[i].1 })
            } else {
                m[i]
            },
    )
}

/// End-of-pass housekeeping: entries not touched since the previous
/// pass are purged; touched entries are kept, reset to not-live.
pub open spec fn purge(m: Seq<(Seq<u8>, ImageDataV)>) -> Seq<(Seq<u8>, ImageDataV)>
    decreases m.len(),
{
    if m.len() == 0 {
        Seq::empty()
    } else {
        (if m[0].1.used {
            seq![(m[0].0, ImageDataV { used: false, ..m[0].1 })]
        } else {
            Seq::empty()
        }) + purge(m.drop_first())
    }
}

/// How many entries among the first `i` still need an atlas region:
/// a decoded buffer and no handle yet.
pub open spec fn pend_before(m: Seq<(Seq<u8>, ImageDataV)>, i: int) -> nat
    decreases i,
{
    if i <= 0 {
        0
    } else {
        pend_before(m, i - 1) + (if m[i - 1].1.image is Some && m[i - 1].1.rect is None {
            1nat
        } else {
            0nat
        })
    }
}

/// The entries that still need a region, in cache order: path and
/// pixel dimensions of each.
pub open spec fn pending_list(m: Seq<(Seq<u8>, ImageDataV)>) -> Seq<(Seq<u8>, u32, u32)>
    decreases m.len(),
{
    if m.len() == 0 {
        Seq::empty()
    } else {
        (if m[0].1.image is Some && m[0].1.rect is None {
            seq![(m[0].0, m[0].1.image.unwrap().width, m[0].1.image.unwrap().height)]
        } else {
            Seq::empty()
        }) + pending_list(m.drop_first())
    }
}

/// The region handle an entry holds after a build pass that hands out
/// `rects` to the pending entries in order.
pub open spec fn rect_after(m: Seq<(Seq<u8>, ImageDataV)>, i: int, rects: Seq<i32>) -> Option<
    i32,
> {
    if m[i].1.rect is Some {
        m[i].1.rect
    } else if m[i].1.image is Some {
        Some(rects[pend_before(m, i) as int])
    } else {
        None
    }
}

/// What `load` returns: a summary of the entry, plus the one-way signal
/// that the shared atlas texture needs rebuilding.
pub struct LoadResult {
    pub has_image: bool,
    pub width: u32,
    pub height: u32,
    pub rect: Option<i32>,
    pub invalidated: bool,
}

/// The cache itself.
pub struct ImageLoader {
    entries: Vec<(Vec<u8>, ImageData)>,
}

impl View for ImageLoader {
    type V = Seq<(Seq<u8>, ImageDataV)>;

    closed spec fn view(&self) -> Seq<(Seq<u8>, ImageDataV)> {
        Seq::new(self.entries@.len(), |i: int| (self.entries@[i].0@, self.entries@[i].1@))
    }
}

impl ImageLoader {
    /// The cache's invariant: one entry per path.
    pub open spec fn inv(&self) -> bool {
        uniq(self@)
    }

    /// A fresh, empty cache.
    pub fn new() -> (r: ImageLoader)
        ensures
            r@ =~= Seq::<(Seq<u8>, ImageDataV)>::empty(),
            r.inv(),
    {
        ImageLoader { entries: Vec::new() }
    }

    /// Whether the path is cached (hit or recorded miss). The caller
    /// reads the file only when this is false.
    pub fn contains(&self, path: &Vec<u8>) -> (r: bool)
        ensures
            r == contains_key(self@, path@),
    {
        match self.index_of(path) {
            Some(_) => true,
            None => false,
        }
    }

    fn index_of(&self, path: &Vec<u8>) -> (r: Option<usize>)
        ensures
            match r {
                Some(i) => i < self@.len() && self@[i as int].0 == path@ && forall|j: int|
                    0 <= j < i ==> self@[j].0 != path@,
                None => !contains_key(self@, path@),
            },
    {
        let mut i: usize = 0;
        while i < self.entries.len()
            invariant
                0 <= i <= self.entries@.len(),
                self@.len() == self.entries@.len(),
                forall|j: int| 0 <= j < i ==> self@[j].0 != path@,
            decreases self.entries.len() - i,
        {
            if bytes_eq(&self.entries[i].0, path) {
                assert(self@[i as int].0 == path@);
                return Some(i);
            }
            assert(self@[i as int].0 != path@);
            i += 1;
        }
        None
    }

    /// Returns the cached data for the path, marking the entry live. On
    /// a cache miss the raw file bytes, if any, are decoded and the
    /// result — even a failed decode — is cached; the atlas is
    /// invalidated only on a first successful decode.
    pub fn load(&mut self, path: &Vec<u8>, file_bytes: Option<Vec<u8>>) -> (r: LoadResult)
        requires
            old(self).inv(),
        ensures
            final(self).inv(),
            contains_key(old(self)@, path@) ==> {
                &&& final(self)@ == touch(old(self)@, path@)
                &&& r.invalidated == false
                &&& lookup(old(self)@, path@) matches Some(e) && r.has_image == (e.image is Some)
                    && r.rect == e.rect && r.width == (match e.image {
                    Some(b) => b.width,
                    None => 0u32,
                }) && r.height == (match e.image {
                    Some(b) => b.height,
                    None => 0u32,
                })
            },
            !contains_key(old(self)@, path@) ==> {
                &&& final(self)@ == old(self)@.push(
                    (
                        path@,
                        ImageDataV { used: true, image: decoded_of(file_bytes), rect: None },
                    ),
                )
                &&& r.invalidated == (decoded_of(file_bytes) is Some)
                &&& r.has_image == (decoded_of(file_bytes) is Some)
                &&& r.rect is None
                &&& r.width == (match decoded_of(file_bytes) {
                    Some(b) => b.width,
                    None => 0u32,
                }) && r.height == (match decoded_of(file_bytes) {
                    Some(b) => b.height,
                    None => 0u32,
                })
            },
    {
        let ghost m0 = self@;
        match self.index_of(path) {
            Some(i) => {
                let entry = &mut self.entries[i].1;
                entry.used = true;
                proof {
                    assert(contains_key(m0, path@));
                    lemma_lookup_first(m0, path@, i as int);
                    assert forall|j: int| 0 <= j < m0.len() && j != i implies m0[j].0 != path@
                        by {}
                    assert(self@ =~= touch(m0, path@));
                }
                let e = &self.entries[i].1;
                let has_image = e.image.is_some();
                let width = match &e.image {
                    Some(b) => b.width,
                    None => 0,
                };
                let height = match &e.image {
                    Some(b) => b.height,
                    None => 0,
                };
                LoadResult { has_image, width, height, rect: e.rect, invalidated: false }
            },
            None => {
                let img = match file_bytes {
                    Some(b) => decode_png(&b),
                    None => None,
                };
                let has_image = img.is_some();
                let width = match &img {
                    Some(b) => b.width,
                    None => 0,
                };
                let height = match &img {
                    Some(b) => b.height,
                    None => 0,
                };
                let path_copy = crate::text::copy_bytes(path);
                self.entries.push((path_copy, ImageData::new(img)));
                proof {
                    assert(self@ =~= m0.push(
                        (
                            path@,
                            ImageDataV {
                                used: true,
                                image: decoded_of(file_bytes),
                                rect: None,
                            },
                        ),
                    ));
                    assert forall|i: int, j: int|
                        0 <= i < j < self@.len() implies (#[trigger] self@[i]).0 != (
                    #[trigger] self@[j]).0 by {
                        if j < m0.len() {
                        } else {
                            assert(self@[j].0 == path@);
                            assert(!contains_key(m0, path@));
                            assert(self@[i] == m0[i]);
                        }
                    }
                }
                LoadResult {
                    has_image,
                    width,
                    height,
                    rect: None,
                    invalidated: has_image,
                }
            },
        }
    }

    /// The entries that still need an atlas region, in cache order:
    /// path and pixel dimensions of each.
    pub fn pending_images(&self) -> (r: Vec<(Vec<u8>, u32, u32)>)
        ensures
            r@.len() == pend_before(self@, self@.len() as int),
            Seq::new(r@.len(), |i: int| (r@[i].0@, r@[i].1, r@[i].2)) == pending_list(self@),
    {
        let mut out: Vec<(Vec<u8>, u32, u32)> = Vec::new();
        let mut i: usize = 0;
        proof {
            assert(pending_list(self@.take(0)) =~= Seq::<(Seq<u8>, u32, u32)>::empty());
            assert(Seq::new(out@.len(), |k: int| (out@[k].0@, out@[k].1, out@[k].2)) =~=
                pending_list(self@.take(0)));
        }
        while i < self.entries.len()
            invariant
                0 <= i <= self.entries@.len(),
                self@.len() == self.entries@.len(),
                out@.len() == pend_before(self@, i as int),
                Seq::new(out@.len(), |k: int| (out@[k].0@, out@[k].1, out@[k].2)) == pending_list(
                    self@.take(i as int),
                ),
            decreases self.entries.len() - i,
        {
            proof {
                lemma_pending_push(self@.take(i as int), self@[i as int]);
                assert(self@.take(i as int).push(self@[i as int]) =~= self@.take(i as int + 1));
            }
            let e = &self.entries[i];
            match (&e.1.image, &e.1.rect) {
                (Some(b), None) => {
                    let p = crate::text::copy_bytes(&e.0);
                    out.push((p, b.width, b.height));
                    proof {
                        assert(self@[i as int].1.image is Some && self@[i as int].1.rect
                            is None);
                        assert(self@[i as int].1.image.unwrap().width == b.width);
                        assert(self@[i as int].1.image.unwrap().height == b.height);
                        assert(Seq::new(out@.len(), |k: int| (out@[k].0@, out@[k].1, out@[k].2))
                            =~= pending_list(self@.take(i as int + 1)));
                    }
                },
                _ => {
                    proof {
                        assert(!(self@[i as int].1.image is Some && self@[i as int].1.rect
                            is None));
                        assert(pending_list(self@.take(i as int + 1)) =~= pending_list(
                            self@.take(i as int),
                        ));
                    }
                },
            }
            i += 1;
        }
        proof {
            assert(self@.take(i as int) =~= self@);
        }
        out
    }

    /// A copy of the decoded pixels for a path, for the host's
    /// pixel-copy callback.
    pub fn copy_pixels(&self, path: &Vec<u8>) -> (r: Option<Vec<u8>>)
        ensures
            match lookup(self@, path@) {
                Some(e) => match e.image {
                    Some(b) => r matches Some(p) && p@ == b.pixels,
                    None => r is None,
                },
                None => r is None,
            },
    {
        match self.index_of(path) {
            None => {
                proof {
                    lemma_lookup_none(self@, path@);
                }
                None
            },
            Some(i) => {
                proof {
                    lemma_lookup_first(self@, path@, i as int);
                }
                match &self.entries[i].1.image {
                    Some(b) => Some(crate::text::copy_bytes(&b.pixels)),
                    None => None,
                }
            },
        }
    }

    /// Assigns the given region handles to the pending entries in cache
    /// order, one each. Entries already holding a handle are untouched;
    /// cached misses stay without one. Afterwards every entry with a
    /// decoded buffer holds exactly one handle.
    pub fn build_atlas(&mut self, rects: &Vec<i32>)
        requires
            old(self).inv(),
            rects@.len() == pend_before(old(self)@, old(self)@.len() as int),
        ensures
            final(self).inv(),
            final(self)@.len() == old(self)@.len(),
            forall|i: int| 0 <= i < old(self)@.len() ==> {
                &&& (#[trigger] final(self)@[i]).0 == old(self)@[i].0
                &&& final(self)@[i].1.used == old(self)@[i].1.used
                &&& final(self)@[i].1.image == old(self)@[i].1.image
                &&& final(self)@[i].1.rect == rect_after(old(self)@, i, rects@)
            },
            forall|i: int| 0 <= i < final(self)@.len() ==> ((#[trigger] final(self)@[i]).1.image
                is Some ==> final(self)@[i].1.rect is Some),
    {
        let ghost m0 = self@;
        let mut used: usize = 0;
        let mut i: usize = 0;
        while i < self.entries.len()
            invariant
                0 <= i <= self.entries@.len(),
                self@.len() == self.entries@.len(),
                self@.len() == m0.len(),
                used == pend_before(m0, i as int),
                rects@.len() == pend_before(m0, m0.len() as int),
                forall|j: int| i <= j < m0.len() ==> #[trigger] self@[j] == m0[j],
                forall|j: int| 0 <= j < i ==> {
                    &&& (#[trigger] self@[j]).0 == m0[j].0
                    &&& self@[j].1.used == m0[j].1.used
                    &&& self@[j].1.image == m0[j].1.image
                    &&& self@[j].1.rect == rect_after(m0, j, rects@)
                },
            decreases self.entries.len() - i,
        {
            let ghost pre = self@;
            let needs = self.entries[i].1.image.is_some() && self.entries[i].1.rect.is_none();
            if needs {
                proof {
                    assert(pre[i as int] == m0[i as int]);
                    assert(m0[i as int].1.image is Some && m0[i as int].1.rect is None);
                    assert(pend_before(m0, i as int + 1) == pend_before(m0, i as int) + 1);
                    lemma_pend_mono(m0, i as int + 1, m0.len() as int);
                    assert(used < rects@.len());
                }
                assert(used < rects.len());
                let r = rects[used];
                let entry = &mut self.entries[i].1;
                entry.rect = Some(r);
                used = used + 1;
                proof {
                    assert(self@.len() == pre.len());
                    assert forall|j: int| 0 <= j < pre.len() && j != i implies #[trigger] self@[j]
                        == pre[j] by {}
                    assert(self@[i as int].0 == pre[i as int].0);
                    assert(self@[i as int].1.used == pre[i as int].1.used);
                    assert(self@[i as int].1.image == pre[i as int].1.image);
                    assert(self@[i as int].1.rect == Some(r));
                }
            }
            i += 1;
        }
        proof {
            assert forall|a: int, b: int| 0 <= a < b < self@.len() implies (
            #[trigger] self@[a]).0 != (#[trigger] self@[b]).0 by {
                assert(self@[a].0 == m0[a].0 && self@[b].0 == m0[b].0);
            }
        }
    }

    /// End-of-pass housekeeping: purges entries not touched since the
    /// previous pass, and resets the rest to not-live for the next one.
    pub fn update(&mut self)
        requires
            old(self).inv(),
        ensures
            final(self).inv(),
            final(self)@ == purge(old(self)@),
    {
        let ghost m0 = self@;
        let mut rev: Vec<(Vec<u8>, ImageData)> = Vec::new();
        while self.entries.len() > 0
            invariant
                rev@.len() + self.entries@.len() == m0.len(),
                self@ =~= m0.take(self.entries@.len() as int),
                self@.len() == self.entries@.len(),
                forall|j: int| 0 <= j < rev@.len() ==> (rev@[j].0@, rev@[j].1@) == m0[m0.len()
                    - 1 - j],
            decreases self.entries.len(),
        {
            let ghost pre = self@;
            match self.entries.pop() {
                Some(e) => {
                    rev.push(e);
                    proof {
                        assert((e.0@, e.1@) == pre[pre.len() - 1]);
                        assert(pre[pre.len() - 1] == m0[pre.len() - 1]);
                    }
                },
                None => {},
            }
            proof {
                assert(self@ =~= m0.take(self.entries@.len() as int));
            }
        }
        proof {
            assert(purge(m0.take(0)) =~= Seq::<(Seq<u8>, ImageDataV)>::empty());
        }
        while rev.len() > 0
            invariant
                rev@.len() <= m0.len(),
                forall|j: int| 0 <= j < rev@.len() ==> (rev@[j].0@, rev@[j].1@) == m0[m0.len()
                    - 1 - j],
                self@ =~= purge(m0.take((m0.len() - rev@.len()) as int)),
                self@.len() == self.entries@.len(),
            decreases rev.len(),
        {
            let ghost t = m0.len() - rev@.len();
            match rev.pop() {
                Some(e) => {
                    proof {
                        assert((e.0@, e.1@) == m0[t as int]);
                        lemma_purge_push(m0.take(t as int), m0[t as int]);
                        assert(m0.take(t as int).push(m0[t as int]) =~= m0.take(t as int + 1));
                    }
                    if e.1.used {
                        let (k, d) = e;
                        self.entries.push(
                            (k, ImageData { used: false, image: d.image, rect: d.rect }),
                        );
                        proof {
                            assert(self@ =~= purge(m0.take(t as int + 1)));
                        }
                    } else {
                        proof {
                            assert(self@ =~= purge(m0.take(t as int + 1)));
                        }
                    }
                },
                None => {},
            }
        }
        proof {
            assert(m0.take(m0.len() as int) =~= m0);
            assert(final(self)@ == purge(m0));
            lemma_purge_uniq(m0);
        }
    }
}

/// One more entry adds to the pending list exactly when it needs a
/// region.
proof fn lemma_pending_push(m: Seq<(Seq<u8>, ImageDataV)>, e: (Seq<u8>, ImageDataV))
    ensures
        pending_list(m.push(e)) == pending_list(m) + (if e.1.image is Some && e.1.rect is None {
            seq![(e.0, e.1.image.unwrap().width, e.1.image.unwrap().height)]
        } else {
            Seq::<(Seq<u8>, u32, u32)>::empty()
        }),
    decreases m.len(),
{
    let tail = if e.1.image is Some && e.1.rect is None {
        seq![(e.0, e.1.image.unwrap().width, e.1.image.unwrap().height)]
    } else {
        Seq::<(Seq<u8>, u32, u32)>::empty()
    };
    if m.len() == 0 {
        assert(m.push(e)[0] == e);
        assert(m.push(e).drop_first() =~= Seq::<(Seq<u8>, ImageDataV)>::empty());
        assert(pending_list(Seq::<(Seq<u8>, ImageDataV)>::empty()) =~= Seq::<(
            Seq<u8>,
            u32,
            u32,
        )>::empty());
        assert(pending_list(m.push(e)) == tail + pending_list(
            Seq::<(Seq<u8>, ImageDataV)>::empty(),
        ));
        assert(tail + Seq::<(Seq<u8>, u32, u32)>::empty() =~= tail);
        assert(pending_list(m) =~= Seq::<(Seq<u8>, u32, u32)>::empty());
        assert(pending_list(m) + tail =~= tail);
    } else {
        lemma_pending_push(m.drop_first(), e);
        assert(m.push(e)[0] == m[0]);
        assert(m.push(e).drop_first() =~= m.drop_first().push(e));
        let head = if m[0].1.image is Some && m[0].1.rect is None {
            seq![(m[0].0, m[0].1.image.unwrap().width, m[0].1.image.unwrap().height)]
        } else {
            Seq::<(Seq<u8>, u32, u32)>::empty()
        };
        assert(pending_list(m.push(e)) == head + (pending_list(m.drop_first()) + tail));
        assert(head + (pending_list(m.drop_first()) + tail) =~= (head + pending_list(
            m.drop_first(),
        )) + tail);
    }
}

/// The first matching index determines what `lookup` returns.
proof fn lemma_lookup_first(m: Seq<(Seq<u8>, ImageDataV)>, k: Seq<u8>, i: int)
    requires
        0 <= i < m.len(),
        m[i].0 == k,
        forall|j: int| 0 <= j < i ==> m[j].0 != k,
    ensures
        lookup(m, k) == Some(m[i].1),
    decreases i,
{
    if i == 0 {
    } else {
        assert(m.drop_first()[i - 1] == m[i]);
        assert forall|j: int| 0 <= j < i - 1 implies m.drop_first()[j].0 != k by {
            assert(m.drop_first()[j] == m[j + 1]);
        }
        lemma_lookup_first(m.drop_first(), k, i - 1);
    }
}

/// With no matching key there is nothing to look up.
proof fn lemma_lookup_none(m: Seq<(Seq<u8>, ImageDataV)>, k: Seq<u8>)
    requires
        !contains_key(m, k),
    ensures
        lookup(m, k) is None,
    decreases m.len(),
{
    if m.len() == 0 {
    } else {
        assert(m[0].0 != k);
        assert(!contains_key(m.drop_first(), k)) by {
            if contains_key(m.drop_first(), k) {
                let j = choose|j: int|
                    0 <= j < m.drop_first().len() && (#[trigger] m.drop_first()[j]).0 == k;
                assert(m[j + 1] == m.drop_first()[j]);
            }
        }
        lemma_lookup_none(m.drop_first(), k);
    }
}

/// Entries needing a region never get fewer as the prefix grows.
proof fn lemma_pend_mono(m: Seq<(Seq<u8>, ImageDataV)>, i: int, j: int)
    requires
        0 <= i <= j,
    ensures
        pend_before(m, i) <= pend_before(m, j),
    decreases j - i,
{
    if i < j {
        lemma_pend_mono(m, i, j - 1);
    }
}

/// Purging one more entry keeps it exactly when it was touched.
proof fn lemma_purge_push(m: Seq<(Seq<u8>, ImageDataV)>, e: (Seq<u8>, ImageDataV))
    ensures
        purge(m.push(e)) == purge(m) + (if e.1.used {
            seq![(e.0, ImageDataV { used: false, ..e.1 })]
        } else {
            Seq::<(Seq<u8>, ImageDataV)>::empty()
        }),
    decreases m.len(),
{
    let tail = if e.1.used {
        seq![(e.0, ImageDataV { used: false, ..e.1 })]
    } else {
        Seq::<(Seq<u8>, ImageDataV)>::empty()
    };
    if m.len() == 0 {
        assert(m.push(e)[0] == e);
        assert(m.push(e).drop_first() =~= Seq::<(Seq<u8>, ImageDataV)>::empty());
        assert(purge(Seq::<(Seq<u8>, ImageDataV)>::empty()) =~= Seq::<(
            Seq<u8>,
            ImageDataV,
        )>::empty());
        assert(purge(m.push(e)) == tail + purge(Seq::<(Seq<u8>, ImageDataV)>::empty()));
        assert(tail + Seq::<(Seq<u8>, ImageDataV)>::empty() =~= tail);
        assert(purge(m) =~= Seq::<(Seq<u8>, ImageDataV)>::empty());
        assert(purge(m) + tail =~= tail);
    } else {
        lemma_purge_push(m.drop_first(), e);
        assert(m.push(e)[0] == m[0]);
        assert(m.push(e).drop_first() =~= m.drop_first().push(e));
        let head = if m[0].1.used {
            seq![(m[0].0, ImageDataV { used: false, ..m[0].1 })]
        } else {
            Seq::<(Seq<u8>, ImageDataV)>::empty()
        };
        assert(purge(m.push(e)) == head + (purge(m.drop_first()) + tail));
        assert(head + (purge(m.drop_first()) + tail) =~= (head + purge(m.drop_first())) + tail);
    }
}

/// Every key of the purged cache was a key before.
proof fn lemma_purge_keys(m: Seq<(Seq<u8>, ImageDataV)>, k: Seq<u8>)
    requires
        contains_key(purge(m), k),
    ensures
        contains_key(m, k),
    decreases m.len(),
{
    if m.len() == 0 {
    } else {
        let head = if m[0].1.used {
            seq![(m[0].0, ImageDataV { used: false, ..m[0].1 })]
        } else {
            Seq::<(Seq<u8>, ImageDataV)>::empty()
        };
        let j = choose|j: int| 0 <= j < purge(m).len() && (#[trigger] purge(m)[j]).0 == k;
        if j < head.len() {
            assert(m[0].0 == k);
        } else {
            assert(purge(m)[j] == purge(m.drop_first())[j - head.len()]);
            assert(contains_key(purge(m.drop_first()), k));
            lemma_purge_keys(m.drop_first(), k);
            let i = choose|i: int|
                0 <= i < m.drop_first().len() && (#[trigger] m.drop_first()[i]).0 == k;
            assert(m[i + 1] == m.drop_first()[i]);
        }
    }
}

/// Purging keeps keys unique.
proof fn lemma_purge_uniq(m: Seq<(Seq<u8>, ImageDataV)>)
    requires
        uniq(m),
    ensures
        uniq(purge(m)),
    decreases m.len(),
{
    if m.len() == 0 {
    } else {
        assert forall|i: int, j: int| 0 <= i < j < m.drop_first().len() implies (
        #[trigger] m.drop_first()[i]).0 != (#[trigger] m.drop_first()[j]).0 by {
            assert(m.drop_first()[i] == m[i + 1] && m.drop_first()[j] == m[j + 1]);
        }
        lemma_purge_uniq(m.drop_first());
        let head = if m[0].1.used {
            seq![(m[0].0, ImageDataV { used: false, ..m[0].1 })]
        } else {
            Seq::<(Seq<u8>, ImageDataV)>::empty()
        };
        assert(purge(m) == head + purge(m.drop_first()));
        assert forall|i: int, j: int| 0 <= i < j < purge(m).len() implies (
        #[trigger] purge(m)[i]).0 != (#[trigger] purge(m)[j]).0 by {
            if i < head.len() {
                assert(purge(m)[i].0 == m[0].0);
                assert(purge(m)[j] == purge(m.drop_first())[j - head.len()]);
                assert(contains_key(purge(m.drop_first()), purge(m)[j].0));
                lemma_purge_keys(m.drop_first(), purge(m)[j].0);
                let t = choose|t: int|
                    0 <= t < m.drop_first().len() && (#[trigger] m.drop_first()[t]).0 == purge(
                        m,
                    )[j].0;
                assert(m[t + 1] == m.drop_first()[t]);
            } else {
                assert(purge(m)[i] == purge(m.drop_first())[i - head.len()]);
                assert(purge(m)[j] == purge(m.drop_first())[j - head.len()]);
            }
        }
    }
}

/// A failed read or decode is cached as a miss: the entry exists, the
/// path needs no further fetch, and touching it again returns the same
/// miss.
pub proof fn lemma_miss_cached(m: Seq<(Seq<u8>, ImageDataV)>, k: Seq<u8>)
    requires
        !contains_key(m, k),
    ensures
        ({
            let miss = ImageDataV { used: true, image: None, rect: None };
            let m1 = m.push((k, miss));
            &&& contains_key(m1, k)
            &&& lookup(m1, k) == Some(miss)
            &&& lookup(touch(m1, k), k) == Some(miss)
        }),
{
    let miss = ImageDataV { used: true, image: None, rect: None };
    let m1 = m.push((k, miss));
    assert(m1[m.len() as int].0 == k);
    assert forall|j: int| 0 <= j < m.len() implies m1[j].0 != k by {
        assert(m1[j] == m[j]);
    }
    lemma_lookup_first(m1, k, m.len() as int);
    assert(touch(m1, k)[m.len() as int].0 == k);
    assert(touch(m1, k)[m.len() as int].1 == miss);
    assert forall|j: int| 0 <= j < m.len() implies touch(m1, k)[j].0 != k by {
        assert(m1[j] == m[j]);
    }
    lemma_lookup_first(touch(m1, k), k, m.len() as int);
}

/// After a build pass, an entry that already held a region handle keeps
/// it, and when nothing is pending the pass changes no handle at all.
pub proof fn lemma_atlas_assigns_once(m: Seq<(Seq<u8>, ImageDataV)>, rects: Seq<i32>)
    requires
        forall|i: int| 0 <= i < m.len() ==> ((#[trigger] m[i]).1.image is Some ==> m[i].1.rect
            is Some),
    ensures
        pend_before(m, m.len() as int) == 0,
        forall|i: int| 0 <= i < m.len() ==> rect_after(m, i, rects) == (#[trigger] m[i]).1.rect,
{
    assert forall|i: int| 0 <= i <= m.len() implies pend_before(m, i) == 0 by {
        lemma_pend_zero(m, i);
    }
}

proof fn lemma_pend_zero(m: Seq<(Seq<u8>, ImageDataV)>, i: int)
    requires
        i <= m.len(),
        forall|j: int| 0 <= j < m.len() ==> ((#[trigger] m[j]).1.image is Some ==> m[j].1.rect
            is Some),
    ensures
        pend_before(m, i) == 0,
    decreases i,
{
    if i > 0 {
        lemma_pend_zero(m, i - 1);
    }
}

/// An entry loaded in one pass and not touched in the next is purged by
/// the housekeeping at the end of that pass; touched entries survive,
/// reset to not-live.
pub proof fn lemma_update_purges(m: Seq<(Seq<u8>, ImageDataV)>, i: int)
    requires
        uniq(m),
        0 <= i < m.len(),
    ensures
        m[i].1.used ==> lookup(purge(m), m[i].0) == Some(ImageDataV { used: false, ..m[i].1 }),
        !m[i].1.used ==> !contains_key(purge(m), m[i].0),
    decreases m.len(),
{
    let head = if m[0].1.used {
        seq![(m[0].0, ImageDataV { used: false, ..m[0].1 })]
    } else {
        Seq::<(Seq<u8>, ImageDataV)>::empty()
    };
    assert(purge(m) == head + purge(m.drop_first()));
    assert forall|a: int, b: int| 0 <= a < b < m.drop_first().len() implies (
    #[trigger] m.drop_first()[a]).0 != (#[trigger] m.drop_first()[b]).0 by {
        assert(m.drop_first()[a] == m[a + 1] && m.drop_first()[b] == m[b + 1]);
    }
    if i == 0 {
        if m[0].1.used {
            assert(purge(m)[0] == (m[0].0, ImageDataV { used: false, ..m[0].1 }));
            assert(lookup(purge(m), m[0].0) == Some(ImageDataV { used: false, ..m[0].1 }));
        } else {
            assert(purge(m) =~= purge(m.drop_first()));
            assert(!contains_key(m.drop_first(), m[0].0)) by {
                if contains_key(m.drop_first(), m[0].0) {
                    let j = choose|j: int|
                        0 <= j < m.drop_first().len() && (#[trigger] m.drop_first()[j]).0 == m[0].0;
                    assert(m[j + 1] == m.drop_first()[j]);
                }
            }
            assert(!contains_key(purge(m), m[0].0)) by {
                if contains_key(purge(m), m[0].0) {
                    lemma_purge_keys(m.drop_first(), m[0].0);
                }
            }
        }
    } else {
        assert(m.drop_first()[i - 1] == m[i]);
        lemma_update_purges(m.drop_first(), i - 1);
        assert(m[0].0 != m[i].0);
        if m[i].1.used {
            if m[0].1.used {
                assert(purge(m)[0].0 == m[0].0);
                assert(purge(m).drop_first() =~= purge(m.drop_first()));
                assert(lookup(purge(m), m[i].0) == lookup(purge(m.drop_first()), m[i].0));
            } else {
                assert(purge(m) =~= purge(m.drop_first()));
            }
        } else {
            assert(!contains_key(purge(m.drop_first()), m[i].0));
            assert(!contains_key(purge(m), m[i].0)) by {
                if contains_key(purge(m), m[i].0) {
                    let j = choose|j: int|
                        0 <= j < purge(m).len() && (#[trigger] purge(m)[j]).0 == m[i].0;
                    if j < head.len() {
                        assert(purge(m)[j].0 == m[0].0);
                    } else {
                        assert(purge(m)[j] == purge(m.drop_first())[j - head.len()]);
                    }
                }
            }
        }
    }
}

} // verus!
