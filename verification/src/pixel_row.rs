//! A raster row: an owned sequence of pixel chunks plus left/right padding,
//! addressed by logical pixel index.

use vstd::prelude::*;

use crate::pixel_formats::PixelChunk;

verus! {

use core::ops::Range;
use vstd::arithmetic::div_mod::lemma_fundamental_div_mod;
use vstd::arithmetic::div_mod::lemma_fundamental_div_mod_converse;
use vstd::arithmetic::div_mod::lemma_mod_bound;
use vstd::pervasive::VecAdditionalExecFns;

/// Splits a non-negative storage index into its chunk index `a / p` and
/// sub-index `a % p`.
proof fn lemma_index_split(a: int, p: int)
    requires
        p >= 1,
        0 <= a,
    ensures
        a == p * (a / p) + a % p,
        0 <= a % p < p,
        0 <= a / p,
{
    lemma_fundamental_div_mod(a, p);
    lemma_mod_bound(a, p);
    assert(0 <= a / p) by (nonlinear_arith)
        requires
            p >= 1,
            0 <= a,
            a == p * (a / p) + a % p,
            a % p < p,
    ;
}

/// A storage index below `n * p` lies in one of the first `n` chunks.
proof fn lemma_chunk_in_range(a: int, p: int, n: int)
    requires
        p >= 1,
        0 <= a < n * p,
    ensures
        0 <= a / p < n,
{
    lemma_index_split(a, p);
    assert(a / p < n) by (nonlinear_arith)
        requires
            p >= 1,
            a < n * p,
            a == p * (a / p) + a % p,
            0 <= a % p,
    ;
}

/// Chunk index and sub-index together determine the storage index.
proof fn lemma_same_slot(a: int, b: int, p: int)
    requires
        p >= 1,
        0 <= a,
        0 <= b,
        a / p == b / p,
        a % p == b % p,
    ensures
        a == b,
{
    lemma_index_split(a, p);
    lemma_index_split(b, p);
}

/// Rounding a storage index up to the next chunk boundary (by `sf`, the
/// distance to it) lands exactly on a boundary.
proof fn lemma_align_up(x: int, p: int, sf: int)
    requires
        p >= 1,
        0 <= x,
        sf == if x % p == 0 {
            0int
        } else {
            p - x % p
        },
    ensures
        (x + sf) % p == 0,
        x + sf == p * ((x + sf) / p),
{
    lemma_index_split(x, p);
    let q = x / p;
    if x % p == 0 {
        assert(x == q * p + 0) by (nonlinear_arith)
            requires
                x == p * q,
        ;
        lemma_fundamental_div_mod_converse(x, p, q, 0);
        assert(x + sf == p * ((x + sf) / p)) by (nonlinear_arith)
            requires
                sf == 0,
                x == p * q,
                q == (x + sf) / p,
        ;
    } else {
        assert(x + sf == (q + 1) * p + 0) by (nonlinear_arith)
            requires
                x == p * q + x % p,
                sf == p - x % p,
        ;
        lemma_fundamental_div_mod_converse(x + sf, p, q + 1, 0);
        assert(x + sf == p * ((x + sf) / p)) by (nonlinear_arith)
            requires
                x + sf == (q + 1) * p,
                q + 1 == (x + sf) / p,
        ;
    }
}

/// Rounding a storage index down by its sub-index lands exactly on a chunk
/// boundary.
proof fn lemma_align_down(x: int, p: int)
    requires
        p >= 1,
        0 <= x,
    ensures
        (x - x % p) % p == 0,
        x - x % p == p * ((x - x % p) / p),
{
    lemma_index_split(x, p);
    let q = x / p;
    assert(x - x % p == q * p + 0) by (nonlinear_arith)
        requires
            x == p * q + x % p,
    ;
    lemma_fundamental_div_mod_converse(x - x % p, p, q, 0);
    assert(x - x % p == p * ((x - x % p) / p)) by (nonlinear_arith)
        requires
            x - x % p == q * p,
            q == (x - x % p) / p,
    ;
}

/// How many chunks a row of `size` pixels needs: the least number whose
/// joint capacity covers `size`.
pub open spec fn chunks_needed<T: PixelChunk>(size: int) -> int {
    if size % T::pixel_count() == 0 {
        size / T::pixel_count()
    } else {
        size / T::pixel_count() + 1
    }
}

/// Whether a row of `size` pixels fits machine limits: the chunks that
/// cover it hold at most `usize::MAX` pixel slots.
pub open spec fn row_size_fits<T: PixelChunk>(size: int) -> bool {
    size + T::pixel_count() - 1 <= usize::MAX
}

/// An owned, contiguous sequence of pixel chunks plus `pad_left` /
/// `pad_right` counts of pixel slots at the edges that are excluded from
/// the row's addressable width.
///
/// Adjusting the padding re-windows the row without touching chunk
/// storage: slots that leave the visible window keep their stored payloads
/// and surface again when the padding shrinks.
#[derive(Debug, PartialEq)]
pub struct PixelRow<T: PixelChunk> {
    pixel_chunks: Vec<T>,
    pad_left: usize,
    pad_right: usize,
}

impl<T: PixelChunk> PixelRow<T> {
    /// The chunk storage.
    pub closed spec fn spec_chunks(self) -> Seq<T> {
        self.pixel_chunks@
    }

    /// Pixel slots ignored at the start of the storage.
    pub closed spec fn spec_pad_left(self) -> int {
        self.pad_left as int
    }

    /// Pixel slots ignored at the end of the storage.
    pub closed spec fn spec_pad_right(self) -> int {
        self.pad_right as int
    }

    /// Every pixel slot the storage holds, visible or padded.
    pub open spec fn capacity(self) -> int {
        self.spec_chunks().len() * T::pixel_count()
    }

    /// The padding counts are nonnegative and never exceed the storage,
    /// and the storage fits machine limits.  Constructors establish this
    /// and every method preserves it.
    pub open spec fn well_formed(self) -> bool {
        &&& 0 <= self.spec_pad_left()
        &&& 0 <= self.spec_pad_right()
        &&& self.spec_pad_left() + self.spec_pad_right() <= self.capacity()
        &&& self.capacity() <= usize::MAX
    }

    /// The addressable width in pixels.
    pub open spec fn spec_width(self) -> int {
        self.capacity() - self.spec_pad_left() - self.spec_pad_right()
    }

    /// The payload stored at absolute slot `a` (counted from the start of
    /// the storage, padding included).
    pub open spec fn stored(self, a: int) -> u8 {
        self.spec_chunks()[a / T::pixel_count()].pixel_value(a % T::pixel_count())
    }

    /// The payload of the visible pixel at logical index `i`.
    pub open spec fn pixel_value_at(self, i: int) -> u8 {
        self.stored(i + self.spec_pad_left())
    }

    /// The visible pixels, in logical order.
    pub open spec fn pixel_seq(self) -> Seq<u8> {
        Seq::new(self.spec_width() as nat, |i: int| self.pixel_value_at(i))
    }

    /// A row of `size` pixels, all carrying payload zero: enough default
    /// chunks to cover `size`, with the slack slots assigned to
    /// `pad_right`.
    pub fn new(size: usize) -> (r: PixelRow<T>)
        requires
            row_size_fits::<T>(size as int),
        ensures
            r.well_formed(),
            r.spec_width() == size,
            r.spec_chunks().len() == chunks_needed::<T>(size as int),
            r.spec_pad_left() == 0,
            r.spec_pad_right() == r.capacity() - size,
            forall|a: int| 0 <= a < r.capacity() ==> r.stored(a) == 0,
    {
        Self::new_with(size, T::zero())
    }

    /// A row of `size` pixels, every pixel slot (padded ones included)
    /// carrying the payload of `pixel`.
    pub fn new_with(size: usize, pixel: T) -> (r: PixelRow<T>)
        requires
            row_size_fits::<T>(size as int),
        ensures
            r.well_formed(),
            r.spec_width() == size,
            r.spec_chunks().len() == chunks_needed::<T>(size as int),
            r.spec_pad_left() == 0,
            r.spec_pad_right() == r.capacity() - size,
            forall|a: int| 0 <= a < r.capacity() ==> r.stored(a) == pixel.as_pixel(),
    {
        proof {
            T::lemma_pixel_count();
        }
        let p = T::pixels();
        let pad = size % p;
        proof {
            lemma_index_split(size as int, p as int);
        }
        let real_size = size / p + if pad > 0 { 1 } else { 0 };
        let filled = T::filled_pixel(pixel);
        let mut chunks: Vec<T> = Vec::new();
        while chunks.len() < real_size
            invariant
                chunks@.len() <= real_size,
                forall|k: int| 0 <= k < chunks@.len() ==> chunks@[k] == filled,
            decreases real_size - chunks@.len(),
        {
            chunks.push(filled);
        }
        let pad_right = if pad > 0 { p - pad } else { 0 };
        let r = PixelRow { pixel_chunks: chunks, pad_left: 0, pad_right };
        proof {
            assert(r.capacity() == real_size * T::pixel_count());
            assert(real_size * p == size + pad_right) by (nonlinear_arith)
                requires
                    p >= 1,
                    size == p * ((size as int) / (p as int)) + pad,
                    0 <= pad < p,
                    real_size == (size as int) / (p as int) + if pad > 0 { 1int } else { 0int },
                    pad_right == if pad > 0 { p - pad } else { 0int },
            ;
            assert forall|a: int| 0 <= a < r.capacity() implies r.stored(a) == pixel.as_pixel() by {
                lemma_chunk_in_range(a, T::pixel_count(), real_size as int);
                lemma_index_split(a, T::pixel_count());
            }
        }
        r
    }

    /// A row that takes over `pixel_chunks` as its storage, with no
    /// padding: every stored slot is a visible pixel.
    pub fn from_vec(pixel_chunks: Vec<T>) -> (r: PixelRow<T>)
        requires
            pixel_chunks@.len() * T::pixel_count() <= usize::MAX,
        ensures
            r.well_formed(),
            r.spec_chunks() == pixel_chunks@,
            r.spec_pad_left() == 0,
            r.spec_pad_right() == 0,
            r.spec_width() == r.capacity(),
    {
        proof {
            T::lemma_pixel_count();
            assert(pixel_chunks@.len() * T::pixel_count() >= 0) by (nonlinear_arith)
                requires
                    T::pixel_count() >= 1,
            ;
        }
        PixelRow { pixel_chunks, pad_left: 0, pad_right: 0 }
    }

    /// The addressable width in pixels.
    pub fn width(&self) -> (w: usize)
        requires
            self.well_formed(),
        ensures
            w == self.spec_width(),
    {
        proof {
            T::lemma_pixel_count();
        }
        let p = T::pixels();
        self.pixel_chunks.len() * p - self.pad_left - self.pad_right
    }

    /// The number of chunks (not pixels) the row stores.
    pub fn len(&self) -> (n: usize)
        ensures
            n == self.spec_chunks().len(),
    {
        self.pixel_chunks.len()
    }

    /// Whether the row stores no chunk at all.
    pub fn is_empty(&self) -> (e: bool)
        ensures
            e == (self.spec_chunks().len() == 0),
    {
        self.pixel_chunks.is_empty()
    }

    /// Pixel slots ignored at the start of the storage.
    pub fn pad_left(&self) -> (n: usize)
        ensures
            n == self.spec_pad_left(),
    {
        self.pad_left
    }

    /// Pixel slots ignored at the end of the storage.
    pub fn pad_right(&self) -> (n: usize)
        ensures
            n == self.spec_pad_right(),
    {
        self.pad_right
    }

    /// Re-windows the row by moving its left edge.  Chunk storage is
    /// untouched; the new padding is rejected (and nothing changes) when it
    /// would leave the row a negative width.
    pub fn set_pad_left(&mut self, pad: usize) -> (ok: bool)
        requires
            old(self).well_formed(),
        ensures
            final(self).well_formed(),
            ok == (pad + old(self).spec_pad_right() <= old(self).capacity()),
            ok ==> ({
                &&& final(self).spec_chunks() == old(self).spec_chunks()
                &&& final(self).spec_pad_left() == pad
                &&& final(self).spec_pad_right() == old(self).spec_pad_right()
            }),
            !ok ==> *final(self) == *old(self),
    {
        proof {
            T::lemma_pixel_count();
        }
        let cap = self.pixel_chunks.len() * T::pixels();
        if pad <= cap - self.pad_right {
            self.pad_left = pad;
            true
        } else {
            false
        }
    }

    /// Re-windows the row by moving its right edge; the counterpart of
    /// `set_pad_left`.
    pub fn set_pad_right(&mut self, pad: usize) -> (ok: bool)
        requires
            old(self).well_formed(),
        ensures
            final(self).well_formed(),
            ok == (old(self).spec_pad_left() + pad <= old(self).capacity()),
            ok ==> ({
                &&& final(self).spec_chunks() == old(self).spec_chunks()
                &&& final(self).spec_pad_left() == old(self).spec_pad_left()
                &&& final(self).spec_pad_right() == pad
            }),
            !ok ==> *final(self) == *old(self),
    {
        proof {
            T::lemma_pixel_count();
        }
        let cap = self.pixel_chunks.len() * T::pixels();
        if pad <= cap - self.pad_left {
            self.pad_right = pad;
            true
        } else {
            false
        }
    }

    /// The pixel at logical index `index`, re-expressed as a chunk value,
    /// or nothing when the slot lies beyond the stored chunks.
    pub fn pixel(&self, index: usize) -> (r: Option<T>)
        requires
            self.well_formed(),
        ensures
            index + self.spec_pad_left() < self.capacity() ==> r == Some(
                T::from_pixel(self.stored(index + self.spec_pad_left())),
            ),
            index + self.spec_pad_left() >= self.capacity() ==> r is None,
    {
        proof {
            T::lemma_pixel_count();
        }
        let p = T::pixels();
        if index > usize::MAX - self.pad_left {
            return None;
        }
        let actual = index + self.pad_left;
        let chunk_index = actual / p;
        if chunk_index >= self.pixel_chunks.len() {
            proof {
                if (actual as int) < self.capacity() {
                    lemma_chunk_in_range(actual as int, p as int, self.spec_chunks().len() as int);
                }
            }
            return None;
        }
        proof {
            lemma_index_split(actual as int, p as int);
            assert((actual as int) < self.capacity()) by (nonlinear_arith)
                requires
                    p >= 1,
                    actual == p * ((actual as int) / (p as int)) + (actual as int) % (p as int),
                    (actual as int) % (p as int) < p,
                    (actual as int) / (p as int) < self.spec_chunks().len(),
                    self.capacity() == self.spec_chunks().len() * p,
            ;
        }
        let chunk = self.pixel_chunks[chunk_index];
        chunk.get_pixel(actual % p)
    }

    /// Writes the payload of `pixel` into the slot of logical pixel
    /// `index`; every other stored slot keeps its payload.  The slot must
    /// lie within the stored chunks.
    pub fn set_pixel(&mut self, index: usize, pixel: T)
        requires
            old(self).well_formed(),
            index + old(self).spec_pad_left() < old(self).capacity(),
        ensures
            final(self).well_formed(),
            final(self).spec_chunks().len() == old(self).spec_chunks().len(),
            final(self).spec_pad_left() == old(self).spec_pad_left(),
            final(self).spec_pad_right() == old(self).spec_pad_right(),
            final(self).stored(index + old(self).spec_pad_left()) == pixel.as_pixel(),
            forall|a: int|
                0 <= a < old(self).capacity() && a != index + old(self).spec_pad_left()
                    ==> final(self).stored(a) == old(self).stored(a),
    {
        proof {
            T::lemma_pixel_count();
        }
        let p = T::pixels();
        let actual = index + self.pad_left;
        let chunk_index = actual / p;
        proof {
            lemma_chunk_in_range(actual as int, p as int, self.spec_chunks().len() as int);
            lemma_index_split(actual as int, p as int);
        }
        let mut chunk = self.pixel_chunks[chunk_index];
        chunk.set_pixel(actual % p, pixel);
        self.pixel_chunks.set(chunk_index, chunk);
        proof {
            let t = actual as int;
            let ghost pre = *old(self);
            let ghost post = *self;
            assert forall|a: int| 0 <= a < pre.capacity() && a != t implies post.stored(a)
                == pre.stored(a) by {
                lemma_chunk_in_range(a, p as int, pre.spec_chunks().len() as int);
                lemma_index_split(a, p as int);
                if a / (p as int) == t / (p as int) && a % (p as int) == t % (p as int) {
                    lemma_same_slot(a, t, p as int);
                }
            }
        }
    }

    /// The chunk at `chunk_index`: a lower-level access path addressed by
    /// chunk position, not pixel position.
    pub fn chunk(&self, chunk_index: usize) -> (c: T)
        requires
            chunk_index < self.spec_chunks().len(),
        ensures
            c == self.spec_chunks()[chunk_index as int],
    {
        self.pixel_chunks[chunk_index]
    }

    /// Replaces the whole chunk at `chunk_index`: the write counterpart of
    /// `chunk`.
    pub fn set_chunk(&mut self, chunk_index: usize, chunk: T)
        requires
            chunk_index < old(self).spec_chunks().len(),
        ensures
            final(self).spec_chunks() == old(self).spec_chunks().update(chunk_index as int, chunk),
            final(self).spec_pad_left() == old(self).spec_pad_left(),
            final(self).spec_pad_right() == old(self).spec_pad_right(),
    {
        self.pixel_chunks.set(chunk_index, chunk);
    }

    /// How far the unaligned front of a fill starting at visible index
    /// `start` reaches: the number of pixels before the next chunk
    /// boundary.
    pub open spec fn front_run(self, start: int) -> int {
        let p = T::pixel_count();
        let rem = (start + self.spec_pad_left()) % p;
        if rem == 0 {
            0
        } else {
            p - rem
        }
    }

    /// How far the unaligned back of a fill ending at visible index `end`
    /// reaches: the number of pixels past the last chunk boundary.
    pub open spec fn back_run(self, end: int) -> int {
        (end + self.spec_pad_left()) % T::pixel_count()
    }

    /// Fills `[range.start, range.end)` with the sub-pixels of `chunk`,
    /// keeping each written pixel in phase with its chunk: the pixel whose
    /// slot has sub-index `s` receives `chunk`'s sub-pixel `s`.  The
    /// unaligned front and back of the range are written pixel by pixel;
    /// the chunk-aligned middle is filled by whole-chunk assignment.  The
    /// range must leave room for the unaligned runs on both sides.
    pub fn fill_range_with_chunk(&mut self, range: Range<usize>, chunk: T)
        requires
            old(self).well_formed(),
            range.start <= range.end,
            range.end + old(self).spec_pad_left() <= old(self).capacity(),
            range.start + old(self).front_run(range.start as int) <= range.end - old(
                self,
            ).back_run(range.end as int),
        ensures
            final(self).well_formed(),
            final(self).spec_chunks().len() == old(self).spec_chunks().len(),
            final(self).spec_pad_left() == old(self).spec_pad_left(),
            final(self).spec_pad_right() == old(self).spec_pad_right(),
            forall|a: int|
                range.start + old(self).spec_pad_left() <= a < range.end + old(
                    self,
                ).spec_pad_left() ==> final(self).stored(a) == chunk.pixel_value(
                    a % T::pixel_count(),
                ),
            forall|a: int|
                0 <= a < old(self).capacity() && !(range.start + old(self).spec_pad_left() <= a
                    < range.end + old(self).spec_pad_left()) ==> final(self).stored(a) == old(
                    self,
                ).stored(a),
    {
        proof {
            T::lemma_pixel_count();
        }
        let ghost pre = *old(self);
        let p = T::pixels();
        let pl = self.pad_left;
        let start = range.start;
        let end = range.end;
        proof {
            lemma_mod_bound(start + pl, p as int);
            lemma_mod_bound(end + pl, p as int);
        }
        let rem_front = (start + pl) % p;
        let skip_front = if rem_front > 0 { p - rem_front } else { 0 };
        let skip_back = (pl + end) % p;
        let ghost first_aligned = start + pl + skip_front;
        let ghost first_back = end + pl - skip_back;

        // the aligned middle starts and ends on a chunk boundary
        proof {
            lemma_align_up((start + pl) as int, p as int, skip_front as int);
            lemma_align_down((end + pl) as int, p as int);
        }

        // unaligned front, pixel by pixel
        let mut i = start;
        while i < start + skip_front
            invariant
                self.well_formed(),
                self.spec_chunks().len() == pre.spec_chunks().len(),
                self.spec_pad_left() == pre.spec_pad_left(),
                self.spec_pad_right() == pre.spec_pad_right(),
                T::pixel_count() == p,
                1 <= p,
                pl == pre.spec_pad_left(),
                start <= i <= start + skip_front,
                start + skip_front <= end - skip_back,
                end + pl <= pre.capacity(),
                forall|a: int|
                    start + pl <= a < i + pl ==> self.stored(a) == chunk.pixel_value(
                        a % T::pixel_count(),
                    ),
                forall|a: int|
                    0 <= a < pre.capacity() && !(start + pl <= a < i + pl) ==> self.stored(a)
                        == pre.stored(a),
            decreases start + skip_front - i,
        {
            let sub = (i + pl) % p;
            proof {
                lemma_mod_bound(i + pl, p as int);
            }
            let px = chunk.get_pixel(sub).unwrap();
            self.set_pixel(i, px);
            proof {
                T::lemma_from_pixel(chunk, sub as int);
            }
            i = i + 1;
        }

        // unaligned back, pixel by pixel
        let mut i = end - skip_back;
        while i < end
            invariant
                self.well_formed(),
                self.spec_chunks().len() == pre.spec_chunks().len(),
                self.spec_pad_left() == pre.spec_pad_left(),
                self.spec_pad_right() == pre.spec_pad_right(),
                T::pixel_count() == p,
                1 <= p,
                pl == pre.spec_pad_left(),
                first_aligned == start + pl + skip_front,
                end - skip_back <= i <= end,
                start + skip_front <= end - skip_back,
                end + pl <= pre.capacity(),
                forall|a: int|
                    start + pl <= a < first_aligned ==> self.stored(a) == chunk.pixel_value(
                        a % T::pixel_count(),
                    ),
                forall|a: int|
                    end + pl - skip_back <= a < i + pl ==> self.stored(a) == chunk.pixel_value(
                        a % T::pixel_count(),
                    ),
                forall|a: int|
                    0 <= a < pre.capacity() && !(start + pl <= a < first_aligned) && !(end + pl
                        - skip_back <= a < i + pl) ==> self.stored(a) == pre.stored(a),
            decreases end - i,
        {
            let sub = (i + pl) % p;
            proof {
                lemma_mod_bound(i + pl, p as int);
            }
            let px = chunk.get_pixel(sub).unwrap();
            self.set_pixel(i, px);
            proof {
                T::lemma_from_pixel(chunk, sub as int);
            }
            i = i + 1;
        }

        // chunk-aligned middle, by whole-chunk assignment
        let mut ci = (start + skip_front + pl) / p;
        let ci_end = (end - skip_back + pl) / p;
        proof {
            assert(ci as int * (p as int) == first_aligned) by (nonlinear_arith)
                requires
                    first_aligned == (p as int) * (ci as int),
            ;
            assert(ci_end as int * (p as int) == first_back) by (nonlinear_arith)
                requires
                    first_back == (p as int) * (ci_end as int),
            ;
            assert(ci as int <= ci_end as int) by (nonlinear_arith)
                requires
                    p >= 1,
                    ci as int * (p as int) == first_aligned,
                    ci_end as int * (p as int) == first_back,
                    first_aligned <= first_back,
            ;
        }
        while ci < ci_end
            invariant
                self.well_formed(),
                self.spec_chunks().len() == pre.spec_chunks().len(),
                self.spec_pad_left() == pre.spec_pad_left(),
                self.spec_pad_right() == pre.spec_pad_right(),
                T::pixel_count() == p,
                1 <= p,
                pl == pre.spec_pad_left(),
                first_aligned == start + pl + skip_front,
                first_back == end + pl - skip_back,
                first_aligned <= ci as int * p as int <= first_back,
                ci_end as int * p as int == first_back,
                ci <= ci_end,
                start + pl <= first_aligned,
                first_back <= end + pl <= pre.capacity(),
                forall|a: int|
                    start + pl <= a < first_aligned ==> self.stored(a) == chunk.pixel_value(
                        a % T::pixel_count(),
                    ),
                forall|a: int|
                    first_back <= a < end + pl ==> self.stored(a) == chunk.pixel_value(
                        a % T::pixel_count(),
                    ),
                forall|a: int|
                    first_aligned <= a < ci as int * p as int ==> self.stored(a)
                        == chunk.pixel_value(a % T::pixel_count()),
                forall|a: int|
                    0 <= a < pre.capacity() && !(start + pl <= a < first_aligned) && !(first_back
                        <= a < end + pl) && !(first_aligned <= a < ci as int * p as int)
                        ==> self.stored(a) == pre.stored(a),
            decreases ci_end - ci,
        {
            proof {
                assert((ci as int + 1) * (p as int) == ci as int * (p as int) + p && ci as int * (
                p as int) + p <= first_back) by (nonlinear_arith)
                    requires
                        p >= 1,
                        (ci as int) < (ci_end as int),
                        ci_end as int * (p as int) == first_back,
                ;
                assert((ci as int) < pre.spec_chunks().len()) by (nonlinear_arith)
                    requires
                        p >= 1,
                        ci as int * (p as int) + p <= first_back,
                        first_back <= pre.spec_chunks().len() * (p as int),
                ;
            }
            let ghost before = *self;
            self.pixel_chunks.set(ci, chunk);
            proof {
                let pi = p as int;
                let base = ci as int * pi;
                assert(pi * (ci as int) == ci as int * pi) by (nonlinear_arith);
                assert forall|a: int| base <= a < base + pi implies self.stored(a)
                    == chunk.pixel_value(a % T::pixel_count()) by {
                    lemma_fundamental_div_mod_converse(a, pi, ci as int, a - base);
                }
                assert forall|a: int|
                    0 <= a < pre.capacity() && !(base <= a < base + pi) implies self.stored(a)
                    == before.stored(a) by {
                    lemma_chunk_in_range(a, pi, pre.spec_chunks().len() as int);
                    lemma_index_split(a, pi);
                }
                assert forall|a: int| start + pl <= a < first_aligned implies self.stored(a)
                    == chunk.pixel_value(a % T::pixel_count()) by {
                    assert(self.stored(a) == before.stored(a));
                }
                assert forall|a: int| first_back <= a < end + pl implies self.stored(a)
                    == chunk.pixel_value(a % T::pixel_count()) by {
                    assert(self.stored(a) == before.stored(a));
                }
                assert forall|a: int|
                    first_aligned <= a < (ci as int + 1) * (p as int) implies self.stored(a)
                    == chunk.pixel_value(a % T::pixel_count()) by {
                    if a < base {
                        assert(before.stored(a) == chunk.pixel_value(a % T::pixel_count()));
                        assert(self.stored(a) == before.stored(a));
                    } else {
                        assert(base <= a < base + pi);
                        assert(self.stored(a) == chunk.pixel_value(a % T::pixel_count()));
                    }
                }
                assert forall|a: int|
                    0 <= a < pre.capacity() && !(start + pl <= a < first_aligned) && !(first_back
                        <= a < end + pl) && !(first_aligned <= a < (ci as int + 1) * (
                    p as int)) implies self.stored(a) == pre.stored(a) by {
                    assert(self.stored(a) == before.stored(a));
                }
            }
            ci = ci + 1;
        }
        proof {
            assert(ci as int * p as int == first_back);
        }
    }

    /// Sets every pixel in `[range.start, range.end)` to the payload of
    /// `pixel` and changes nothing else — whichever code path runs.  When
    /// the chunk holds a single pixel or the range spans fewer than two
    /// chunks' worth of pixels, the fill runs pixel by pixel; otherwise it
    /// builds one fully packed chunk and broadcasts it over the
    /// chunk-aligned middle of the range.
    pub fn fill_range(&mut self, range: Range<usize>, pixel: T)
        requires
            old(self).well_formed(),
            range.start < range.end ==> range.end + old(self).spec_pad_left() <= old(
                self,
            ).capacity(),
        ensures
            final(self).well_formed(),
            final(self).spec_chunks().len() == old(self).spec_chunks().len(),
            final(self).spec_pad_left() == old(self).spec_pad_left(),
            final(self).spec_pad_right() == old(self).spec_pad_right(),
            forall|a: int|
                range.start + old(self).spec_pad_left() <= a < range.end + old(
                    self,
                ).spec_pad_left() ==> final(self).stored(a) == pixel.as_pixel(),
            forall|a: int|
                0 <= a < old(self).capacity() && !(range.start + old(self).spec_pad_left() <= a
                    < range.end + old(self).spec_pad_left()) ==> final(self).stored(a) == old(
                    self,
                ).stored(a),
    {
        proof {
            T::lemma_pixel_count();
        }
        let ghost pre = *old(self);
        let p = T::pixels();
        if range.start >= range.end {
            return;
        }
        let count = range.end - range.start;
        if p == 1 || count < p || count - p < p {
            // a short or trivially aligned fill: pixel by pixel
            let start = range.start;
            let end = range.end;
            let pl = self.pad_left;
            let mut i = start;
            while i < end
                invariant
                    self.well_formed(),
                    self.spec_chunks().len() == pre.spec_chunks().len(),
                    self.spec_pad_left() == pre.spec_pad_left(),
                    self.spec_pad_right() == pre.spec_pad_right(),
                    pl == pre.spec_pad_left(),
                    start <= i <= end,
                    end + pl <= pre.capacity(),
                    forall|a: int|
                        start + pl <= a < i + pl ==> self.stored(a) == pixel.as_pixel(),
                    forall|a: int|
                        0 <= a < pre.capacity() && !(start + pl <= a < i + pl) ==> self.stored(a)
                            == pre.stored(a),
                decreases end - i,
            {
                self.set_pixel(i, pixel);
                i = i + 1;
            }
        } else {
            // the range spans at least two whole chunks: broadcast one
            // fully packed chunk
            proof {
                lemma_mod_bound(range.start + pre.spec_pad_left(), p as int);
                lemma_mod_bound(range.end + pre.spec_pad_left(), p as int);
            }
            let filled = T::filled_pixel(pixel);
            self.fill_range_with_chunk(range, filled);
            proof {
                assert forall|a: int|
                    range.start + pre.spec_pad_left() <= a < range.end
                        + pre.spec_pad_left() implies self.stored(a) == pixel.as_pixel() by {
                    lemma_mod_bound(a, p as int);
                }
            }
        }
    }

    /// Writes the entries of `new_pixels` one-for-one into the range: the
    /// `k`-th entry is treated as a single pixel and written at
    /// `range.start + k`.  The shorter of the range and the slice decides
    /// how many pixels are written; alignment plays no part.
    pub fn fill_range_with(&mut self, range: Range<usize>, new_pixels: &[T])
        requires
            old(self).well_formed(),
            range.start < range.end ==> range.start + vstd::math::min(
                range.end - range.start,
                new_pixels@.len() as int,
            ) + old(self).spec_pad_left() <= old(self).capacity(),
        ensures
            final(self).well_formed(),
            final(self).spec_chunks().len() == old(self).spec_chunks().len(),
            final(self).spec_pad_left() == old(self).spec_pad_left(),
            final(self).spec_pad_right() == old(self).spec_pad_right(),
            ({
                let written = if range.start < range.end {
                    vstd::math::min(range.end - range.start, new_pixels@.len() as int)
                } else {
                    0int
                };
                &&& forall|k: int|
                    0 <= k < written ==> final(self).stored(
                        range.start + old(self).spec_pad_left() + k,
                    ) == new_pixels@[k].as_pixel()
                &&& forall|a: int|
                    0 <= a < old(self).capacity() && !(range.start + old(self).spec_pad_left() <= a
                        < range.start + old(self).spec_pad_left() + written) ==> final(self).stored(
                        a,
                    ) == old(self).stored(a)
            }),
    {
        proof {
            T::lemma_pixel_count();
        }
        let ghost pre = *old(self);
        if range.start >= range.end {
            return;
        }
        let span = range.end - range.start;
        let n = new_pixels.len();
        let count = if n < span {
            n
        } else {
            span
        };
        let start = range.start;
        let pl = self.pad_left;
        let mut k: usize = 0;
        while k < count
            invariant
                self.well_formed(),
                self.spec_chunks().len() == pre.spec_chunks().len(),
                self.spec_pad_left() == pre.spec_pad_left(),
                self.spec_pad_right() == pre.spec_pad_right(),
                pl == pre.spec_pad_left(),
                0 <= k <= count,
                count <= new_pixels@.len(),
                start + count + pl <= pre.capacity(),
                forall|j: int|
                    0 <= j < k ==> self.stored(start + pl + j) == new_pixels@[j].as_pixel(),
                forall|a: int|
                    0 <= a < pre.capacity() && !(start + pl <= a < start + pl + k) ==> self.stored(
                        a,
                    ) == pre.stored(a),
            decreases count - k,
        {
            self.set_pixel(start + k, new_pixels[k]);
            k = k + 1;
        }
    }

    /// Copies `new_chunks` over whole chunk slots: the `j`-th supplied
    /// chunk replaces the chunk holding pixel `range.start + j * pixels`,
    /// so the range must begin on a chunk boundary.  Chunks are copied
    /// while they fit whole in the range and the slice lasts; a trailing
    /// partial chunk of the range is left untouched.
    pub fn fill_range_with_chunks(&mut self, range: Range<usize>, new_chunks: &[T])
        requires
            old(self).well_formed(),
            range.start <= range.end,
            range.end + old(self).spec_pad_left() <= old(self).capacity(),
            (range.start + old(self).spec_pad_left()) % T::pixel_count() == 0,
        ensures
            final(self).well_formed(),
            final(self).spec_chunks().len() == old(self).spec_chunks().len(),
            final(self).spec_pad_left() == old(self).spec_pad_left(),
            final(self).spec_pad_right() == old(self).spec_pad_right(),
            ({
                let first = (range.start + old(self).spec_pad_left()) / T::pixel_count();
                let copied = vstd::math::min(
                    (range.end - range.start) / T::pixel_count(),
                    new_chunks@.len() as int,
                );
                &&& forall|j: int|
                    0 <= j < copied ==> final(self).spec_chunks()[first + j] == new_chunks@[j]
                &&& forall|ci: int|
                    0 <= ci < old(self).spec_chunks().len() && !(first <= ci < first + copied)
                        ==> final(self).spec_chunks()[ci] == old(self).spec_chunks()[ci]
            }),
    {
        proof {
            T::lemma_pixel_count();
        }
        let ghost pre = *old(self);
        let p = T::pixels();
        let pl = self.pad_left;
        let first = (range.start + pl) / p;
        let span = (range.end - range.start) / p;
        let n = new_chunks.len();
        let count = if n < span {
            n
        } else {
            span
        };
        proof {
            lemma_index_split((range.start + pl) as int, p as int);
            lemma_index_split((range.end - range.start) as int, p as int);
            assert(first + span <= pre.spec_chunks().len()) by (nonlinear_arith)
                requires
                    p >= 1,
                    range.start + pl == (p as int) * (first as int),
                    range.end - range.start == (p as int) * (span as int) + (range.end
                        - range.start) % (p as int),
                    0 <= (range.end - range.start) % (p as int),
                    range.end + pl <= pre.spec_chunks().len() * (p as int),
            ;
            assert(pre.spec_chunks().len() <= pre.spec_chunks().len() * (p as int))
                by (nonlinear_arith)
                requires
                    p >= 1,
            ;
        }
        let mut j: usize = 0;
        while j < count
            invariant
                self.well_formed(),
                self.spec_chunks().len() == pre.spec_chunks().len(),
                self.spec_pad_left() == pre.spec_pad_left(),
                self.spec_pad_right() == pre.spec_pad_right(),
                0 <= j <= count,
                count <= new_chunks@.len(),
                first + count <= pre.spec_chunks().len(),
                pre.spec_chunks().len() <= usize::MAX,
                forall|i: int| 0 <= i < j ==> self.spec_chunks()[first + i] == new_chunks@[i],
                forall|ci: int|
                    0 <= ci < pre.spec_chunks().len() && !(first <= ci < first + j)
                        ==> self.spec_chunks()[ci] == pre.spec_chunks()[ci],
            decreases count - j,
        {
            self.pixel_chunks.set(first + j, new_chunks[j]);
            j = j + 1;
        }
    }

    /// A copy of the chunks in `[range.start, range.end)`, by chunk
    /// position.
    pub fn chunk_range(&self, range: core::ops::Range<usize>) -> (v: Vec<T>)
        requires
            range.start <= range.end,
            range.end <= self.spec_chunks().len(),
        ensures
            v@ == self.spec_chunks().subrange(range.start as int, range.end as int),
    {
        let mut v: Vec<T> = Vec::new();
        let mut i = range.start;
        while i < range.end
            invariant
                range.start <= i <= range.end,
                range.end <= self.spec_chunks().len(),
                v@ == self.spec_chunks().subrange(range.start as int, i as int),
            decreases range.end - i,
        {
            v.push(self.pixel_chunks[i]);
            proof {
                assert(v@ == self.spec_chunks().subrange(range.start as int, i + 1));
            }
            i = i + 1;
        }
        v
    }

    /// A restartable cursor over the visible pixels, in logical order.
    /// The cursor only borrows the row, so iterating never mutates it, and
    /// every cursor made from the same row yields the same sequence.
    pub fn into_iter<'a>(&'a self) -> (it: PixelRowIterator<'a, T>)
        requires
            self.well_formed(),
        ensures
            it.spec_row() == *self,
            it.spec_position() == 0,
    {
        PixelRowIterator { row: self, pixel_index: 0 }
    }
}

impl<T: PixelChunk> Clone for PixelRow<T> {
    /// A deep copy: same chunks, same padding.
    fn clone(&self) -> (r: Self)
        ensures
            r.spec_chunks() == self.spec_chunks(),
            r.spec_pad_left() == self.spec_pad_left(),
            r.spec_pad_right() == self.spec_pad_right(),
    {
        let mut chunks: Vec<T> = Vec::new();
        let mut i: usize = 0;
        while i < self.pixel_chunks.len()
            invariant
                0 <= i <= self.spec_chunks().len(),
                chunks@ == self.spec_chunks().subrange(0, i as int),
            decreases self.spec_chunks().len() - i,
        {
            chunks.push(self.pixel_chunks[i]);
            proof {
                assert(chunks@ == self.spec_chunks().subrange(0, i + 1));
            }
            i = i + 1;
        }
        proof {
            assert(chunks@ == self.spec_chunks());
        }
        PixelRow { pixel_chunks: chunks, pad_left: self.pad_left, pad_right: self.pad_right }
    }
}

/// A cursor over the visible pixels of a borrowed row, in logical order:
/// it starts at the pixel after `pad_left` sub-pixels, walks every chunk's
/// sub-pixels in turn and stops when only the `pad_right` tail is left.
pub struct PixelRowIterator<'a, T: PixelChunk> {
    row: &'a PixelRow<T>,
    pixel_index: usize,
}

impl<'a, T: PixelChunk> PixelRowIterator<'a, T> {
    /// The row this cursor walks.
    pub closed spec fn spec_row(self) -> PixelRow<T> {
        *self.row
    }

    /// The logical pixel index the next call of `next` will read.
    pub closed spec fn spec_position(self) -> int {
        self.pixel_index as int
    }

    /// The pixels this cursor has yet to yield, each re-expressed as a
    /// chunk value: a function of the borrowed row and the position alone.
    pub open spec fn remaining(self) -> Seq<T> {
        Seq::new(
            (self.spec_row().spec_width() - self.spec_position()) as nat,
            |k: int|
                T::from_pixel(self.spec_row().pixel_value_at(self.spec_position() + k)),
        )
    }

    /// The next visible pixel as a chunk value, or nothing once the whole
    /// width has been yielded.
    pub fn next(&mut self) -> (r: Option<T>)
        requires
            old(self).spec_row().well_formed(),
        ensures
            final(self).spec_row() == old(self).spec_row(),
            old(self).spec_position() < old(self).spec_row().spec_width() ==> ({
                &&& r == Some(
                    T::from_pixel(
                        old(self).spec_row().pixel_value_at(old(self).spec_position()),
                    ),
                )
                &&& final(self).spec_position() == old(self).spec_position() + 1
            }),
            old(self).spec_position() >= old(self).spec_row().spec_width() ==> ({
                &&& r is None
                &&& final(self).spec_position() == old(self).spec_position()
            }),
    {
        let w = self.row.width();
        if self.pixel_index >= w {
            return None;
        }
        let r = self.row.pixel(self.pixel_index);
        self.pixel_index = self.pixel_index + 1;
        r
    }
}

/// Round-trip law: writing a canonical pixel value `v` at `index` and
/// reading the same index yields exactly `v` back, and no other visible
/// pixel changes value.  `pre` and `post` are the row before and after the
/// write, related as `set_pixel`'s contract states; the conclusion speaks
/// of the value `pixel` re-expresses for `post` at each index.
pub proof fn lemma_set_pixel_round_trip<T: PixelChunk>(
    pre: PixelRow<T>,
    post: PixelRow<T>,
    index: int,
    v: T,
)
    requires
        pre.well_formed(),
        0 <= index < pre.spec_width(),
        v == T::from_pixel(v.as_pixel()),
        post.spec_chunks().len() == pre.spec_chunks().len(),
        post.spec_pad_left() == pre.spec_pad_left(),
        post.spec_pad_right() == pre.spec_pad_right(),
        post.stored(index + pre.spec_pad_left()) == v.as_pixel(),
        forall|a: int|
            0 <= a < pre.capacity() && a != index + pre.spec_pad_left() ==> post.stored(a)
                == pre.stored(a),
    ensures
        T::from_pixel(post.pixel_value_at(index)) == v,
        forall|j: int|
            0 <= j < pre.spec_width() && j != index ==> post.pixel_value_at(j)
                == pre.pixel_value_at(j),
{
    assert forall|j: int|
        0 <= j < pre.spec_width() && j != index implies post.pixel_value_at(j)
        == pre.pixel_value_at(j) by {
        assert(post.stored(j + pre.spec_pad_left()) == pre.stored(j + pre.spec_pad_left()));
    }
}

/// Fill-equivalence law: a row filled over `[start, end)` with the payload
/// of `v` is pixel-wise identical however the fill was carried out.  `bulk`
/// and `looped` are any two rows that satisfy the fill description over the
/// same starting row `pre` — one may come from the chunk-aligned path,
/// the other from a pixel-by-pixel loop of `set_pixel` — and their visible
/// pixel sequences coincide.
pub proof fn lemma_fill_range_equivalence<T: PixelChunk>(
    pre: PixelRow<T>,
    bulk: PixelRow<T>,
    looped: PixelRow<T>,
    start: int,
    end: int,
    v: T,
)
    requires
        pre.well_formed(),
        bulk.spec_chunks().len() == pre.spec_chunks().len(),
        bulk.spec_pad_left() == pre.spec_pad_left(),
        bulk.spec_pad_right() == pre.spec_pad_right(),
        forall|a: int|
            start + pre.spec_pad_left() <= a < end + pre.spec_pad_left() ==> bulk.stored(a)
                == v.as_pixel(),
        forall|a: int|
            0 <= a < pre.capacity() && !(start + pre.spec_pad_left() <= a < end
                + pre.spec_pad_left()) ==> bulk.stored(a) == pre.stored(a),
        looped.spec_chunks().len() == pre.spec_chunks().len(),
        looped.spec_pad_left() == pre.spec_pad_left(),
        looped.spec_pad_right() == pre.spec_pad_right(),
        forall|a: int|
            start + pre.spec_pad_left() <= a < end + pre.spec_pad_left() ==> looped.stored(a)
                == v.as_pixel(),
        forall|a: int|
            0 <= a < pre.capacity() && !(start + pre.spec_pad_left() <= a < end
                + pre.spec_pad_left()) ==> looped.stored(a) == pre.stored(a),
    ensures
        bulk.pixel_seq() == looped.pixel_seq(),
{
    assert forall|j: int| 0 <= j < bulk.spec_width() implies bulk.pixel_value_at(j)
        == looped.pixel_value_at(j) by {
        let a = j + pre.spec_pad_left();
        if !(start + pre.spec_pad_left() <= a < end + pre.spec_pad_left()) {
            assert(bulk.stored(a) == pre.stored(a));
            assert(looped.stored(a) == pre.stored(a));
        }
    }
    assert(bulk.pixel_seq() =~= looped.pixel_seq());
}

/// Re-window law: moving `pad_left` and later moving it back restores the
/// visible pixel sequence exactly, because a re-window never touches chunk
/// storage.  `mid` is the row after the first padding change, `back` the
/// row once the padding is back at its original value, each related to its
/// predecessor as `set_pad_left`'s contract states.
pub proof fn lemma_pad_rewindow<T: PixelChunk>(
    orig: PixelRow<T>,
    mid: PixelRow<T>,
    back: PixelRow<T>,
)
    requires
        mid.spec_chunks() == orig.spec_chunks(),
        mid.spec_pad_right() == orig.spec_pad_right(),
        back.spec_chunks() == mid.spec_chunks(),
        back.spec_pad_right() == mid.spec_pad_right(),
        back.spec_pad_left() == orig.spec_pad_left(),
    ensures
        back.pixel_seq() == orig.pixel_seq(),
{
    assert(back.pixel_seq() =~= orig.pixel_seq());
}

/// Restartable-iteration law: what a cursor will yield is a function of
/// the row it borrows and its position alone, so two fresh cursors over
/// the same row — two iterations of it — yield identical sequences; and
/// because a cursor holds only a shared borrow, iterating cannot change
/// the row.
pub proof fn lemma_iteration_restartable<'a, 'b, T: PixelChunk>(
    first: PixelRowIterator<'a, T>,
    second: PixelRowIterator<'b, T>,
)
    requires
        first.spec_row() == second.spec_row(),
        first.spec_position() == second.spec_position(),
    ensures
        first.remaining() == second.remaining(),
{
    assert(first.remaining() =~= second.remaining());
}

} // verus!
