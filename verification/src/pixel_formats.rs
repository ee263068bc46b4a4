//! Chunk types: fixed-size storage units that pack one or more logical pixels.

use vstd::prelude::*;

verus! {

/// A fixed-size storage unit that packs `pixel_count()` logical pixels.
///
/// A chunk is a plain value, copied by value.  Its specification model is
/// the sequence of logical payloads it packs:
/// * `pixel_value(i)` is the payload of the sub-pixel at sub-index `i`;
/// * `as_pixel()` is the payload a chunk carries when it is handed around as
///   a single pixel argument;
/// * `from_pixel(v)` is the canonical chunk that re-expresses the single
///   payload `v`, so that one pixel can itself be treated as a chunk.
pub trait PixelChunk: Sized + Copy {
    /// How many logical pixels one chunk packs.
    spec fn pixel_count() -> int;

    /// The logical payload of the sub-pixel at `i`.
    spec fn pixel_value(self, i: int) -> u8;

    /// The payload this chunk carries when used as a single pixel argument.
    spec fn as_pixel(self) -> u8;

    /// The canonical chunk that re-expresses the single payload `v`.
    spec fn from_pixel(v: u8) -> Self;

    /// Every chunk variant packs at least one pixel, and a sub-index fits in
    /// a machine word.
    proof fn lemma_pixel_count()
        ensures
            1 <= Self::pixel_count() <= usize::MAX,
    ;

    /// Re-expressing a stored payload as its own chunk keeps the payload.
    proof fn lemma_from_pixel(c: Self, i: int)
        requires
            0 <= i < Self::pixel_count(),
        ensures
            Self::from_pixel(c.pixel_value(i)).as_pixel() == c.pixel_value(i),
    ;

    /// Executable counterpart of `pixel_count()`.
    fn pixels() -> (n: usize)
        ensures
            n as int == Self::pixel_count(),
    ;

    /// The chunk whose every sub-pixel carries payload zero.
    fn zero() -> (r: Self)
        ensures
            r == Self::from_pixel(0),
            r.as_pixel() == 0,
            forall|j: int| 0 <= j < Self::pixel_count() ==> r.pixel_value(j) == 0,
    ;

    /// The sub-pixel at `index`, re-expressed as a full chunk value, or
    /// nothing when `index` is outside the chunk.
    fn get_pixel(&self, index: usize) -> (r: Option<Self>)
        ensures
            (index as int) < Self::pixel_count() ==> r == Some(
                Self::from_pixel(self.pixel_value(index as int)),
            ),
            (index as int) >= Self::pixel_count() ==> r is None,
    ;

    /// Overwrites only the sub-pixel at `index` with the payload of `pixel`;
    /// every other packed sub-pixel keeps its value.  An out-of-range
    /// `index` changes nothing.
    fn set_pixel(&mut self, index: usize, pixel: Self)
        ensures
            (index as int) < Self::pixel_count() ==> ({
                &&& final(self).pixel_value(index as int) == pixel.as_pixel()
                &&& forall|j: int|
                    0 <= j < Self::pixel_count() && j != index as int
                        ==> final(self).pixel_value(j) == old(self).pixel_value(j)
            }),
            (index as int) >= Self::pixel_count() ==> *final(self) == *old(self),
    ;

    /// Writes the payload of `pixel` into every sub-pixel of this chunk.
    fn fill_pixel(&mut self, pixel: Self)
        ensures
            forall|j: int|
                0 <= j < Self::pixel_count() ==> final(self).pixel_value(j) == pixel.as_pixel(),
    ;

    /// A chunk whose every sub-pixel carries the payload of `pixel`; the
    /// row-level bulk fill builds one such chunk and broadcasts it.
    fn filled_pixel(pixel: Self) -> (r: Self)
        ensures
            forall|j: int|
                0 <= j < Self::pixel_count() ==> r.pixel_value(j) == pixel.as_pixel(),
    ;
}

/// A restartable cursor over the sub-pixels of one chunk, in sub-index
/// order.  Iterating never mutates the chunk it was made from.
pub struct PixelChunkIterator<T: PixelChunk> {
    chunk: T,
    index: usize,
}

impl<T: PixelChunk> PixelChunkIterator<T> {
    /// The chunk this cursor walks.
    pub closed spec fn spec_chunk(self) -> T {
        self.chunk
    }

    /// The sub-index the next call of `next` will read.
    pub closed spec fn spec_position(self) -> int {
        self.index as int
    }

    /// A cursor at the first sub-pixel of `chunk`.
    pub fn new(chunk: T) -> (it: Self)
        ensures
            it.spec_chunk() == chunk,
            it.spec_position() == 0,
    {
        PixelChunkIterator { chunk, index: 0 }
    }

    /// The next sub-pixel as a full chunk value, or nothing once every
    /// sub-pixel has been yielded.
    pub fn next(&mut self) -> (r: Option<T>)
        ensures
            final(self).spec_chunk() == old(self).spec_chunk(),
            old(self).spec_position() < T::pixel_count() ==> ({
                &&& r == Some(
                    T::from_pixel(old(self).spec_chunk().pixel_value(old(self).spec_position())),
                )
                &&& final(self).spec_position() == old(self).spec_position() + 1
            }),
            old(self).spec_position() >= T::pixel_count() ==> ({
                &&& r is None
                &&& final(self).spec_position() == old(self).spec_position()
            }),
    {
        proof {
            T::lemma_pixel_count();
        }
        let r = self.chunk.get_pixel(self.index);
        if r.is_some() {
            self.index = self.index + 1;
        }
        r
    }
}

/// A full-width pixel: one chunk holds exactly one 8-bit pixel.
#[derive(Debug, PartialEq, Eq, Structural, Clone, Copy)]
pub struct Pixel8 {
    pub value: u8,
}

impl PixelChunk for Pixel8 {
    open spec fn pixel_count() -> int {
        1
    }

    open spec fn pixel_value(self, i: int) -> u8 {
        self.value
    }

    open spec fn as_pixel(self) -> u8 {
        self.value
    }

    open spec fn from_pixel(v: u8) -> Pixel8 {
        Pixel8 { value: v }
    }

    proof fn lemma_pixel_count() {
    }

    proof fn lemma_from_pixel(c: Self, i: int) {
    }

    fn pixels() -> (n: usize) {
        1
    }

    fn zero() -> (r: Self) {
        Pixel8 { value: 0 }
    }

    fn get_pixel(&self, index: usize) -> (r: Option<Self>) {
        match index {
            0 => Some(*self),
            _ => None,
        }
    }

    fn set_pixel(&mut self, index: usize, pixel: Self) {
        if index == 0 {
            self.value = pixel.value;
        }
    }

    fn fill_pixel(&mut self, pixel: Self) {
        self.value = pixel.value;
    }

    fn filled_pixel(pixel: Self) -> (r: Self) {
        Pixel8 { value: pixel.value }
    }
}

impl Pixel8 {
    /// A restartable cursor over this chunk's single pixel.
    pub fn into_iter(&self) -> (it: PixelChunkIterator<Pixel8>)
        ensures
            it.spec_chunk() == *self,
            it.spec_position() == 0,
    {
        PixelChunkIterator::new(*self)
    }
}

impl From<u8> for Pixel8 {
    fn from(value: u8) -> (r: Self) {
        Pixel8 { value }
    }
}

impl vstd::std_specs::convert::FromSpecImpl<u8> for Pixel8 {
    open spec fn obeys_from_spec() -> bool {
        true
    }

    open spec fn from_spec(v: u8) -> Pixel8 {
        Pixel8 { value: v }
    }
}

impl From<Pixel8> for u8 {
    fn from(pixel: Pixel8) -> (r: u8) {
        pixel.value
    }
}

impl vstd::std_specs::convert::FromSpecImpl<Pixel8> for u8 {
    open spec fn obeys_from_spec() -> bool {
        true
    }

    open spec fn from_spec(pixel: Pixel8) -> u8 {
        pixel.value
    }
}

/// A half-width pixel: one chunk (one byte) packs two 4-bit pixels,
/// high-nibble-first — sub-index 0 is the high nibble, sub-index 1 the low
/// nibble.  When a chunk stands in for a single pixel, only its low nibble
/// is the payload; a raw byte supplied through `From<u8>` keeps all 8 bits
/// and is truncated only when it is packed by `set_pixel`.
#[derive(Debug, PartialEq, Eq, Structural, Clone, Copy)]
pub struct Pixel4 {
    pub value: u8,
}

impl PixelChunk for Pixel4 {
    open spec fn pixel_count() -> int {
        2
    }

    open spec fn pixel_value(self, i: int) -> u8 {
        if i == 0 {
            self.value >> 4
        } else {
            self.value & 0xF
        }
    }

    open spec fn as_pixel(self) -> u8 {
        self.value & 0xF
    }

    open spec fn from_pixel(v: u8) -> Pixel4 {
        Pixel4 { value: v }
    }

    proof fn lemma_pixel_count() {
    }

    proof fn lemma_from_pixel(c: Self, i: int) {
        let v = c.value;
        assert((v >> 4) & 0xF == v >> 4) by (bit_vector);
        assert((v & 0xF) & 0xF == v & 0xF) by (bit_vector);
    }

    fn pixels() -> (n: usize) {
        2
    }

    fn zero() -> (r: Self) {
        proof {
            assert(0u8 >> 4 == 0 && 0u8 & 0xF == 0) by (bit_vector);
        }
        Pixel4 { value: 0 }
    }

    fn get_pixel(&self, index: usize) -> (r: Option<Self>) {
        match index {
            0 => Some(Pixel4 { value: self.value >> 4 }),
            1 => Some(Pixel4 { value: self.value & 0xF }),
            _ => None,
        }
    }

    fn set_pixel(&mut self, index: usize, pixel: Self) {
        let v = self.value;
        let p = pixel.value;
        if index == 0 {
            self.value = (v & 0xF) | (p << 4);
            proof {
                assert(((v & 0xF) | (p << 4)) >> 4 == p & 0xF) by (bit_vector);
                assert((((v & 0xF) | (p << 4)) & 0xF) == v & 0xF) by (bit_vector);
            }
        } else if index == 1 {
            self.value = (v & 0xF0) | (p & 0xF);
            proof {
                assert(((v & 0xF0) | (p & 0xF)) >> 4 == v >> 4) by (bit_vector);
                assert((((v & 0xF0) | (p & 0xF)) & 0xF) == p & 0xF) by (bit_vector);
            }
        }
    }

    fn fill_pixel(&mut self, pixel: Self) {
        let p = pixel.value;
        self.value = ((p & 0xF) << 4) | (p & 0xF);
        proof {
            assert((((p & 0xF) << 4) | (p & 0xF)) >> 4 == p & 0xF) by (bit_vector);
            assert(((((p & 0xF) << 4) | (p & 0xF)) & 0xF) == p & 0xF) by (bit_vector);
        }
    }

    fn filled_pixel(pixel: Self) -> (r: Self) {
        let p = pixel.value;
        proof {
            assert((((p & 0xF) << 4) | (p & 0xF)) >> 4 == p & 0xF) by (bit_vector);
            assert(((((p & 0xF) << 4) | (p & 0xF)) & 0xF) == p & 0xF) by (bit_vector);
        }
        Pixel4 { value: ((p & 0xF) << 4) | (p & 0xF) }
    }
}

impl Pixel4 {
    /// A restartable cursor over this chunk's two pixels, high nibble first.
    pub fn into_iter(&self) -> (it: PixelChunkIterator<Pixel4>)
        ensures
            it.spec_chunk() == *self,
            it.spec_position() == 0,
    {
        PixelChunkIterator::new(*self)
    }
}

impl From<u8> for Pixel4 {
    fn from(value: u8) -> (r: Self) {
        Pixel4 { value }
    }
}

impl vstd::std_specs::convert::FromSpecImpl<u8> for Pixel4 {
    open spec fn obeys_from_spec() -> bool {
        true
    }

    open spec fn from_spec(v: u8) -> Pixel4 {
        Pixel4 { value: v }
    }
}

impl From<Pixel4> for u8 {
    fn from(pixel: Pixel4) -> (r: u8) {
        pixel.value
    }
}

impl vstd::std_specs::convert::FromSpecImpl<Pixel4> for u8 {
    open spec fn obeys_from_spec() -> bool {
        true
    }

    open spec fn from_spec(pixel: Pixel4) -> u8 {
        pixel.value
    }
}

/// The dual-pixel packing law: writing payload `a` at sub-index 0 and `b`
/// at sub-index 1 — in either order, starting from any chunk — leaves the
/// stored byte `(a << 4) | (b & 0xF)`.
pub proof fn lemma_dual_pixel_packing(c: Pixel4, a: Pixel4, b: Pixel4)
    requires
        c.pixel_value(0) == a.as_pixel(),
        c.pixel_value(1) == b.as_pixel(),
    ensures
        c.value == (a.value << 4) | (b.value & 0xF),
{
    let cv = c.value;
    let av = a.value;
    let bv = b.value;
    assert(cv >> 4 == av & 0xF && cv & 0xF == bv & 0xF ==> cv == (av << 4) | (bv & 0xF))
        by (bit_vector);
}

} // verus!
