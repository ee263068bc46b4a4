//! A framebuffer: a fixed-size rectangle of equally wide pixel rows.

use vstd::prelude::*;

use crate::pixel_formats::PixelChunk;
use crate::pixel_row::chunks_needed;
use crate::pixel_row::row_size_fits;
use crate::pixel_row::PixelRow;

verus! {

/// An owned, fixed-length sequence of rows, all provisioned with the same
/// width at construction.  The framebuffer does no bit arithmetic of its
/// own: a pixel is addressed by `(x, y)` and the work is delegated to the
/// row at `y`.
pub struct FrameBuffer<T: PixelChunk> {
    width: usize,
    height: usize,
    rows: Vec<PixelRow<T>>,
}

impl<T: PixelChunk> FrameBuffer<T> {
    /// The rows, top to bottom.
    pub closed spec fn spec_rows(self) -> Seq<PixelRow<T>> {
        self.rows@
    }

    /// The width every row was provisioned with.
    pub closed spec fn spec_width(self) -> int {
        self.width as int
    }

    /// The number of rows.
    pub closed spec fn spec_height(self) -> int {
        self.height as int
    }

    /// One row per scanline, each well formed and of the declared width.
    pub open spec fn well_formed(self) -> bool {
        &&& self.spec_rows().len() == self.spec_height()
        &&& forall|y: int|
            0 <= y < self.spec_height() ==> (#[trigger] self.spec_rows()[y]).well_formed()
        &&& forall|y: int|
            0 <= y < self.spec_height() ==> (#[trigger] self.spec_rows()[y]).spec_width()
                == self.spec_width()
    }

    /// A `width` by `height` buffer whose every pixel carries payload
    /// zero.
    pub fn new(width: usize, height: usize) -> (r: FrameBuffer<T>)
        requires
            row_size_fits::<T>(width as int),
        ensures
            r.well_formed(),
            r.spec_width() == width,
            r.spec_height() == height,
            forall|y: int|
                0 <= y < height ==> (#[trigger] r.spec_rows()[y]).spec_chunks().len()
                    == chunks_needed::<T>(width as int),
            forall|y: int|
                0 <= y < height ==> (#[trigger] r.spec_rows()[y]).spec_pad_left() == 0,
            forall|y: int|
                0 <= y < height ==> (#[trigger] r.spec_rows()[y]).spec_pad_right()
                    == r.spec_rows()[y].capacity() - width,
            forall|y: int, a: int|
                0 <= y < height && 0 <= a < r.spec_rows()[y].capacity() ==> #[trigger] r.spec_rows()[y].stored(a) == 0,
    {
        let mut rows: Vec<PixelRow<T>> = Vec::new();
        while rows.len() < height
            invariant
                rows@.len() <= height,
                row_size_fits::<T>(width as int),
                forall|y: int| 0 <= y < rows@.len() ==> (#[trigger] rows@[y]).well_formed(),
                forall|y: int|
                    0 <= y < rows@.len() ==> (#[trigger] rows@[y]).spec_width() == width,
                forall|y: int|
                    0 <= y < rows@.len() ==> (#[trigger] rows@[y]).spec_chunks().len()
                        == chunks_needed::<T>(width as int),
                forall|y: int| 0 <= y < rows@.len() ==> (#[trigger] rows@[y]).spec_pad_left() == 0,
                forall|y: int|
                    0 <= y < rows@.len() ==> (#[trigger] rows@[y]).spec_pad_right()
                        == rows@[y].capacity() - width,
                forall|y: int, a: int|
                    0 <= y < rows@.len() && 0 <= a < rows@[y].capacity() ==> #[trigger] rows@[y].stored(a) == 0,
            decreases height - rows@.len(),
        {
            rows.push(PixelRow::new(width));
        }
        FrameBuffer { width, height, rows }
    }

    /// A `width` by `height` buffer whose every pixel carries the payload
    /// of `pixel`.
    pub fn new_with(width: usize, height: usize, pixel: T) -> (r: FrameBuffer<T>)
        requires
            row_size_fits::<T>(width as int),
        ensures
            r.well_formed(),
            r.spec_width() == width,
            r.spec_height() == height,
            forall|y: int|
                0 <= y < height ==> (#[trigger] r.spec_rows()[y]).spec_chunks().len()
                    == chunks_needed::<T>(width as int),
            forall|y: int|
                0 <= y < height ==> (#[trigger] r.spec_rows()[y]).spec_pad_left() == 0,
            forall|y: int|
                0 <= y < height ==> (#[trigger] r.spec_rows()[y]).spec_pad_right()
                    == r.spec_rows()[y].capacity() - width,
            forall|y: int, a: int|
                0 <= y < height && 0 <= a < r.spec_rows()[y].capacity() ==> #[trigger] r.spec_rows()[y].stored(a) == pixel.as_pixel(),
    {
        let mut rows: Vec<PixelRow<T>> = Vec::new();
        while rows.len() < height
            invariant
                rows@.len() <= height,
                row_size_fits::<T>(width as int),
                forall|y: int| 0 <= y < rows@.len() ==> (#[trigger] rows@[y]).well_formed(),
                forall|y: int|
                    0 <= y < rows@.len() ==> (#[trigger] rows@[y]).spec_width() == width,
                forall|y: int|
                    0 <= y < rows@.len() ==> (#[trigger] rows@[y]).spec_chunks().len()
                        == chunks_needed::<T>(width as int),
                forall|y: int| 0 <= y < rows@.len() ==> (#[trigger] rows@[y]).spec_pad_left() == 0,
                forall|y: int|
                    0 <= y < rows@.len() ==> (#[trigger] rows@[y]).spec_pad_right()
                        == rows@[y].capacity() - width,
                forall|y: int, a: int|
                    0 <= y < rows@.len() && 0 <= a < rows@[y].capacity() ==> #[trigger] rows@[y].stored(a) == pixel.as_pixel(),
            decreases height - rows@.len(),
        {
            rows.push(PixelRow::new_with(width, pixel));
        }
        FrameBuffer { width, height, rows }
    }

    /// The width every row was provisioned with.
    pub fn width(&self) -> (w: usize)
        ensures
            w == self.spec_width(),
    {
        self.width
    }

    /// The number of rows.
    pub fn height(&self) -> (h: usize)
        ensures
            h == self.spec_height(),
    {
        self.height
    }

    /// The row at scanline `y`, or nothing when `y` is out of bounds.
    pub fn row(&self, y: usize) -> (r: Option<&PixelRow<T>>)
        requires
            self.well_formed(),
        ensures
            (y as int) < self.spec_height() ==> (r matches Some(row) && *row
                == self.spec_rows()[y as int]),
            (y as int) >= self.spec_height() ==> r is None,
    {
        if y < self.rows.len() {
            Some(&self.rows[y])
        } else {
            None
        }
    }

    /// The pixel at `(x, y)`, re-expressed as a chunk value, or nothing
    /// when `y` is out of bounds or `x` lies beyond the row's stored
    /// chunks.
    pub fn pixel(&self, x: usize, y: usize) -> (r: Option<T>)
        requires
            self.well_formed(),
        ensures
            ({
                let yy = y as int;
                let xx = x as int;
                if yy < self.spec_height() {
                    let row = self.spec_rows()[yy];
                    if xx + row.spec_pad_left() < row.capacity() {
                        r == Some(T::from_pixel(row.stored(xx + row.spec_pad_left())))
                    } else {
                        r is None
                    }
                } else {
                    r is None
                }
            }),
    {
        if y < self.rows.len() {
            self.rows[y].pixel(x)
        } else {
            None
        }
    }

    /// Deep copies of the rows at scanlines `[range.start, range.end)`:
    /// the row-addressed counterpart of `PixelRow`'s chunk-range access.
    pub fn row_range(&self, range: core::ops::Range<usize>) -> (v: Vec<PixelRow<T>>)
        requires
            range.start <= range.end,
            range.end <= self.spec_rows().len(),
        ensures
            v@.len() == range.end - range.start,
            forall|k: int|
                0 <= k < v@.len() ==> ({
                    let row = self.spec_rows()[range.start + k];
                    &&& (#[trigger] v@[k]).spec_chunks() == row.spec_chunks()
                    &&& v@[k].spec_pad_left() == row.spec_pad_left()
                    &&& v@[k].spec_pad_right() == row.spec_pad_right()
                }),
    {
        let mut v: Vec<PixelRow<T>> = Vec::new();
        let mut y = range.start;
        while y < range.end
            invariant
                range.start <= y <= range.end,
                range.end <= self.spec_rows().len(),
                v@.len() == y - range.start,
                forall|k: int|
                    0 <= k < v@.len() ==> ({
                        let row = self.spec_rows()[range.start + k];
                        &&& (#[trigger] v@[k]).spec_chunks() == row.spec_chunks()
                        &&& v@[k].spec_pad_left() == row.spec_pad_left()
                        &&& v@[k].spec_pad_right() == row.spec_pad_right()
                    }),
            decreases range.end - y,
        {
            v.push(self.rows[y].clone());
            y = y + 1;
        }
        v
    }
}

} // verus!
