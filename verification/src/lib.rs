//! Packed-pixel raster storage.
//!
//! A raster row stores logical pixels densely inside fixed-size storage
//! "chunks"; one chunk may pack several sub-unit pixels (for example two
//! 4-bit pixels in one byte).  [`pixel_formats`] defines the chunk
//! abstraction and two concrete chunk types, [`pixel_row`] the row built on
//! it with alignment-aware bulk fills, and [`frame_buffer`] a rectangle of
//! rows of equal width.

pub mod frame_buffer;
pub mod pixel_formats;
pub mod pixel_row;
