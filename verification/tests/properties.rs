use pixelbuf::frame_buffer::FrameBuffer;
use pixelbuf::pixel_formats::Pixel4;
use pixelbuf::pixel_formats::Pixel8;
use pixelbuf::pixel_formats::PixelChunk;
use pixelbuf::pixel_row::PixelRow;

#[test]
fn fresh_rows_have_requested_width_and_chunk_count() {
    let row: PixelRow<Pixel8> = PixelRow::new(0);
    assert_eq!(row.width(), 0);
    assert_eq!(row.len(), 0);
    assert!(row.is_empty());

    let row: PixelRow<Pixel8> = PixelRow::new(5);
    assert_eq!(row.width(), 5);
    assert_eq!(row.len(), 5);

    let row: PixelRow<Pixel4> = PixelRow::new(1);
    assert_eq!(row.width(), 1);
    assert_eq!(row.len(), 1);
    assert_eq!(row.pad_right(), 1);

    let row: PixelRow<Pixel4> = PixelRow::new(8);
    assert_eq!(row.width(), 8);
    assert_eq!(row.len(), 4);
    assert_eq!(row.pad_right(), 0);

    let row: PixelRow<Pixel4> = PixelRow::new(9);
    assert_eq!(row.width(), 9);
    assert_eq!(row.len(), 5);
    assert_eq!(row.pad_right(), 1);
}

#[test]
fn set_pixel_round_trips_and_touches_nothing_else() {
    let mut row: PixelRow<Pixel4> = PixelRow::new(9);
    for i in 0..9 {
        row.set_pixel(i, (i as u8).into());
    }
    row.set_pixel(3, 9.into());
    assert_eq!(row.pixel(3), Some(9.into()));
    for i in 0..9 {
        if i != 3 {
            assert_eq!(row.pixel(i), Some((i as u8).into()));
        }
    }
}

#[test]
fn dual_pixel_packing_matches_formula() {
    // payloads wider than a nibble are truncated at packing time
    let a: u8 = 0x2B;
    let b: u8 = 0x3C;
    let mut chunk = Pixel4 { value: 0 };
    chunk.set_pixel(0, Pixel4 { value: a });
    chunk.set_pixel(1, Pixel4 { value: b });
    assert_eq!(chunk.value, (a << 4) | (b & 0xF));

    let a: u8 = 0x5;
    let b: u8 = 0xE;
    let mut chunk = Pixel4 { value: 0 };
    chunk.set_pixel(0, Pixel4 { value: a });
    chunk.set_pixel(1, Pixel4 { value: b });
    assert_eq!(chunk.value, (a << 4) | (b & 0xF));
}

#[test]
fn out_of_range_sub_index_changes_nothing() {
    let mut chunk = Pixel4 { value: 0xAB };
    chunk.set_pixel(2, Pixel4 { value: 0xF });
    assert_eq!(chunk.value, 0xAB);

    let mut chunk = Pixel8 { value: 0x55 };
    chunk.set_pixel(1, Pixel8 { value: 0xF });
    assert_eq!(chunk.value, 0x55);
    assert_eq!(chunk.get_pixel(1), None);
}

#[test]
fn fill_range_matches_pixel_loop_on_both_paths() {
    // a padded dual-pixel row exercises the chunk-aligned path with an
    // unaligned window
    let mut bulk: PixelRow<Pixel4> = PixelRow::new(14);
    assert!(bulk.set_pad_left(3));
    assert!(bulk.set_pad_right(1));
    let mut looped = bulk.clone();
    for i in 0..10 {
        bulk.set_pixel(i, (i as u8).into());
        looped.set_pixel(i, (i as u8).into());
    }

    // eight pixels span at least two whole chunks: the bulk path runs
    bulk.fill_range(1..9, 0xE.into());
    for i in 1..9 {
        looped.set_pixel(i, 0xE.into());
    }
    for i in 0..10 {
        assert_eq!(bulk.pixel(i), looped.pixel(i));
    }

    // a two-pixel range falls back to the per-pixel loop
    bulk.fill_range(4..6, 0x3.into());
    for i in 4..6 {
        looped.set_pixel(i, 0x3.into());
    }
    for i in 0..10 {
        assert_eq!(bulk.pixel(i), looped.pixel(i));
    }

    // an empty range writes nothing
    bulk.fill_range(5..5, 0x7.into());
    for i in 0..10 {
        assert_eq!(bulk.pixel(i), looped.pixel(i));
    }
}

#[test]
fn fill_range_with_chunk_keeps_phase() {
    let mut row: PixelRow<Pixel4> = PixelRow::new(8);
    row.fill_range_with_chunk(0..8, Pixel4 { value: 0xAB });
    for i in 0..8 {
        let expected: u8 = if i % 2 == 0 { 0xA } else { 0xB };
        assert_eq!(row.pixel(i).unwrap().value, expected);
    }
}

#[test]
fn fill_range_with_chunks_copies_whole_chunks() {
    let mut row: PixelRow<Pixel4> = PixelRow::new(8);
    row.fill_range_with_chunks(2..8, &[Pixel4 { value: 0x12 }, Pixel4 { value: 0x34 }]);
    assert_eq!(row.chunk(0).value, 0x00);
    assert_eq!(row.chunk(1).value, 0x12);
    assert_eq!(row.chunk(2).value, 0x34);
    assert_eq!(row.chunk(3).value, 0x00);
}

#[test]
fn pad_rewindow_restores_the_visible_sequence() {
    let mut row: PixelRow<Pixel4> = PixelRow::new(9);
    for i in 0..9 {
        row.set_pixel(i, (i as u8).into());
    }
    let mut before: Vec<Pixel4> = Vec::new();
    for i in 0..row.width() {
        before.push(row.pixel(i).unwrap());
    }

    assert!(row.set_pad_left(4));
    assert_eq!(row.width(), 5);
    assert!(row.set_pad_left(0));
    assert_eq!(row.width(), 9);

    let mut after: Vec<Pixel4> = Vec::new();
    for i in 0..row.width() {
        after.push(row.pixel(i).unwrap());
    }
    assert_eq!(before, after);
}

#[test]
fn new_with_writes_every_pixel_slot() {
    // every packed sub-pixel carries the payload, padded slots included
    let row: PixelRow<Pixel4> = PixelRow::new_with(5, 5.into());
    for i in 0..5 {
        assert_eq!(row.pixel(i), Some(5.into()));
    }
    for c in 0..row.len() {
        assert_eq!(row.chunk(c).value, 0x55);
    }
}

#[test]
fn set_pad_rejects_padding_beyond_capacity() {
    let mut row: PixelRow<Pixel8> = PixelRow::new(4);
    assert!(!row.set_pad_left(5));
    assert_eq!(row.width(), 4);
    assert!(!row.set_pad_right(5));
    assert_eq!(row.width(), 4);
    assert!(row.set_pad_left(4));
    assert_eq!(row.width(), 0);
}

#[test]
fn pixel8_round_trips_through_bytes() {
    let px: Pixel8 = Pixel8::from(0xCD);
    assert_eq!(u8::from(px), 0xCD);
    let px: Pixel8 = 7.into();
    let byte: u8 = px.into();
    assert_eq!(byte, 7);
}

#[test]
fn frame_buffer_rows_are_provisioned_like_fresh_rows() {
    let buffer: FrameBuffer<Pixel4> = FrameBuffer::new(7, 2);
    for y in 0..2 {
        let row = buffer.row(y).unwrap();
        assert_eq!(row.len(), 4);
        assert_eq!(row.pad_left(), 0);
        assert_eq!(row.pad_right(), 1);
        assert_eq!(row.width(), 7);
    }
}

#[test]
fn frame_buffer_row_range_copies_rows() {
    let buffer: FrameBuffer<Pixel8> = FrameBuffer::new_with(3, 4, 8.into());
    let rows = buffer.row_range(1..3);
    assert_eq!(rows.len(), 2);
    for row in &rows {
        assert_eq!(row.len(), 3);
        assert_eq!(row.width(), 3);
        assert_eq!(row.pixel(0), Some(8.into()));
        assert_eq!(row.pixel(2), Some(8.into()));
    }
}

#[test]
fn frame_buffer_rows_are_uniform_and_bounded() {
    let buffer: FrameBuffer<Pixel4> = FrameBuffer::new_with(3, 2, 9.into());
    assert_eq!(buffer.width(), 3);
    assert_eq!(buffer.height(), 2);
    for y in 0..2 {
        for x in 0..3 {
            assert_eq!(buffer.pixel(x, y), Some(9.into()));
        }
        assert_eq!(buffer.row(y).unwrap().width(), 3);
        assert_eq!(buffer.row(y).unwrap().pad_right(), 1);
    }
    assert_eq!(buffer.pixel(0, 2), None);
    assert_eq!(buffer.row(2), None);
}
