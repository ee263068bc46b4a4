use pixelbuf::frame_buffer::FrameBuffer;
use pixelbuf::pixel_formats::Pixel8;

#[test]
fn can_create_frame_buffer() {
    let buffer: FrameBuffer<Pixel8> = FrameBuffer::new(7, 3);
    assert_eq!(buffer.height(), 3);
    for y in 0..buffer.height() {
        let row = buffer.row(y).unwrap();
        assert_eq!(row.len(), 7);
        assert_eq!(row.len(), buffer.width());
    }
}

#[test]
fn can_create_frame_buffer_with_pixel() {
    let buffer: FrameBuffer<Pixel8> = FrameBuffer::new_with(3, 3, Pixel8 { value: 5 });
    for y in 0..buffer.height() {
        let row = buffer.row(y).unwrap();
        for i in 0..row.len() {
            assert_eq!(row.chunk(i).value, 5);
        }
    }
}

#[test]
fn can_get_row() {
    let buffer: FrameBuffer<Pixel8> = FrameBuffer::new(3, 3);
    assert_eq!(buffer.row(0).unwrap().len(), 3);
    assert_eq!(buffer.row(1).unwrap().len(), 3);
    assert_eq!(buffer.row(2).unwrap().len(), 3);
    assert_eq!(buffer.row(3), None);
}

#[test]
fn frame_buffer_can_get_pixel() {
    let buffer: FrameBuffer<Pixel8> = FrameBuffer::new(3, 3);
    assert_eq!(buffer.pixel(0, 0), Some(Pixel8 { value: 0 }));
    assert_eq!(buffer.pixel(1, 1), Some(Pixel8 { value: 0 }));
    assert_eq!(buffer.pixel(2, 2), Some(Pixel8 { value: 0 }));
    assert_eq!(buffer.pixel(3, 3), None);
}
