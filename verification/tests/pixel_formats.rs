use pixelbuf::pixel_formats::Pixel4;
use pixelbuf::pixel_formats::Pixel8;
use pixelbuf::pixel_formats::PixelChunk;

#[test]
fn can_create_pixel4() {
    let pixel = Pixel4 { value: 0xF0 };

    assert_eq!(pixel.get_pixel(0), Some(Pixel4 { value: 0xF }));
    assert_eq!(pixel.value, 0xF0);
}

#[test]
fn can_get_pixels_from_pixel4() {
    let pixel = Pixel4 { value: 0xFA };
    assert_eq!(pixel.get_pixel(0).unwrap().value, 0xF);
    assert_eq!(pixel.get_pixel(1).unwrap().value, 0xA);
    assert_eq!(pixel.get_pixel(2), None);
    assert_eq!(pixel.get_pixel(42), None);
}

#[test]
fn check_alignment_and_size() {
    assert_eq!(std::mem::align_of::<Pixel4>(), 1);
    assert_eq!(std::mem::size_of::<Pixel4>(), 1);

    assert_eq!(std::mem::size_of::<Vec<Pixel4>>(), 24);

    let px: Pixel4 = 0xF0.into();
    let mut val = vec![px, px, px];
    for _i in 0..24 {
        val.push(px);
    }

    // a Vec is 24 bytes however much it holds: its contents live elsewhere
    assert_eq!(std::mem::size_of_val(&val), 24);
}

#[test]
fn can_set_pixel4() {
    let mut pixel = Pixel4 { value: 0xA0 };
    pixel.set_pixel(1, Pixel4 { value: 0xB });
    assert_eq!(pixel.value, 0xAB);
}

#[test]
fn can_set_pixel4_with_u8() {
    let mut pixel: Pixel4 = 0xA1.into();
    assert_eq!(pixel.get_pixel(0).unwrap().value, 0xA);
    assert_eq!(pixel.get_pixel(1).unwrap().value, 0x1);
    pixel.set_pixel(1, 0xB.into());
    assert_eq!(pixel.value, 0xAB);
}

#[test]
fn can_get_u8_from_pixel4() {
    let pixel = Pixel4 { value: 0xAB };
    assert_eq!(u8::from(pixel), 0xAB);
}

#[test]
fn can_iterate_over_pixel4() {
    let pixel = Pixel4 { value: 0xAB };
    let mut iter = pixel.into_iter();
    assert_eq!(iter.next().unwrap().value, 0xA);
    assert_eq!(iter.next().unwrap().value, 0xB);
    assert_eq!(iter.next(), None);

    // has the pixel been consumed?  a fresh cursor starts over
    let mut iter = pixel.into_iter();
    assert_eq!(iter.next().unwrap().value, 0xA);

    let mut test = 0xA;
    let mut iter = pixel.into_iter();
    while let Some(p) = iter.next() {
        assert_eq!(p.value, test);
        test += 1;
    }
    assert_eq!(test, 0xC);
}

#[test]
fn can_iterate_over_pixel8() {
    let pixel = Pixel8 { value: 0xAB };
    let mut iter = pixel.into_iter();
    assert_eq!(iter.next().unwrap().value, 0xAB);
    assert_eq!(iter.next(), None);

    // has the pixel been consumed?  a fresh cursor starts over
    let mut iter = pixel.into_iter();
    assert_eq!(iter.next().unwrap().value, 0xAB);

    let mut test = 0xAB;
    let mut iter = pixel.into_iter();
    while let Some(p) = iter.next() {
        assert_eq!(p.value, test);
        test += 1;
    }
    assert_eq!(test, 0xAC);
}
