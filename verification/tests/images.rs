use kricon::images::decode;
use std::io::Cursor;

fn png(width: u32, height: u32, pixels: Vec<u8>) -> Vec<u8> {
    let image = image::RgbaImage::from_raw(width, height, pixels).unwrap();
    let mut bytes = Vec::new();
    image::DynamicImage::ImageRgba8(image)
        .write_to(&mut Cursor::new(&mut bytes), image::ImageFormat::Png)
        .unwrap();
    bytes
}

#[test]
fn decode_keeps_a_small_image() {
    let pixels = vec![255, 0, 0, 255, 0, 0, 255, 128];
    let bytes = png(2, 1, pixels.clone());
    assert_eq!(decode(&bytes, 4), Some((2, 1, pixels)));
}

#[test]
fn decode_fits_a_large_image() {
    let bytes = png(4, 2, vec![200; 32]);
    let (width, height, pixels) = decode(&bytes, 2).unwrap();
    assert_eq!((width, height), (2, 1));
    assert_eq!(pixels, vec![200; 8]);
}

#[test]
fn decode_refuses_what_is_not_an_image() {
    assert_eq!(decode(b"not an image", 64), None);
    assert_eq!(decode(&[], 64), None);
}
