use sightgfx::bmp::BmpError;
use sightgfx::bmp::BmpImage;
use sightgfx::Color;
use sightgfx::Sight;

fn put_u16(b: &mut Vec<u8>, off: usize, v: u16) {
    b[off] = (v & 0xff) as u8;
    b[off + 1] = (v >> 8) as u8;
}

fn put_u32(b: &mut Vec<u8>, off: usize, v: u32) {
    b[off] = (v & 0xff) as u8;
    b[off + 1] = ((v >> 8) & 0xff) as u8;
    b[off + 2] = ((v >> 16) & 0xff) as u8;
    b[off + 3] = ((v >> 24) & 0xff) as u8;
}

fn header(width: u32, height: u32, bpp: u16, data_len: usize) -> Vec<u8> {
    let mut b = vec![0u8; 54 + data_len];
    b[0] = b'B';
    b[1] = b'M';
    put_u32(&mut b, 10, 54);
    put_u32(&mut b, 14, 40);
    put_u32(&mut b, 18, width);
    put_u32(&mut b, 22, height);
    put_u16(&mut b, 26, 1);
    put_u16(&mut b, 28, bpp);
    put_u32(&mut b, 30, 0);
    b
}

/// A 2x2 all-red 24-bit image: rows padded to four bytes, bottom-up.
fn red_2x2_24bit() -> Vec<u8> {
    let mut b = header(2, 2, 24, 16);
    for row in 0..2 {
        for col in 0..2 {
            let off = 54 + row * 8 + col * 3;
            b[off] = 0; // blue
            b[off + 1] = 0; // green
            b[off + 2] = 255; // red
        }
    }
    b
}

#[test]
fn decode_24bit_red_round_trip() {
    let img = BmpImage::from_bytes(&red_2x2_24bit()).unwrap();
    assert_eq!(img.width, 2);
    assert_eq!(img.height, 2);
    assert_eq!(img.data.len(), 16);
    for px in 0..4 {
        // Canonical channel order: blue, green, red, alpha.
        assert_eq!(&img.data[px * 4..px * 4 + 4], &[0, 0, 255, 255]);
    }
}

#[test]
fn decode_32bit_keeps_alpha_and_flips_rows() {
    let mut b = header(2, 2, 32, 16);
    // Stored bottom-up: first stored row is the image's bottom row.
    let bottom = [1u8, 2, 3, 4, 5, 6, 7, 8];
    let top = [9u8, 10, 11, 12, 13, 14, 15, 16];
    b[54..62].copy_from_slice(&bottom);
    b[62..70].copy_from_slice(&top);
    let img = BmpImage::from_bytes(&b).unwrap();
    // The output is top-down.
    assert_eq!(&img.data[0..8], &top);
    assert_eq!(&img.data[8..16], &bottom);
}

#[test]
fn decode_top_down_height_keeps_order() {
    let mut b = header(1, 0, 32, 8);
    // Height -2 marks top-down storage.
    put_u32(&mut b, 22, (-2i32) as u32);
    b[54..58].copy_from_slice(&[1, 2, 3, 4]);
    b[58..62].copy_from_slice(&[5, 6, 7, 8]);
    let img = BmpImage::from_bytes(&b).unwrap();
    assert_eq!(img.height, 2);
    assert_eq!(&img.data[0..4], &[1, 2, 3, 4]);
    assert_eq!(&img.data[4..8], &[5, 6, 7, 8]);
}

#[test]
fn too_small_is_rejected() {
    assert_eq!(BmpImage::from_bytes(&[0u8; 53]).unwrap_err(), BmpError::TooSmall);
}

#[test]
fn bad_magic_is_rejected() {
    let mut b = red_2x2_24bit();
    b[0] = b'X';
    assert_eq!(BmpImage::from_bytes(&b).unwrap_err(), BmpError::BadMagic);
}

#[test]
fn old_header_is_rejected() {
    let mut b = red_2x2_24bit();
    put_u32(&mut b, 14, 12);
    assert_eq!(BmpImage::from_bytes(&b).unwrap_err(), BmpError::UnsupportedHeader);
}

#[test]
fn zero_dimensions_are_rejected() {
    let mut b = red_2x2_24bit();
    put_u32(&mut b, 18, 0);
    assert_eq!(BmpImage::from_bytes(&b).unwrap_err(), BmpError::InvalidDimensions);
}

#[test]
fn extra_planes_are_rejected() {
    let mut b = red_2x2_24bit();
    put_u16(&mut b, 26, 2);
    assert_eq!(BmpImage::from_bytes(&b).unwrap_err(), BmpError::InvalidPlanes);
}

#[test]
fn compression_is_rejected() {
    let mut b = red_2x2_24bit();
    put_u32(&mut b, 30, 1);
    assert_eq!(BmpImage::from_bytes(&b).unwrap_err(), BmpError::UnsupportedCompression);
}

#[test]
fn data_offset_past_the_end_is_rejected() {
    let mut b = red_2x2_24bit();
    put_u32(&mut b, 10, 9999);
    assert_eq!(BmpImage::from_bytes(&b).unwrap_err(), BmpError::InvalidDataOffset);
}

#[test]
fn odd_bit_depths_are_rejected() {
    let mut b = red_2x2_24bit();
    put_u16(&mut b, 28, 8);
    assert_eq!(BmpImage::from_bytes(&b).unwrap_err(), BmpError::UnsupportedBitDepth);
}

#[test]
fn truncated_pixel_data_is_rejected() {
    let mut b = red_2x2_24bit();
    b.truncate(60);
    assert_eq!(BmpImage::from_bytes(&b).unwrap_err(), BmpError::TruncatedData);
}

#[test]
fn draw_bmp_blits_and_skips_transparent_pixels() {
    let mut b = header(2, 1, 32, 8);
    // One opaque green pixel, one fully transparent pixel.
    b[54..58].copy_from_slice(&[0, 255, 0, 255]);
    b[58..62].copy_from_slice(&[9, 9, 9, 0]);
    let img = BmpImage::from_bytes(&b).unwrap();
    let mut s = Sight::new(4, 4);
    s.draw_bmp(&img, 1, 2);
    assert_eq!(s.get_pixel(1, 2), Color::rgba(0, 255, 0, 255).to_u32());
    // The transparent source pixel left the canvas untouched.
    assert_eq!(s.get_pixel(2, 2), 0);
}

#[test]
fn draw_bmp_clips_at_the_canvas_edge() {
    let img = BmpImage::from_bytes(&red_2x2_24bit()).unwrap();
    let mut s = Sight::new(4, 4);
    s.draw_bmp(&img, 3, 3);
    let red = Color::rgba(255, 0, 0, 255).to_u32();
    assert_eq!(s.get_pixel(3, 3), red);
    assert_eq!(s.buffer().iter().filter(|&&p| p == red).count(), 1);
}
