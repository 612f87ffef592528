//! A decoder for uncompressed bitmap image files: a fixed little-endian
//! header, a single color plane, 24- or 32-bit pixels, rows stored
//! bottom-up or top-down by the sign of the height field. The output is
//! one canonical 4-bytes-per-pixel buffer in BGRA order, top-down.

use vstd::prelude::*;

verus! {

/// Why a byte buffer is not a decodable bitmap image.
#[derive(Clone, Copy, Debug, PartialEq, Eq, Structural)]
pub enum BmpError {
    /// Shorter than one fixed header.
    TooSmall,
    /// The two magic bytes are missing.
    BadMagic,
    /// An information header older than the supported layout.
    UnsupportedHeader,
    /// A zero width or height.
    InvalidDimensions,
    /// More than one color plane.
    InvalidPlanes,
    /// A compressed pixel encoding.
    UnsupportedCompression,
    /// A pixel-data offset outside the buffer.
    InvalidDataOffset,
    /// A bit depth other than 24 or 32.
    UnsupportedBitDepth,
    /// The padded row size does not fit the size field's range.
    RowOverflow,
    /// The total pixel-data size does not fit the size field's range.
    SizeOverflow,
    /// Fewer pixel bytes than the dimensions require.
    TruncatedData,
}

/// The little-endian 16-bit integer at `off`.
pub open spec fn le16(b: Seq<u8>, off: int) -> int {
    b[off] + 0x100 * b[off + 1]
}

/// The little-endian 32-bit integer at `off`.
pub open spec fn le32(b: Seq<u8>, off: int) -> int {
    b[off] + 0x100 * b[off + 1] + 0x10000 * b[off + 2] + 0x1000000 * b[off + 3]
}

/// The image width recorded in the header.
pub open spec fn bmp_width(b: Seq<u8>) -> int {
    le32(b, 18)
}

/// The signed height recorded in the header: negative means rows are
/// stored top-down.
pub open spec fn bmp_height_signed(b: Seq<u8>) -> int {
    if le32(b, 22) >= 0x8000_0000 {
        le32(b, 22) - 0x1_0000_0000
    } else {
        le32(b, 22)
    }
}

/// The image height: the magnitude of the signed height field.
pub open spec fn bmp_height(b: Seq<u8>) -> int {
    iabs2(bmp_height_signed(b))
}

/// Absolute value.
pub open spec fn iabs2(v: int) -> int {
    if v >= 0 {
        v
    } else {
        -v
    }
}

/// Whether the rows are stored top-down.
pub open spec fn bmp_top_down(b: Seq<u8>) -> bool {
    bmp_height_signed(b) < 0
}

/// The offset of the pixel data.
pub open spec fn bmp_data_offset(b: Seq<u8>) -> int {
    le32(b, 10)
}

/// The stored size of one pixel row: 24-bit rows are padded to four
/// bytes, 32-bit rows are exact.
pub open spec fn bmp_row_size(b: Seq<u8>) -> int {
    if le16(b, 28) == 24 {
        ((bmp_width(b) * 3 + 3) / 4) * 4
    } else {
        bmp_width(b) * 4
    }
}

/// The whole decision chain of the decoder: the first failed check wins;
/// `None` means the buffer decodes.
pub open spec fn bmp_check(b: Seq<u8>) -> Option<BmpError> {
    if b.len() < 54 {
        Some(BmpError::TooSmall)
    } else if !(b[0] == 66 && b[1] == 77) {
        Some(BmpError::BadMagic)
    } else if le32(b, 14) < 40 {
        Some(BmpError::UnsupportedHeader)
    } else if bmp_width(b) == 0 || bmp_height(b) == 0 {
        Some(BmpError::InvalidDimensions)
    } else if le16(b, 26) != 1 {
        Some(BmpError::InvalidPlanes)
    } else if le32(b, 30) != 0 && le32(b, 30) != 3 {
        Some(BmpError::UnsupportedCompression)
    } else if bmp_data_offset(b) >= b.len() {
        Some(BmpError::InvalidDataOffset)
    } else if le16(b, 28) == 24 {
        if bmp_width(b) * 3 > 0xffff_ffff || bmp_width(b) * 3 + 3 > 0xffff_ffff {
            Some(BmpError::RowOverflow)
        } else if bmp_row_size(b) * bmp_height(b) > 0xffff_ffff {
            Some(BmpError::SizeOverflow)
        } else if b.len() - bmp_data_offset(b) < bmp_row_size(b) * bmp_height(b) {
            Some(BmpError::TruncatedData)
        } else {
            None
        }
    } else if le16(b, 28) == 32 {
        if bmp_width(b) * 4 > 0xffff_ffff {
            Some(BmpError::RowOverflow)
        } else if bmp_row_size(b) * bmp_height(b) > 0xffff_ffff {
            Some(BmpError::SizeOverflow)
        } else if b.len() - bmp_data_offset(b) < bmp_row_size(b) * bmp_height(b) {
            Some(BmpError::TruncatedData)
        } else {
            None
        }
    } else {
        Some(BmpError::UnsupportedBitDepth)
    }
}

/// Byte `c` of output pixel `(x, y)`, in canonical BGRA order with rows
/// top-down: read from the stored row (flipped when the file is
/// bottom-up); a 24-bit source has no alpha byte, so its alpha is 255.
pub open spec fn bmp_pixel_byte(b: Seq<u8>, y: int, x: int, c: int) -> u8 {
    let h = bmp_height(b);
    let src_y = if bmp_top_down(b) {
        y
    } else {
        h - 1 - y
    };
    let row_off = bmp_data_offset(b) + src_y * bmp_row_size(b);
    if le16(b, 28) == 24 {
        if c == 3 {
            255
        } else {
            b[row_off + x * 3 + c]
        }
    } else {
        b[row_off + x * 4 + c]
    }
}

/// A decoded image: dimensions plus one canonical top-down BGRA buffer.
#[derive(Debug)]
pub struct BmpImage {
    pub width: u32,
    pub height: u32,
    pub data: Vec<u8>,
}

impl BmpImage {
    /// The buffer holds exactly four bytes for every pixel.
    pub open spec fn wf(self) -> bool {
        self.data@.len() == 4 * self.width * self.height
    }

    /// Decodes an uncompressed bitmap image. Every malformed input is
    /// rejected with the named reason of the first failed check; a
    /// successful decode returns the dimensions from the header and one
    /// BGRA byte for byte of the stored pixels, rows top-down.
    pub fn from_bytes(bytes: &[u8]) -> (r: Result<BmpImage, BmpError>)
        ensures
            match r {
                Ok(img) => {
                    &&& bmp_check(bytes@) is None
                    &&& img.wf()
                    &&& img.width as int == bmp_width(bytes@)
                    &&& img.height as int == bmp_height(bytes@)
                    &&& forall|y: int, x: int, c: int|
                        0 <= y < img.height && 0 <= x < img.width && 0 <= c < 4
                            ==> img.data@[4 * (y * img.width + x) + c] == bmp_pixel_byte(
                            bytes@,
                            y,
                            x,
                            c,
                        )
                },
                Err(e) => bmp_check(bytes@) == Some(e),
            },
    {
        if bytes.len() < 54 {
            return Err(BmpError::TooSmall);
        }
        if !(bytes[0] == 66 && bytes[1] == 77) {
            return Err(BmpError::BadMagic);
        }
        let dib = read_u32_le(bytes, 14);
        if dib < 40 {
            return Err(BmpError::UnsupportedHeader);
        }
        let width = read_u32_le(bytes, 18);
        let height_raw = read_u32_le(bytes, 22);
        let top_down = height_raw >= 0x8000_0000;
        let height: u32 = if top_down {
            // The magnitude of the negative signed height.
            proof {
                assert(iabs2(height_raw - 0x1_0000_0000) == 0x1_0000_0000 - height_raw);
            }
            (0x1_0000_0000u64 - height_raw as u64) as u32
        } else {
            height_raw
        };
        if width == 0 || height == 0 {
            return Err(BmpError::InvalidDimensions);
        }
        let planes = read_u16_le(bytes, 26);
        if planes != 1 {
            return Err(BmpError::InvalidPlanes);
        }
        let bpp = read_u16_le(bytes, 28);
        let compression = read_u32_le(bytes, 30);
        if compression != 0 && compression != 3 {
            return Err(BmpError::UnsupportedCompression);
        }
        let data_offset = read_u32_le(bytes, 10);
        if data_offset as usize >= bytes.len() {
            return Err(BmpError::InvalidDataOffset);
        }
        if bpp != 24 && bpp != 32 {
            return Err(BmpError::UnsupportedBitDepth);
        }
        let row_size: u32 = if bpp == 24 {
            let w3 = width as u64 * 3;
            if w3 > 0xffff_ffff || w3 + 3 > 0xffff_ffff {
                return Err(BmpError::RowOverflow);
            }
            (((w3 + 3) / 4) * 4) as u32
        } else {
            let w4 = width as u64 * 4;
            if w4 > 0xffff_ffff {
                return Err(BmpError::RowOverflow);
            }
            w4 as u32
        };
        proof {
            assert(row_size as int * height as int <= 0xffff_ffffi64 * 0xffff_ffffi64)
                by (nonlinear_arith)
                requires
                    0 <= row_size as int <= 0xffff_ffff,
                    0 <= height as int <= 0xffff_ffff,
            ;
        }
        let total = row_size as u64 * height as u64;
        if total > 0xffff_ffff {
            return Err(BmpError::SizeOverflow);
        }
        if ((bytes.len() - data_offset as usize) as u64) < total {
            return Err(BmpError::TruncatedData);
        }
        let data = copy_pixels(bytes, width, height, data_offset, row_size, bpp, top_down);
        proof {
            assert(width as int == bmp_width(bytes@));
            assert(height as int == bmp_height(bytes@));
            assert(top_down == bmp_top_down(bytes@));
            assert(row_size as int == bmp_row_size(bytes@));
            assert forall|y: int, x: int, c: int|
                0 <= y < height && 0 <= x < width && 0 <= c < 4 implies pixel_byte_at(
                bytes@,
                data_offset as int,
                row_size as int,
                bpp as int,
                height as int,
                top_down,
                y,
                x,
                c,
            ) == bmp_pixel_byte(bytes@, y, x, c) by {}
        }
        Ok(BmpImage { width, height, data })
    }
}

/// The little-endian 16-bit field at `off`.
fn read_u16_le(bytes: &[u8], off: usize) -> (r: u32)
    requires
        off + 2 <= bytes@.len(),
    ensures
        r as int == le16(bytes@, off as int),
{
    bytes[off] as u32 + 0x100 * (bytes[off + 1] as u32)
}

/// The little-endian 32-bit field at `off`.
fn read_u32_le(bytes: &[u8], off: usize) -> (r: u32)
    requires
        off + 4 <= bytes@.len(),
    ensures
        r as int == le32(bytes@, off as int),
{
    bytes[off] as u32 + 0x100 * (bytes[off + 1] as u32) + 0x10000 * (bytes[off + 2] as u32)
        + 0x1000000 * (bytes[off + 3] as u32)
}

/// Two row-major pixel positions with equal flat indices are the same.
proof fn lemma_pix_unique(w: int, y1: int, x1: int, y2: int, x2: int)
    requires
        w > 0,
        0 <= x1 < w,
        0 <= x2 < w,
        0 <= y1,
        0 <= y2,
        y1 * w + x1 == y2 * w + x2,
    ensures
        y1 == y2,
        x1 == x2,
{
    vstd::arithmetic::div_mod::lemma_fundamental_div_mod_converse(y1 * w + x1, w, y1, x1);
    vstd::arithmetic::div_mod::lemma_fundamental_div_mod_converse(y2 * w + x2, w, y2, x2);
}

/// Every byte a pixel copy reads lies inside the checked data area.
proof fn lemma_src_in_range(w: int, h: int, row_size: int, bpp_bytes: int, sy: int, x: int, c: int)
    requires
        w > 0,
        h > 0,
        0 <= sy < h,
        0 <= x < w,
        0 <= c < bpp_bytes,
        bpp_bytes == 3 || bpp_bytes == 4,
        row_size >= w * bpp_bytes,
    ensures
        0 <= sy * row_size + x * bpp_bytes + c < row_size * h,
{
    assert(x * bpp_bytes + c < w * bpp_bytes) by (nonlinear_arith)
        requires
            0 <= x < w,
            0 <= c < bpp_bytes,
            bpp_bytes > 0,
    ;
    assert(sy * row_size + row_size <= h * row_size) by (nonlinear_arith)
        requires
            0 <= sy < h,
            row_size >= 0,
    ;
    assert(sy * row_size >= 0) by (nonlinear_arith)
        requires
            sy >= 0,
            row_size >= 0,
    ;
    assert(row_size * h == h * row_size) by (nonlinear_arith);
}

/// The padded 24-bit row size covers three bytes for every pixel.
proof fn lemma_row_size_24(w: int)
    requires
        w > 0,
    ensures
        ((w * 3 + 3) / 4) * 4 >= w * 3,
{
    let n = w * 3 + 3;
    vstd::arithmetic::div_mod::lemma_fundamental_div_mod(n, 4);
    vstd::arithmetic::div_mod::lemma_mod_bound(n, 4);
}

/// Copies the checked pixel area into one canonical top-down BGRA buffer.
fn copy_pixels(
    bytes: &[u8],
    width: u32,
    height: u32,
    data_offset: u32,
    row_size: u32,
    bpp: u32,
    top_down: bool,
) -> (data: Vec<u8>)
    requires
        width > 0,
        height > 0,
        bpp == 24 || bpp == 32,
        bpp == 24 ==> row_size as int == ((width * 3 + 3) / 4) * 4 && width * 3 + 3
            <= 0xffff_ffff,
        bpp == 32 ==> row_size as int == width * 4,
        row_size * height <= 0xffff_ffff,
        (data_offset as int) < bytes@.len(),
        bytes@.len() - data_offset as int >= row_size * height,
    ensures
        data@.len() == 4 * width * height,
        forall|y: int, x: int, c: int|
            0 <= y < height && 0 <= x < width && 0 <= c < 4 ==> data@[4 * (y * width + x) + c]
                == pixel_byte_at(
                bytes@,
                data_offset as int,
                row_size as int,
                bpp as int,
                height as int,
                top_down,
                y,
                x,
                c,
            ),
{
    let ghost b = bytes@;
    let bpp_bytes: u64 = if bpp == 24 {
        3
    } else {
        4
    };
    proof {
        if bpp == 24 {
            lemma_row_size_24(width as int);
        }
        assert(4 * (width as int) * (height as int) <= 4 * (row_size as int) * (height as int))
            by (nonlinear_arith)
            requires
                width as int * 3 <= row_size as int || width as int * 4 <= row_size as int,
                width >= 0,
                height >= 0,
                row_size >= 0,
        ;
        assert(4 * (row_size as int) * (height as int) <= 4 * 0xffff_ffff) by (nonlinear_arith)
            requires
                0 <= row_size as int * height as int <= 0xffff_ffff,
                row_size >= 0,
                height >= 0,
        ;
    }
    let blen = bytes.len();
    let mut data: Vec<u8> = Vec::new();
    let mut y: u32 = 0;
    proof {
        assert(0int * (width as int) == 0);
    }
    while y < height
        invariant
            width > 0,
            height > 0,
            bpp == 24 || bpp == 32,
            bpp_bytes == (if bpp == 24 {
                3int
            } else {
                4int
            }),
            bpp == 24 ==> row_size as int >= width * 3,
            bpp == 32 ==> row_size as int == width * 4,
            row_size * height <= 0xffff_ffff,
            (data_offset as int) < b.len(),
            b.len() - data_offset as int >= row_size * height,
            b == bytes@,
            0 <= y <= height,
            data@.len() == 4 * ((y as int) * (width as int)),
            forall|yy: int, xx: int, cc: int|
                0 <= yy < y && 0 <= xx < width && 0 <= cc < 4 ==> data@[4 * (yy * width + xx) + cc]
                    == pixel_byte_at(
                    b,
                    data_offset as int,
                    row_size as int,
                    bpp as int,
                    height as int,
                    top_down,
                    yy,
                    xx,
                    cc,
                ),
        decreases height - y,
    {
        let actual_y: u32 = if top_down {
            y
        } else {
            height - 1 - y
        };
        proof {
            assert(0 <= actual_y as int * row_size as int <= 0xffff_ffff) by (nonlinear_arith)
                requires
                    0 <= actual_y as int,
                    (actual_y as int) < height as int,
                    row_size >= 0,
                    row_size as int * height as int <= 0xffff_ffff,
            ;
        }
        let row_offset: u64 = actual_y as u64 * row_size as u64;
        let mut x: u32 = 0;
        proof {
            assert(4 * (y as int) * (width as int) + 4 * 0 == 4 * ((y as int) * (width as int) + 0))
                by (nonlinear_arith);
        }
        while x < width
            invariant
                width > 0,
                height > 0,
                bpp == 24 || bpp == 32,
                bpp_bytes == (if bpp == 24 {
                    3int
                } else {
                    4int
                }),
                bpp == 24 ==> row_size as int >= width * 3,
                bpp == 32 ==> row_size as int == width * 4,
                row_size * height <= 0xffff_ffff,
                (data_offset as int) < b.len(),
                b.len() - data_offset as int >= row_size * height,
                b == bytes@,
                0 <= y < height,
                0 <= x <= width,
                actual_y as int == (if top_down {
                    y as int
                } else {
                    height - 1 - y
                }),
                row_offset == actual_y as int * row_size as int,
                data@.len() == 4 * ((y as int) * (width as int) + x as int),
                forall|yy: int, xx: int, cc: int|
                    0 <= yy < height && 0 <= xx < width && 0 <= cc < 4 && (yy < y || (yy == y && xx
                        < x)) ==> data@[4 * (yy * width + xx) + cc] == pixel_byte_at(
                        b,
                        data_offset as int,
                        row_size as int,
                        bpp as int,
                        height as int,
                        top_down,
                        yy,
                        xx,
                        cc,
                    ),
            decreases width - x,
        {
            let ghost len0 = data@.len();
            proof {
                lemma_src_in_range(
                    width as int,
                    height as int,
                    row_size as int,
                    bpp_bytes as int,
                    actual_y as int,
                    x as int,
                    0,
                );
                lemma_src_in_range(
                    width as int,
                    height as int,
                    row_size as int,
                    bpp_bytes as int,
                    actual_y as int,
                    x as int,
                    bpp_bytes as int - 1,
                );
            }
            proof {
                assert(0 <= x as int * bpp_bytes as int <= 0xffff_ffffi64 * 4) by (nonlinear_arith)
                    requires
                        0 <= x as int <= 0xffff_ffff,
                        0 <= bpp_bytes as int <= 4,
                ;
            }
            let pixel_offset: u64 = data_offset as u64 + row_offset + x as u64 * bpp_bytes;
            let p0 = bytes[pixel_offset as usize];
            let p1 = bytes[(pixel_offset + 1) as usize];
            let p2 = bytes[(pixel_offset + 2) as usize];
            let p3: u8 = if bpp == 24 {
                255
            } else {
                bytes[(pixel_offset + 3) as usize]
            };
            data.push(p0);
            data.push(p1);
            data.push(p2);
            data.push(p3);
            proof {
                assert(len0 == 4 * ((y as int) * (width as int) + x as int));
                assert forall|yy: int, xx: int, cc: int|
                    0 <= yy < height && 0 <= xx < width && 0 <= cc < 4 && (yy < y || (yy == y && xx
                        < x + 1)) implies data@[4 * (yy * width + xx) + cc] == pixel_byte_at(
                    b,
                    data_offset as int,
                    row_size as int,
                    bpp as int,
                    height as int,
                    top_down,
                    yy,
                    xx,
                    cc,
                ) by {
                    if yy == y && xx == x {
                        assert(4 * (yy * width + xx) + cc == len0 + cc);
                    } else {
                        assert(4 * (yy * width + xx) + cc < len0) by (nonlinear_arith)
                            requires
                                yy < y || (yy == y && xx < x),
                                0 <= yy,
                                0 <= xx < width as int,
                                0 <= cc < 4,
                                0 <= x as int,
                                width > 0,
                                len0 == 4 * ((y as int) * (width as int) + x as int),
                        ;
                    }
                }
                assert(data@.len() == 4 * ((y as int) * (width as int) + x as int + 1));
                assert(4 * ((y as int) * (width as int) + x as int + 1) == 4 * ((y as int) * (
                width as int) + (x as int + 1)));
            }
            x += 1;
        }
        proof {
            assert(4 * ((y as int) * (width as int) + width as int) == 4 * ((y as int + 1) * (
            width as int))) by (nonlinear_arith);
        }
        y += 1;
    }
    proof {
        assert(4 * ((height as int) * (width as int)) == 4 * (width as int) * (height as int))
            by (nonlinear_arith);
    }
    data
}

/// Byte `c` of output pixel `(x, y)` in terms of the checked header
/// fields, before they are folded back into the raw-byte form.
pub open spec fn pixel_byte_at(
    b: Seq<u8>,
    data_offset: int,
    row_size: int,
    bpp: int,
    h: int,
    top_down: bool,
    y: int,
    x: int,
    c: int,
) -> u8 {
    let src_y = if top_down {
        y
    } else {
        h - 1 - y
    };
    let row_off = data_offset + src_y * row_size;
    if bpp == 24 {
        if c == 3 {
            255
        } else {
            b[row_off + x * 3 + c]
        }
    } else {
        b[row_off + x * 4 + c]
    }
}

} // verus!
