//! The encoder for uncompressed bitmap images.
//!
//! An image is a 54-byte header followed by the pixels, four bytes each,
//! row by row from the bottom row of the picture to the top one.

use vstd::prelude::*;
use crate::color::Color;
use crate::geometry::lemma_row_major;
use crate::surface::Surface;

verus! {

/// The size of the header in bytes, which is also the offset of the first
/// pixel in the file.
pub const BMP_HEADER_SIZE: usize = 54;

/// The number of bits stored for each pixel.
pub const BMP_BITS_PER_PIXEL: usize = 32;

/// The four bytes of `v`, least significant first.
pub open spec fn le_u32(v: int) -> Seq<u8> {
    seq![
        (v % 256) as u8,
        ((v / 256) % 256) as u8,
        ((v / 65536) % 256) as u8,
        ((v / 16777216) % 256) as u8,
    ]
}

/// The two bytes of `v`, least significant first.
pub open spec fn le_u16(v: int) -> Seq<u8> {
    seq![(v % 256) as u8, ((v / 256) % 256) as u8]
}

/// `count` zero bytes.
pub open spec fn zeros(count: nat) -> Seq<u8> {
    Seq::new(count, |i: int| 0u8)
}

/// The header of a `width` x `height` image: the signature `BM`, the size
/// of the file, four reserved bytes, the offset of the pixels, the size of
/// the information block (40), width, height, one plane, 32 bits per pixel,
/// and 24 zero bytes that stand for no compression and default resolution.
pub open spec fn bmp_header(width: int, height: int) -> Seq<u8> {
    seq![0x42u8, 0x4Du8] + le_u32(54 + 4 * (width * height)) + zeros(4) + le_u32(54) + le_u32(40)
        + le_u32(width) + le_u32(height) + le_u16(1) + le_u16(32) + zeros(24)
}

/// Byte `k` of a stored pixel: blue, green, red, and a zero alpha byte.
pub open spec fn color_byte(c: Color, k: int) -> u8 {
    if k == 0 {
        c.b
    } else if k == 1 {
        c.g
    } else if k == 2 {
        c.r
    } else {
        0
    }
}

/// The pixel bytes of a `width` x `height` image whose colors `buffer`
/// holds row by row from the top: byte `i` belongs to stored pixel `i / 4`,
/// stored pixels fill the rows from left to right, and stored row `r` is
/// row `height - 1 - r` of the picture. A row takes `4 * width` bytes, so
/// it ends on a four-byte boundary without padding.
pub open spec fn bmp_pixel_data(buffer: Seq<Color>, width: int, height: int) -> Seq<u8> {
    Seq::new(
        (4 * (width * height)) as nat,
        |i: int|
            color_byte(
                buffer[(height - 1 - (i / 4) / width) * width + (i / 4) % width],
                i % 4,
            ),
    )
}

/// The whole image file.
pub open spec fn bmp_file(buffer: Seq<Color>, width: int, height: int) -> Seq<u8> {
    bmp_header(width, height) + bmp_pixel_data(buffer, width, height)
}

/// The image file of a surface.
pub open spec fn bmp_image(surface: Surface) -> Seq<u8> {
    bmp_file(surface.row_major(), surface.width, surface.height)
}

fn push_u32_le(out: &mut Vec<u8>, v: u32)
    ensures
        final(out)@ == old(out)@ + le_u32(v as int),
{
    out.push((v % 256) as u8);
    out.push(((v / 256) % 256) as u8);
    out.push(((v / 65536) % 256) as u8);
    out.push(((v / 16777216) % 256) as u8);
    assert(out@ =~= old(out)@ + le_u32(v as int));
}

fn push_u16_le(out: &mut Vec<u8>, v: u16)
    ensures
        final(out)@ == old(out)@ + le_u16(v as int),
{
    out.push((v % 256) as u8);
    out.push(((v / 256) % 256) as u8);
    assert(out@ =~= old(out)@ + le_u16(v as int));
}

fn push_zeros(out: &mut Vec<u8>, count: usize)
    ensures
        final(out)@ == old(out)@ + zeros(count as nat),
{
    let mut i: usize = 0;
    assert(out@ =~= old(out)@ + zeros(0));
    while i < count
        invariant
            i <= count,
            out@ == old(out)@ + zeros(i as nat),
        decreases count - i,
    {
        out.push(0u8);
        i += 1;
        assert(out@ =~= old(out)@ + zeros(i as nat));
    }
}

/// Appends the header of a `width` x `height` image to `out`.
pub fn write_bmp_header(out: &mut Vec<u8>, width: u32, height: u32)
    requires
        54 + 4 * (width * height) <= u32::MAX,
    ensures
        final(out)@ == old(out)@ + bmp_header(width as int, height as int),
{
    assert(0 <= width * height) by (nonlinear_arith)
        requires
            0 <= width,
            0 <= height,
    ;
    let file_size: u32 = BMP_HEADER_SIZE as u32 + width * height * 4;
    out.push(0x42u8);
    out.push(0x4Du8);
    push_u32_le(out, file_size);
    push_zeros(out, 4);
    push_u32_le(out, BMP_HEADER_SIZE as u32);
    push_u32_le(out, 40u32);
    push_u32_le(out, width);
    push_u32_le(out, height);
    push_u16_le(out, 1u16);
    push_u16_le(out, BMP_BITS_PER_PIXEL as u16);
    push_zeros(out, 24);
    assert(out@ =~= old(out)@ + bmp_header(width as int, height as int));
}

/// Where stored pixel `cell` of a `width` x `height` image comes from: with
/// `cell = r * width + x` for a stored row `r` and a column `x`, it is the
/// pixel in column `x` of row `height - 1 - r`.
proof fn lemma_stored_pixel(buffer: Seq<Color>, width: int, height: int, r: int, x: int, k: int)
    requires
        0 <= r < height,
        0 <= x < width,
        0 <= k < 4,
    ensures
        0 <= 4 * (r * width + x) + k < 4 * (width * height),
        bmp_pixel_data(buffer, width, height)[4 * (r * width + x) + k] == color_byte(
            buffer[(height - 1 - r) * width + x],
            k,
        ),
{
    lemma_row_major(width, height, x, r);
    let i = 4 * (r * width + x) + k;
    assert(i / 4 == r * width + x);
    assert(i % 4 == k);
}

/// Appends the pixel bytes of a `width` x `height` image to `out`, bottom
/// row first. `buffer` holds the colors row by row from the top.
pub fn write_pixel_data(out: &mut Vec<u8>, buffer: &[Color], width: u32, height: u32)
    requires
        buffer@.len() >= width * height,
    ensures
        final(out)@ == old(out)@ + bmp_pixel_data(buffer@, width as int, height as int),
{
    let ghost data = bmp_pixel_data(buffer@, width as int, height as int);
    let available = buffer.len();
    let row_bytes: u64 = width as u64 * 4;
    let padding = (4 - row_bytes % 4) % 4;
    let mut r: u32 = 0;
    assert(0 * width == 0);
    assert(out@ =~= old(out)@ + data.take(0));
    while r < height
        invariant
            r <= height,
            padding == 0,
            available == buffer@.len(),
            buffer@.len() >= width * height,
            data == bmp_pixel_data(buffer@, width as int, height as int),
            4 * (r * width) <= data.len(),
            out@ == old(out)@ + data.take(4 * (r * width)),
        decreases height - r,
    {
        let y = height - 1 - r;
        let mut x: u32 = 0;
        while x < width
            invariant
                x <= width,
                r < height,
                y == height - 1 - r,
                available == buffer@.len(),
                buffer@.len() >= width * height,
                data == bmp_pixel_data(buffer@, width as int, height as int),
                4 * (r * width + x) <= data.len(),
                out@ == old(out)@ + data.take(4 * (r * width + x)),
            decreases width - x,
        {
            proof {
                lemma_row_major(width as int, height as int, x as int, y as int);
                lemma_stored_pixel(buffer@, width as int, height as int, r as int, x as int, 0);
                lemma_stored_pixel(buffer@, width as int, height as int, r as int, x as int, 1);
                lemma_stored_pixel(buffer@, width as int, height as int, r as int, x as int, 2);
                lemma_stored_pixel(buffer@, width as int, height as int, r as int, x as int, 3);
            }
            let idx = y as usize * width as usize + x as usize;
            let color = &buffer[idx];
            let ghost before = out@;
            out.push(color.b);
            out.push(color.g);
            out.push(color.r);
            out.push(0u8);
            proof {
                let done = 4 * (r * width + x);
                assert(out@ =~= before.push(data[done]).push(data[done + 1]).push(
                    data[done + 2],
                ).push(data[done + 3]));
                assert(out@ =~= old(out)@ + data.take(done + 4));
            }
            x += 1;
        }
        push_zeros(out, padding as usize);
        proof {
            assert((r + 1) * width == r * width + width) by (nonlinear_arith);
            assert(out@ =~= old(out)@ + data.take(4 * ((r + 1) * width)));
        }
        r += 1;
    }
    proof {
        assert(r * width == width * height) by (nonlinear_arith)
            requires
                r == height,
        ;
        assert(data.take(data.len() as int) =~= data);
    }
}

/// Encodes a `width` x `height` image whose colors `buffer` holds row by
/// row from the top.
pub fn encode_bmp(buffer: &[Color], width: u32, height: u32) -> (bytes: Vec<u8>)
    requires
        54 + 4 * (width * height) <= u32::MAX,
        buffer@.len() >= width * height,
    ensures
        bytes@ == bmp_file(buffer@, width as int, height as int),
{
    let mut bytes: Vec<u8> = Vec::new();
    write_bmp_header(&mut bytes, width, height);
    write_pixel_data(&mut bytes, buffer, width, height);
    assert(bytes@ =~= bmp_file(buffer@, width as int, height as int));
    bytes
}

/// The image has the size that its header announces, and the four bytes
/// of pixel `(x, y)` stand `height - 1 - y` rows of `4 * width` bytes and
/// `x` pixels of four bytes behind the header: reading them back gives the
/// color that the surface holds there.
pub proof fn lemma_image_holds_pixels(surface: Surface, x: int, y: int, k: int)
    requires
        0 <= surface.width,
        0 <= surface.height,
        surface.contains(x, y),
        0 <= k < 4,
    ensures
        bmp_image(surface).len() == 54 + 4 * (surface.width * surface.height),
        bmp_image(surface)[54 + 4 * ((surface.height - 1 - y) * surface.width + x) + k]
            == color_byte(surface.pixel(x, y), k),
{
    let w = surface.width;
    let h = surface.height;
    assert(0 <= w * h) by (nonlinear_arith)
        requires
            0 <= w,
            0 <= h,
    ;
    assert(bmp_header(w, h).len() == 54);
    lemma_stored_pixel(surface.row_major(), w, h, h - 1 - y, x, k);
    lemma_row_major(w, h, x, y);
}

} // verus!
