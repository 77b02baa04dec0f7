use vstd::prelude::*;

verus! {

/// `n` rounded up to a multiple of 256 (GPU copies need rows aligned so).
pub fn round_to_next_multiple_of_256(n: u32) -> (r: u32)
    requires
        n <= u32::MAX - 255,
    ensures
        r % 256 == 0,
        n <= r < n + 256,
{
    let m: u32 = n + 255;
    let r = m & !255u32;
    assert(r == m & !255u32 && m == n + 255 ==> r % 256 == 0 && n <= r && r < n + 256) by (bit_vector);
    r
}

/// Bytes per row of the picking read-back buffer: four bytes per pixel of a
/// row padded to a multiple of 256 pixels.
pub fn picking_bytes_per_row(width: u32) -> (r: u32)
    requires
        width <= u32::MAX - 255,
        (width + 255) / 256 * 256 * 4 <= u32::MAX,
    ensures
        r == (width + 255) / 256 * 256 * 4,
{
    let padded = round_to_next_multiple_of_256(width);
    assert(padded == (width + 255) / 256 * 256) by (nonlinear_arith)
        requires padded % 256 == 0, width <= padded < width + 256;
    padded * 4
}

/// Size in bytes of the picking read-back buffer for a `width` x `height`
/// target.
pub fn picking_buffer_size(width: u32, height: u32) -> (r: u64)
    requires
        width <= u32::MAX - 255,
        (width + 255) / 256 * 256 * height * 4 <= u32::MAX,
    ensures
        r == (width + 255) / 256 * 256 * height * 4,
{
    let padded = round_to_next_multiple_of_256(width);
    assert(padded == (width + 255) / 256 * 256) by (nonlinear_arith)
        requires padded % 256 == 0, width <= padded < width + 256;
    assert(padded * height <= padded * height * 4) by (nonlinear_arith);
    (padded * height * 4) as u64
}

/// The mesh id read back for the pixel at (`x`, `y`): the four bytes at
/// index `y * width + x` of the read-back buffer, little-endian.
pub fn picked_id(pixels: &[u8], width: u32, x: u32, y: u32) -> (r: u32)
    requires
        y * width + x + 3 < pixels@.len(),
        y * width + x + 3 <= u32::MAX,
    ensures
        ({
            let i = y * width + x;
            r == pixels@[i] + pixels@[i + 1] * 0x100 + pixels@[i + 2] * 0x1_0000 + pixels@[i + 3] * 0x100_0000
        }),
{
    assert(y * width <= y * width + x) by (nonlinear_arith);
    let i = (y * width + x) as usize;
    let b0 = pixels[i] as u32;
    let b1 = pixels[i + 1] as u32;
    let b2 = pixels[i + 2] as u32;
    let b3 = pixels[i + 3] as u32;
    let r = b0 | (b1 << 8u32) | (b2 << 16u32) | (b3 << 24u32);
    assert(r == b0 | (b1 << 8u32) | (b2 << 16u32) | (b3 << 24u32) && b0 < 256 && b1 < 256 && b2 < 256 && b3 < 256
        ==> r == b0 + b1 * 0x100 + b2 * 0x1_0000 + b3 * 0x100_0000) by (bit_vector);
    r
}

/// The outline setting handed to the outline shader: the colour's red,
/// green and blue bytes followed by the width, most significant first.
pub fn outline_value(outline_width: u8, outline_color: [u8; 3]) -> (r: u32)
    ensures
        r == outline_color[0] * 0x100_0000 + outline_color[1] * 0x1_0000 + outline_color[2] * 0x100 + outline_width,
{
    let c0 = outline_color[0] as u32;
    let c1 = outline_color[1] as u32;
    let c2 = outline_color[2] as u32;
    let w = outline_width as u32;
    let r = (c0 << 24u32) | (c1 << 16u32) | (c2 << 8u32) | w;
    assert(r == (c0 << 24u32) | (c1 << 16u32) | (c2 << 8u32) | w && c0 < 256 && c1 < 256 && c2 < 256 && w < 256
        ==> r == c0 * 0x100_0000 + c1 * 0x1_0000 + c2 * 0x100 + w) by (bit_vector);
    r
}

} // verus!
