//! Eight-bit colours and their place in a byte buffer.

use vstd::prelude::*;

verus! {

/// Bytes that one pixel takes in a buffer: red, green, blue, in that order.
pub const CHANNELS: usize = 3;

/// A colour of three eight-bit channels.
#[derive(Clone, Copy, Debug, PartialEq, Eq, Structural)]
pub struct Rgb {
    pub r: u8,
    pub g: u8,
    pub b: u8,
}

/// The colour whose three channels start at byte `at` of `bytes`.
pub open spec fn channels_at(bytes: Seq<u8>, at: int) -> Rgb {
    Rgb { r: bytes[at], g: bytes[at + 1], b: bytes[at + 2] }
}

/// `bytes` with the three channels of `color` written from byte `at` on.
pub open spec fn with_channels_at(bytes: Seq<u8>, at: int, color: Rgb) -> Seq<u8> {
    bytes.update(at, color.r).update(at + 1, color.g).update(at + 2, color.b)
}

/// Reads the colour stored from byte `at` on.
pub fn load(bytes: &Vec<u8>, at: usize) -> (color: Rgb)
    requires
        at + CHANNELS <= bytes.len(),
    ensures
        color == channels_at(bytes@, at as int),
{
    Rgb { r: bytes[at], g: bytes[at + 1], b: bytes[at + 2] }
}

/// Writes `color` from byte `at` on and leaves every other byte as it was.
pub fn store(bytes: &mut Vec<u8>, at: usize, color: Rgb)
    requires
        at + CHANNELS <= old(bytes).len(),
    ensures
        final(bytes)@ == with_channels_at(old(bytes)@, at as int, color),
    no_unwind
{
    bytes[at] = color.r;
    bytes[at + 1] = color.g;
    bytes[at + 2] = color.b;
}

/// What was written at one place is read back there, and a write does not
/// reach a pixel that starts at least three bytes away.
pub proof fn lemma_store_then_load(bytes: Seq<u8>, at: int, color: Rgb, other: int)
    requires
        0 <= at,
        at + CHANNELS <= bytes.len(),
        0 <= other,
        other + CHANNELS <= bytes.len(),
    ensures
        with_channels_at(bytes, at, color).len() == bytes.len(),
        channels_at(with_channels_at(bytes, at, color), at) == color,
        other + CHANNELS <= at || at + CHANNELS <= other ==> channels_at(
            with_channels_at(bytes, at, color),
            other,
        ) == channels_at(bytes, other),
{
}

/// Byte at which the pixel in row `row` and column `col` starts, in a buffer
/// that holds rows of `stride` pixels one after another.
pub open spec fn pixel_offset(stride: int, row: int, col: int) -> int {
    (row * stride + col) * CHANNELS
}

/// Computes `pixel_offset`.
pub fn offset_in_rows(stride: usize, row: usize, col: usize) -> (at: usize)
    requires
        pixel_offset(stride as int, row as int, col as int) <= usize::MAX,
    ensures
        at == pixel_offset(stride as int, row as int, col as int),
{
    assert(0 <= row * stride) by (nonlinear_arith);
    (row * stride + col) * CHANNELS
}

/// A pixel inside a buffer of `rows` rows lies wholly inside it.
pub proof fn lemma_pixel_offset_bounds(stride: int, rows: int, row: int, col: int)
    requires
        0 <= row < rows,
        0 <= col < stride,
    ensures
        0 <= pixel_offset(stride, row, col),
        pixel_offset(stride, row, col) + CHANNELS <= rows * stride * CHANNELS,
{
    assert(0 <= row * stride && row * stride + stride <= rows * stride) by (nonlinear_arith)
        requires
            0 <= row < rows,
            0 < stride,
    ;
}

/// Two different pixels of a buffer share no byte.
pub proof fn lemma_pixel_offsets_apart(stride: int, row: int, col: int, row2: int, col2: int)
    requires
        0 <= col < stride,
        0 <= col2 < stride,
        row != row2 || col != col2,
    ensures
        pixel_offset(stride, row, col) + CHANNELS <= pixel_offset(stride, row2, col2)
            || pixel_offset(stride, row2, col2) + CHANNELS <= pixel_offset(stride, row, col),
{
    if row < row2 {
        assert(row * stride + stride <= row2 * stride) by (nonlinear_arith)
            requires
                row < row2,
                0 < stride,
        ;
    } else if row2 < row {
        assert(row2 * stride + stride <= row * stride) by (nonlinear_arith)
            requires
                row2 < row,
                0 < stride,
        ;
    }
}

} // verus!
