use vstd::prelude::*;

verus! {

/// A color as three 8-bit channel intensities.
#[derive(Clone, Copy, Debug, PartialEq, Eq, Structural)]
pub struct Color {
    pub r: u8,
    pub g: u8,
    pub b: u8,
}

impl Color {
    pub fn new(r: u8, g: u8, b: u8) -> (c: Color)
        ensures
            c.r == r,
            c.g == g,
            c.b == b,
    {
        Color { r, g, b }
    }
}

impl Default for Color {
    fn default() -> (c: Color)
        ensures
            c == (Color { r: 0, g: 0, b: 0 }),
    {
        Color { r: 0, g: 0, b: 0 }
    }
}

pub open spec fn abs_int(x: int) -> int {
    if x < 0 {
        -x
    } else {
        x
    }
}

/// Sum of the absolute per-channel differences (L1 distance in RGB).
pub open spec fn spec_color_diff(a: Color, b: Color) -> int {
    abs_int(a.r - b.r) + abs_int(a.g - b.g) + abs_int(a.b - b.b)
}

/// A channel with its `shift` low bits dropped.
pub open spec fn quantize(c: u8, shift: int) -> int {
    (c >> (shift as u8)) as int
}

/// Two colors are the same when every quantized channel differs by at most `thres`.
pub open spec fn spec_color_same(a: Color, b: Color, shift: int, thres: int) -> bool {
    &&& abs_int(quantize(a.r, shift) - quantize(b.r, shift)) <= thres
    &&& abs_int(quantize(a.g, shift) - quantize(b.g, shift)) <= thres
    &&& abs_int(quantize(a.b, shift) - quantize(b.b, shift)) <= thres
}

/// A quantization shift leaves at least one significant bit of a channel.
pub open spec fn valid_shift(shift: int) -> bool {
    0 <= shift < 8
}

fn abs_diff_u8(x: u8, y: u8) -> (r: i32)
    ensures
        r == abs_int(x - y),
        0 <= r <= 255,
{
    if x >= y {
        (x - y) as i32
    } else {
        (y - x) as i32
    }
}

/// The raw color metric: L1 distance in RGB space, in `0..=765`.
pub fn color_diff(a: Color, b: Color) -> (r: i32)
    ensures
        r == spec_color_diff(a, b),
        0 <= r <= 765,
{
    abs_diff_u8(a.r, b.r) + abs_diff_u8(a.g, b.g) + abs_diff_u8(a.b, b.b)
}

/// The quantized same-color test.
pub fn color_same(a: Color, b: Color, shift: i32, thres: i32) -> (r: bool)
    requires
        valid_shift(shift as int),
    ensures
        r == spec_color_same(a, b, shift as int, thres as int),
{
    let s = shift as u8;
    let dr = abs_diff_u8(a.r >> s, b.r >> s);
    let dg = abs_diff_u8(a.g >> s, b.g >> s);
    let db = abs_diff_u8(a.b >> s, b.b >> s);
    dr <= thres && dg <= thres && db <= thres
}

/// The same-color test does not depend on the order of its arguments.
pub proof fn lemma_color_same_symmetric(a: Color, b: Color, shift: int, thres: int)
    requires
        valid_shift(shift),
    ensures
        spec_color_same(a, b, shift, thres) == spec_color_same(b, a, shift, thres),
{
}

} // verus!
