use vstd::prelude::*;

use rand::Rng;

verus! {

/// The packed `R8G8B8A8` value of a colour: red in the top byte, alpha in the bottom one.
pub open spec fn rgba_value(r: int, g: int, b: int, a: int) -> int {
    r * 16777216 + g * 65536 + b * 256 + a
}

/// Packs four 8-bit channels into one `u32`, red in the most significant byte.
pub fn pack_rgba(r: u8, g: u8, b: u8, a: u8) -> (c: u32)
    ensures
        c as int == rgba_value(r as int, g as int, b as int, a as int),
{
    (r as u32) * 16777216 + (g as u32) * 65536 + (b as u32) * 256 + (a as u32)
}

/// The 8-bit channel value of `percent` hundredths of full intensity, rounded down.
pub open spec fn percent_channel(percent: int) -> int {
    percent * 255 / 100
}

/// The colour of sky and void, returned for rays that hit nothing.
pub fn background_color() -> (c: u32)
    ensures
        c as int == rgba_value(102, 128, 153, 255),
{
    pack_rgba(102, 128, 153, 255)
}

/// Relies on `rand::Rng::gen_range` on `rand::thread_rng()`: a value drawn from
/// `0..bound`, which must not be empty.
#[verifier::external_body]
fn random_below(bound: u8) -> (r: u8)
    requires
        bound > 0,
    ensures
        r < bound,
{
    rand::thread_rng().gen_range(0..bound)
}

/// A random opaque colour whose red, green and blue channels are each a whole
/// percentage below 100 of full intensity.
pub open spec fn is_random_voxel_color(c: int) -> bool {
    exists|r: int, g: int, b: int|
        0 <= r < 100 && 0 <= g < 100 && 0 <= b < 100 && c == #[trigger] rgba_value(
            percent_channel(r),
            percent_channel(g),
            percent_channel(b),
            255,
        )
}

/// The opaque colour whose red, green and blue channels are `r`, `g` and `b` percent of
/// full intensity, each rounded down to 8 bits.
pub fn percent_color(r: u8, g: u8, b: u8) -> (c: u32)
    requires
        r <= 100,
        g <= 100,
        b <= 100,
    ensures
        c as int == rgba_value(
            percent_channel(r as int),
            percent_channel(g as int),
            percent_channel(b as int),
            255,
        ),
{
    let rc = (r as u32 * 255 / 100) as u8;
    let gc = (g as u32 * 255 / 100) as u8;
    let bc = (b as u32 * 255 / 100) as u8;
    pack_rgba(rc, gc, bc, 255)
}

/// Draws a random opaque voxel colour.
pub fn random_voxel_color() -> (c: u32)
    ensures
        is_random_voxel_color(c as int),
{
    let r = random_below(100);
    let g = random_below(100);
    let b = random_below(100);
    percent_color(r, g, b)
}

/// The percentage that coordinate `v` contributes to a column colour.
pub open spec fn coordinate_percent(v: int) -> int {
    (v + 0x8000_0000) % 100
}

/// A colour that depends only on the world column `(x, y)`: red and green follow the
/// coordinates modulo 100 percent, blue is fixed at 60 percent. Chunks coloured this way
/// are reproducible.
pub fn column_color(x: i32, y: i32) -> (c: u32)
    ensures
        c as int == rgba_value(
            percent_channel(coordinate_percent(x as int)),
            percent_channel(coordinate_percent(y as int)),
            percent_channel(60),
            255,
        ),
{
    let px = ((x as i64 + 0x8000_0000) as u64 % 100) as u8;
    let py = ((y as i64 + 0x8000_0000) as u64 % 100) as u8;
    percent_color(px, py, 60)
}

} // verus!
