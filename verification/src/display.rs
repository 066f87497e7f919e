//! What the front end draws from raw device data: the device's
//! monochrome display from its GDDRAM, and the colour each allocation
//! owner gets in the build's memory view.

use vstd::prelude::*;

use crate::text::str_eq;

verus! {

// ── The device display ───────────────────────────────────────────────

/// Columns of the device display.
pub const DISPLAY_WIDTH: usize = 128;

/// Rows of the device display.
pub const DISPLAY_HEIGHT: usize = 64;

/// Byte `i` of a GDDRAM dump; a dump that stops short reads as zeros.
pub open spec fn gddram_byte(data: Seq<u8>, i: int) -> u8 {
    if 0 <= i < data.len() {
        data[i]
    } else {
        0
    }
}

/// Pixel `(x, y)` is lit: GDDRAM holds the display in pages of eight rows,
/// one byte per column, the top row in bit 0.
pub open spec fn pixel_lit(data: Seq<u8>, x: int, y: int) -> bool {
    (gddram_byte(data, (y / 8) * 128 + x) >> ((y % 8) as u8)) & 1u8 == 1u8
}

/// The display's pixels, row by row from the top: `true` where lit.
pub fn gddram_pixels(data: &[u8]) -> (px: Vec<bool>)
    ensures
        px@.len() == DISPLAY_WIDTH * DISPLAY_HEIGHT,
        forall|x: int, y: int|
            0 <= x < 128 && 0 <= y < 64 ==> #[trigger] px@[y * 128 + x] == pixel_lit(data@, x, y),
{
    let mut px: Vec<bool> = Vec::new();
    let mut j: usize = 0;
    while j < DISPLAY_WIDTH * DISPLAY_HEIGHT
        invariant
            j <= 8192,
            px@.len() == j,
            forall|k: int| 0 <= k < j ==> #[trigger] px@[k] == pixel_lit(data@, k % 128, k / 128),
        decreases 8192 - j,
    {
        let y = j / DISPLAY_WIDTH;
        let x = j % DISPLAY_WIDTH;
        let page = y / 8;
        let bit = (y % 8) as u8;
        let i = page * DISPLAY_WIDTH + x;
        let byte: u8 = if i < data.len() { data[i] } else { 0 };
        px.push((byte >> bit) & 1 != 0);
        proof {
            assert(((byte >> bit) & 1 != 0) == ((byte >> bit) & 1u8 == 1u8)) by (bit_vector);
        }
        j += 1;
    }
    assert forall|x: int, y: int| 0 <= x < 128 && 0 <= y < 64 implies #[trigger] px@[y * 128 + x] == pixel_lit(
        data@,
        x,
        y,
    ) by {
        let k = y * 128 + x;
        assert(k % 128 == x && k / 128 == y && 0 <= k < 8192) by (nonlinear_arith)
            requires
                k == y * 128 + x,
                0 <= x < 128,
                0 <= y < 64,
        ;
    }
    px
}

// ── Allocation colours ───────────────────────────────────────────────

/// How an allocation owner is coloured: the kernel and the bootloader by
/// their theme colours, every other owner by a hue (in degrees) taken from
/// its name.
#[derive(Clone, Copy, Debug, PartialEq, Eq, Structural)]
pub enum OwnerColor {
    Kernel,
    Bootloader,
    Hue(u32),
}

/// The name hash: each byte folded in as `h * 31 + b`, wrapping at 32 bits.
pub open spec fn name_hash(b: Seq<u8>) -> u32
    decreases b.len(),
{
    if b.len() == 0 {
        0
    } else {
        vstd::wrapping::u32_specs::wrapping_add(
            vstd::wrapping::u32_specs::wrapping_mul(name_hash(b.drop_last()), 31),
            b.last() as u32,
        )
    }
}

/// The colour of allocation owner `owner`.
pub open spec fn spec_owner_color(owner: Seq<char>) -> OwnerColor {
    if owner == "kernel"@ {
        OwnerColor::Kernel
    } else if owner == "bootloader"@ {
        OwnerColor::Bootloader
    } else {
        OwnerColor::Hue(name_hash(vstd::utf8::encode_utf8(owner)) % 360)
    }
}

/// The colour of allocation owner `owner` (see [`spec_owner_color`]); the
/// same name always gets the same colour.
pub fn owner_color(owner: &str) -> (c: OwnerColor)
    ensures
        c == spec_owner_color(owner@),
{
    if str_eq(owner, "kernel") {
        return OwnerColor::Kernel;
    }
    if str_eq(owner, "bootloader") {
        return OwnerColor::Bootloader;
    }
    let b = owner.as_bytes();
    let mut h: u32 = 0;
    let mut i: usize = 0;
    while i < b.len()
        invariant
            i <= b@.len(),
            h == name_hash(b@.subrange(0, i as int)),
        decreases b.len() - i,
    {
        assert(b@.subrange(0, i + 1).drop_last() =~= b@.subrange(0, i as int));
        h = h.wrapping_mul(31).wrapping_add(b[i] as u32);
        i += 1;
    }
    assert(b@.subrange(0, b@.len() as int) =~= b@);
    OwnerColor::Hue(h % 360)
}

} // verus!
