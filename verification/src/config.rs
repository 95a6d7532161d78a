//! PICO-8 palette and the colour index that stands for transparency.

use vstd::prelude::*;

verus! {

/// Palette index used for transparent pixels.
pub const TRANS: u8 = 14;

/// Number of colours in the PICO-8 palette.
pub const P8_COLORS: usize = 16;

/// RGB value of PICO-8 colour `i`.
pub open spec fn p8_rgb(i: int) -> (u8, u8, u8) {
    if i == 0 {
        (0, 0, 0)
    } else if i == 1 {
        (29, 43, 83)
    } else if i == 2 {
        (126, 37, 83)
    } else if i == 3 {
        (0, 135, 81)
    } else if i == 4 {
        (171, 82, 54)
    } else if i == 5 {
        (95, 87, 79)
    } else if i == 6 {
        (194, 195, 199)
    } else if i == 7 {
        (255, 241, 232)
    } else if i == 8 {
        (255, 0, 77)
    } else if i == 9 {
        (255, 163, 0)
    } else if i == 10 {
        (255, 236, 39)
    } else if i == 11 {
        (0, 228, 54)
    } else if i == 12 {
        (41, 173, 255)
    } else if i == 13 {
        (131, 118, 156)
    } else if i == 14 {
        (255, 119, 168)
    } else {
        (255, 204, 170)
    }
}

/// RGB value of PICO-8 colour `i`.
pub fn p8_palette_rgb(i: usize) -> (c: (u8, u8, u8))
    requires
        i < P8_COLORS,
    ensures
        c == p8_rgb(i as int),
{
    match i {
        0 => (0, 0, 0),
        1 => (29, 43, 83),
        2 => (126, 37, 83),
        3 => (0, 135, 81),
        4 => (171, 82, 54),
        5 => (95, 87, 79),
        6 => (194, 195, 199),
        7 => (255, 241, 232),
        8 => (255, 0, 77),
        9 => (255, 163, 0),
        10 => (255, 236, 39),
        11 => (0, 228, 54),
        12 => (41, 173, 255),
        13 => (131, 118, 156),
        14 => (255, 119, 168),
        _ => (255, 204, 170),
    }
}

} // verus!
