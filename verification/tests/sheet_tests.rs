use build_cart::config::TRANS;
use build_cart::sheet::{cut_font, cut_frames, cut_frames_boss, cut_horiz_frames, RgbaImage};

const T: u8 = TRANS;
const CLEAR: [u8; 4] = [0, 0, 0, 0];
const BLACK: [u8; 4] = [0, 0, 0, 255];
const WHITE: [u8; 4] = [255, 241, 232, 255];
const RED: [u8; 4] = [255, 0, 77, 255];
const FAINT: [u8; 4] = [255, 0, 77, 100];

fn image(width: u32, height: u32, px: &[[u8; 4]]) -> RgbaImage {
    assert_eq!(px.len(), (width * height) as usize);
    RgbaImage { width, height, data: px.iter().flat_map(|p| p.iter().copied()).collect() }
}

#[test]
fn vertical_strip() {
    let img = image(2, 4, &[BLACK, CLEAR, WHITE, RED, CLEAR, CLEAR, FAINT, BLACK]);
    let frames = cut_frames(&img, 2, 2, None);
    assert_eq!(frames, vec![vec![0, T, 7, 8], vec![T, T, 8, 0]]);
    assert_eq!(cut_frames(&img, 1, 2, Some(1)), vec![vec![0, 7]]);
}

#[test]
fn horizontal_strip_with_padding() {
    // two 2x1 source frames, copied into 3x2 cells one column to the right
    let img = image(4, 1, &[BLACK, WHITE, FAINT, RED]);
    let frames = cut_horiz_frames(&img, 2, 1, 3, 2, None, 1);
    assert_eq!(frames, vec![vec![T, 0, 7, T, T, T], vec![T, T, 8, T, T, T]]);
}

#[test]
fn horizontal_strip_clipped() {
    let img = image(4, 1, &[BLACK, WHITE, RED, RED]);
    let frames = cut_horiz_frames(&img, 2, 1, 2, 1, Some(2), 1);
    assert_eq!(frames, vec![vec![T, 0], vec![T, 8]]);
}

#[test]
fn font_glyphs_and_advances() {
    let img = image(4, 2, &[WHITE, CLEAR, CLEAR, CLEAR, CLEAR, WHITE, CLEAR, CLEAR]);
    let (glyphs, cw, ch, adv) = cut_font(&img, "AB", 128);
    assert_eq!((cw, ch), (2, 2));
    assert_eq!(glyphs, vec![vec![7, T, T, 7], vec![T, T, T, T]]);
    assert_eq!(adv, vec![3, 2]);
}

#[test]
fn font_counts_characters_not_bytes() {
    let img = image(2, 1, &[WHITE, CLEAR]);
    let (glyphs, cw, _, _) = cut_font(&img, "\u{e9}", 1);
    assert_eq!(glyphs.len(), 1);
    assert_eq!(cw, 2);
}

#[test]
fn boss_frames_centred_on_the_ground() {
    // one 3x3 source cell with a single opaque pixel in its middle row
    let img = image(3, 3, &[CLEAR, CLEAR, CLEAR, CLEAR, RED, CLEAR, CLEAR, CLEAR, CLEAR]);
    let frames = cut_frames_boss(&img, 3, 3, 3, 2, None);
    assert_eq!(frames, vec![vec![T, T, T, T, 8, T]]);
}

#[test]
fn boss_frames_selection_and_empty_cells() {
    let img = image(2, 4, &[CLEAR, CLEAR, CLEAR, CLEAR, BLACK, BLACK, CLEAR, CLEAR]);
    let sel = [1usize, 0, 7];
    let frames = cut_frames_boss(&img, 2, 2, 2, 2, Some(&sel));
    assert_eq!(frames, vec![vec![T, T, 0, 0], vec![T; 4]]);
}

#[test]
fn boss_content_lands_bottom_centre() {
    // a 2x2 shape at the top of a 4x4 cell goes to the bottom middle of a 6x5 frame
    let c = CLEAR;
    let img = image(4, 4, &[c, RED, BLACK, c, c, WHITE, RED, c, c, c, c, c, c, c, c, c]);
    let frames = cut_frames_boss(&img, 4, 4, 6, 5, None);
    let mut want = vec![T; 30];
    want[3 * 6 + 2] = 8;
    want[3 * 6 + 3] = 0;
    want[4 * 6 + 2] = 7;
    want[4 * 6 + 3] = 8;
    assert_eq!(frames, vec![want]);
}
