use build_cart::config::TRANS;
use build_cart::frame::{
    build_palette, compute_anchors, count_diffs, crop_pixels, get_bbox, get_frame_bbox, min_bpp_for_frames, nearest_p8,
    pack_palette, quantize_pixels,
};

const T: u8 = TRANS;

#[test]
fn nearest_colours() {
    assert_eq!(nearest_p8(0, 0, 0), 0);
    assert_eq!(nearest_p8(255, 241, 232), 7);
    assert_eq!(nearest_p8(250, 10, 80), 8);
    // The transparent colour itself is never chosen.
    assert_eq!(nearest_p8(255, 119, 168), 15);
}

#[test]
fn nearest_never_transparent() {
    for r in (0..=255u32).step_by(51) {
        for g in (0..=255u32).step_by(51) {
            for b in (0..=255u32).step_by(51) {
                let c = nearest_p8(r as u8, g as u8, b as u8);
                assert!(c < 16 && c != TRANS);
            }
        }
    }
}

#[test]
fn diffs_over_shared_length() {
    assert_eq!(count_diffs(&[1, 2, 3], &[1, 0, 3, 4]), 1);
    assert_eq!(count_diffs(&[], &[1]), 0);
}

#[test]
fn palette_nibbles() {
    assert_eq!(pack_palette(&[1, 2, 3]), vec![0x12, 0x30]);
    assert_eq!(pack_palette(&[]), Vec::<u8>::new());
}

#[test]
fn quantize_to_indices() {
    assert_eq!(quantize_pixels(&[7, 5, 9], &[14, 5, 7]), vec![2, 1, 0]);
}

#[test]
fn crop_box() {
    let f: Vec<u8> = (0..8).collect();
    assert_eq!(crop_pixels(&f, 4, 1, 0, 2, 2), vec![1, 2, 5, 6]);
    assert_eq!(crop_pixels(&f, 4, 0, 0, 0, 2), Vec::<u8>::new());
}

#[test]
fn frame_box() {
    let mut f = vec![T; 12];
    assert_eq!(get_frame_bbox(&f, 4, 3), (0, 0, 0, 0));
    f[6] = 3;
    assert_eq!(get_frame_bbox(&f, 4, 3), (2, 1, 1, 1));
    f[11] = 1;
    assert_eq!(get_frame_bbox(&f, 4, 3), (2, 1, 2, 2));
}

#[test]
fn animation_box() {
    let mut a = vec![T; 12];
    a[1] = 5;
    let mut b = vec![T; 12];
    b[11] = 6;
    assert_eq!(get_bbox(&[a, b], 4, 3), (1, 0, 3, 3));
}

#[test]
fn bbox_covers_every_opaque_pixel() {
    let frames: Vec<Vec<u8>> = (0..3u32)
        .map(|k| (0..30u32).map(|i| if (i * 7 + k * 3) % 11 == 0 { 2 } else { T }).collect())
        .collect();
    let (bx, by, bw, bh) = get_bbox(&frames, 6, 5);
    for f in &frames {
        for (i, &c) in f.iter().enumerate() {
            if c != T {
                let (x, y) = ((i % 6) as u8, (i / 6) as u8);
                assert!(bx <= x && x < bx + bw && by <= y && y < by + bh);
                let crop = crop_pixels(f, 6, bx, by, bw, bh);
                assert_eq!(crop[((y - by) * bw + (x - bx)) as usize], c);
            }
        }
    }
}

#[test]
fn bpp_from_colour_count() {
    assert_eq!(min_bpp_for_frames(&[vec![1, 1]]), 1);
    assert_eq!(min_bpp_for_frames(&[vec![1, 2], vec![3]]), 2);
    assert_eq!(min_bpp_for_frames(&[vec![0, 1, 2, 3, 4, 5, 6, 7]]), 3);
    assert_eq!(min_bpp_for_frames(&[vec![0, 1, 2, 3, 4, 5, 6, 7, 8]]), 4);
}

#[test]
fn palette_built_from_colours() {
    assert_eq!(build_palette(&[vec![7, T, 3]], 2), vec![T, 3, 7, 0]);
    assert_eq!(build_palette(&[vec![9, 2, 5]], 1), vec![2, 5]);
}

#[test]
fn palette_roundtrip_example() {
    let frames = vec![vec![T, 3, 7, 7], vec![12, 3, T, 0]];
    let bpp = min_bpp_for_frames(&frames);
    let pal = build_palette(&frames, bpp);
    for f in &frames {
        let q = quantize_pixels(f, &pal);
        let back: Vec<u8> = q.iter().map(|&i| pal[i as usize]).collect();
        assert_eq!(&back, f);
    }
}

#[test]
fn anchors_per_frame() {
    let frames = vec![vec![T, 3, 3, T], vec![T; 4], vec![5, 3, 5, 3]];
    assert_eq!(compute_anchors(&frames, 4, None), vec![1, 2, 1]);
    assert_eq!(compute_anchors(&frames, 4, Some(5)), vec![2, 2, 1]);
}

#[test]
fn palette_nibbles_read_back() {
    let pal: Vec<u8> = vec![14, 0, 7, 15, 3, 9, 12];
    let data = pack_palette(&pal);
    assert_eq!(data.len(), 4);
    for (j, &c) in pal.iter().enumerate() {
        let b = data[j / 2];
        let back = if j % 2 == 0 { (b >> 4) & 0xF } else { b & 0xF };
        assert_eq!(back, c);
    }
}

#[test]
fn transparent_frames_have_an_empty_box() {
    assert_eq!(get_bbox(&[vec![TRANS; 64]], 8, 8), (0, 0, 0, 0));
    assert_eq!(get_bbox(&[vec![TRANS; 64], vec![TRANS; 64]], 8, 8), (0, 0, 0, 0));
    let mut f = vec![TRANS; 64];
    f[2 * 8 + 3] = 5;
    assert_eq!(get_bbox(&[vec![TRANS; 64], f], 8, 8), (3, 2, 1, 1));
}
