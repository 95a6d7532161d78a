use build_cart::anim_rle::{encode_type0, encode_type1, encode_type2, encode_type3, pick_keyframe_candidates};
use build_cart::animation::{encode_animation, encode_type4, encode_type5, encode_type6};
use build_cart::config::TRANS;

const T: u8 = TRANS;

fn sample_frames() -> Vec<Vec<u8>> {
    // Three 6x4 frames of a small shape moving one pixel right.
    (0..3usize)
        .map(|k| {
            let mut f = vec![T; 24];
            for y in 1..3 {
                for x in 0..3 {
                    f[y * 6 + x + k] = if (x + y) % 2 == 0 { 8 } else { 2 };
                }
            }
            f
        })
        .collect()
}

#[test]
fn keyframe_candidate_counts() {
    assert_eq!(pick_keyframe_candidates(0), Vec::<Vec<usize>>::new());
    assert_eq!(
        pick_keyframe_candidates(3),
        vec![vec![0], vec![1], vec![2], vec![0, 1], vec![0, 2], vec![1, 2], vec![0, 1, 2]]
    );
    assert_eq!(pick_keyframe_candidates(14).len(), 14 + 91 + 3);
    assert_eq!(pick_keyframe_candidates(20).len(), 20 + 190);
    let c = pick_keyframe_candidates(14);
    assert_eq!(&c[105..], &[vec![0, 4, 8], vec![1, 5, 9], vec![2, 6, 10]]);
}

#[test]
fn type1_per_frame_boxes() {
    let frames = sample_frames();
    let (block, info) = encode_type1(&frames, 6, 4, 4, None);
    assert_eq!(info, "PF");
    assert_eq!(&block[0..3], &[3, 1, 4]);
    // first offset is 0, first frame data starts with its box
    assert_eq!(&block[3..5], &[0, 0]);
    assert_eq!(&block[9..13], &[0, 1, 3, 2]);
}

#[test]
fn type1_empty_frame_box() {
    let frames = vec![vec![T; 4]];
    let (block, _) = encode_type1(&frames, 2, 2, 4, None);
    assert_eq!(block, vec![1, 1, 4, 0, 0, 0, 0, 0, 0]);
}

#[test]
fn type2_sequential_xor() {
    let frames = sample_frames();
    let (block, info) = encode_type2(&frames, 6, 4, 4, None);
    assert_eq!(&block[0..7], &[3, 2, 4, 0, 1, 5, 2]);
    assert!(info.starts_with("XR 5x2 data="));
}

#[test]
fn type3_referenced_xor() {
    let frames = sample_frames();
    let (block, info) = encode_type3(&frames, 6, 4, 4, None, false);
    assert_eq!(&block[0..7], &[3, 3, 4, 0, 1, 5, 2]);
    assert_eq!(block[7], 255);
    assert!(info.starts_with("RX 5x2 data="));
    assert!(info.ends_with("/3"));
    let (block_rd, info_rd) = encode_type3(&frames, 6, 4, 4, None, true);
    assert_eq!(block_rd[1], 0x83);
    assert!(info_rd.starts_with("RX+RD 5x2"));
}

#[test]
fn type3_bitpacked_at_one_bpp() {
    let frames = vec![vec![0, 1, 1, 0], vec![0, 1, 1, 1]];
    let (block, info) = encode_type3(&frames, 2, 2, 1, None, false);
    assert_eq!(block[1], 3);
    assert!(info.starts_with("BP 2x2"));
}

#[test]
fn type0_keyframes_and_deltas() {
    let frames = sample_frames();
    let (block, info) = encode_type0(&frames, 6, 4, 4, None);
    assert_eq!(&block[0..3], &[3, 0, 4]);
    let nkeys = block[3] as usize;
    assert!(nkeys >= 1 && nkeys <= 3);
    assert_eq!(&block[4..8], &[0, 1, 5, 2]);
    assert!(info.starts_with(&format!("KD {}k 5x2 keys=", nkeys)));
}

#[test]
fn types_4_5_6_headers() {
    let frames = sample_frames();
    let (b4, i4) = encode_type4(&frames, 6, 4, 4, None);
    assert_eq!(&b4[0..7], &[3, 4, 4, 0, 1, 5, 2]);
    assert!(i4.starts_with("EG 5x2 data="));
    let (b5, i5) = encode_type5(&frames, 6, 4, 4, None);
    assert_eq!(&b5[0..3], &[3, 5, 4]);
    assert!(i5.starts_with("PF 3x2 data="));
    let (b6, _i6) = encode_type6(&frames, 6, 4, 4, None);
    assert_eq!(&b6[0..3], &[3, 6, 4]);
}

#[test]
fn palette_header_below_four_bpp() {
    let frames = sample_frames();
    let pal = [T, 2, 8, 0];
    let (b4, _) = encode_type4(&frames, 6, 4, 2, Some(&pal));
    assert_eq!(&b4[0..5], &[3, 4, 2, 0xE2, 0x80]);
}

#[test]
fn animation_picks_shortest() {
    let frames = sample_frames();
    let (block, info) = encode_animation("walk", &frames, 6, 4, None, None);
    let bpp = 2; // three colours
    let pal = [T, 2, 8, 0];
    let l4 = encode_type4(&frames, 6, 4, bpp, Some(&pal)).0.len();
    let l5 = encode_type5(&frames, 6, 4, bpp, Some(&pal)).0.len();
    let l6 = encode_type6(&frames, 6, 4, bpp, Some(&pal)).0.len();
    assert!(block.len() <= l4 && block.len() <= l5 && block.len() <= l6);
    assert!(info.starts_with("    walk        :  3f, "));
    assert!(info.contains(" [2bpp] T"));
}

#[test]
fn type6_references_union_coded_frames() {
    // two identical frames: the second is stored as a reference to the first
    let frames = vec![vec![15u8; 8], vec![15u8; 8]];
    let (block, info) = encode_type6(&frames, 8, 1, 4, None);
    assert_eq!(block, vec![2, 6, 4, 0, 0, 8, 1, 255, 0, 0, 0, 3, 0, 0xA4, 0x0A, 0x0F, 0x00, 0x22]);
    assert_eq!(info, "HY 8x1 data=5b pf=0/2 refs=1/2");
}
