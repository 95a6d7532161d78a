use build_cart::rle::{delta_encode_skip, ext_nibble_rle_encode, nibble_rle_encode, pack_bits, row_delta};

fn nibble_decode(bytes: &[u8]) -> Vec<u8> {
    let mut out = Vec::new();
    for &b in bytes {
        for _ in 0..((b & 15) as usize + 1) {
            out.push(b >> 4);
        }
    }
    out
}

fn ext_decode(bytes: &[u8], bpp: u8) -> Vec<u8> {
    let run_bits = 8 - bpp;
    let mask = ((1u32 << run_bits) - 1) as u8;
    let mut out = Vec::new();
    let mut i = 0;
    while i < bytes.len() {
        let b = bytes[i];
        let color = b >> run_bits;
        let field = b & mask;
        if field < mask {
            for _ in 0..(field as usize + 1) {
                out.push(color);
            }
            i += 1;
        } else {
            let ext = bytes[i + 1] as usize;
            for _ in 0..(mask as usize + 1 + ext) {
                out.push(color);
            }
            i += 2;
        }
    }
    out
}

fn delta_apply(base: &[u8], stream: &[u8]) -> Vec<u8> {
    let mut out = base.to_vec();
    let (count, mut i) = if stream[0] == 0xFF {
        (stream[1] as usize + 256 * stream[2] as usize, 3)
    } else {
        (stream[0] as usize, 1)
    };
    if count == 0 {
        return out;
    }
    let mut pos = stream[i] as usize + 256 * stream[i + 1] as usize;
    out[pos] = stream[i + 2];
    i += 3;
    for _ in 1..count {
        let b = stream[i];
        let color = b & 15;
        let nib = b >> 4;
        let skip;
        if nib < 15 {
            skip = nib as usize;
            i += 1;
        } else if stream[i + 1] != 0xFF {
            skip = stream[i + 1] as usize + 15;
            i += 2;
        } else {
            skip = stream[i + 2] as usize + 256 * stream[i + 3] as usize;
            i += 4;
        }
        pos += skip + 1;
        out[pos] = color;
    }
    out
}

#[test]
fn nibble_rle_runs() {
    assert_eq!(nibble_rle_encode(&[1, 1, 1, 2]), vec![0x12, 0x20]);
    assert_eq!(nibble_rle_encode(&[3; 17]), vec![0x3F, 0x30]);
    assert_eq!(nibble_rle_encode(&[]), Vec::<u8>::new());
}

#[test]
fn nibble_rle_roundtrip_example() {
    let p: Vec<u8> = (0..100u32).map(|i| ((i / 7) % 16) as u8).collect();
    assert_eq!(nibble_decode(&nibble_rle_encode(&p)), p);
}

#[test]
fn ext_rle_runs() {
    assert_eq!(ext_nibble_rle_encode(&[1, 1, 1, 2], 2), vec![0x42, 0x80]);
    assert_eq!(ext_nibble_rle_encode(&[5; 20], 4), vec![0x5F, 0x04]);
    assert_eq!(ext_nibble_rle_encode(&[], 3), Vec::<u8>::new());
}

#[test]
fn ext_rle_long_run_at_one_bit() {
    // 1 bpp: 7 run bits, mask 127; the extra length of an escape is the
    // remaining run minus 128, cut to its low byte.
    let p = vec![1u8; 400];
    let e = ext_nibble_rle_encode(&p, 1);
    assert_eq!(e, vec![0xFF, 16, 0xFF, 128]);
    assert_eq!(ext_decode(&e, 1), p);
}

#[test]
fn ext_rle_roundtrip_example() {
    let p: Vec<u8> = (0..300u32).map(|i| ((i / 11) % 4) as u8).collect();
    assert_eq!(ext_decode(&ext_nibble_rle_encode(&p, 2), 2), p);
}

#[test]
fn delta_skip_stream() {
    assert_eq!(delta_encode_skip(&[0, 0, 0, 0], &[0, 5, 0, 7]), vec![2, 1, 0, 5, 0x17]);
    assert_eq!(delta_encode_skip(&[3, 3], &[3, 3]), vec![0]);
}

#[test]
fn delta_skip_escapes() {
    let base = vec![0u8; 400];
    let mut frame = base.clone();
    frame[0] = 1;
    frame[20] = 2; // skip 19: escape nibble and one byte
    frame[350] = 3; // skip 329: escape nibble, 0xFF and u16
    let d = delta_encode_skip(&base, &frame);
    assert_eq!(d, vec![3, 0, 0, 1, 0xF2, 4, 0xF3, 0xFF, 73, 1]);
    assert_eq!(delta_apply(&base, &d), frame);
}

#[test]
fn delta_roundtrip_example() {
    let base: Vec<u8> = (0..600u32).map(|i| (i % 16) as u8).collect();
    let frame: Vec<u8> = (0..600u32).map(|i| if i % 3 == 0 { ((i * 5) % 16) as u8 } else { (i % 16) as u8 }).collect();
    let d = delta_encode_skip(&base, &frame);
    assert_eq!(delta_apply(&base, &d), frame);
}

#[test]
fn delta_many_changes_count_header() {
    let base = vec![0u8; 300];
    let frame = vec![1u8; 300];
    let d = delta_encode_skip(&base, &frame);
    assert_eq!(&d[0..3], &[0xFF, 44, 1]);
    assert_eq!(delta_apply(&base, &d), frame);
}

#[test]
fn pack_bits_bytes() {
    assert_eq!(pack_bits(&[1, 0, 1, 1, 0, 0, 0, 0, 1]), vec![0xB0, 0x80]);
    assert_eq!(pack_bits(&[1, 0, 0, 0, 0, 0, 0, 0, 0, 0]), vec![0x80]);
    assert_eq!(pack_bits(&[0, 0, 0]), Vec::<u8>::new());
}

#[test]
fn pack_bits_roundtrip_example() {
    let p: Vec<u8> = (0..37u32).map(|i| ((i * 7 + 3) % 5 == 0) as u8).collect();
    let packed = pack_bits(&p);
    for (i, &bit) in p.iter().enumerate() {
        let byte = packed.get(i / 8).copied().unwrap_or(0);
        assert_eq!((byte >> (7 - i % 8)) & 1, bit);
    }
}

#[test]
fn row_delta_rows() {
    assert_eq!(row_delta(&[1, 2, 3, 4, 5, 6], 3, 2), vec![1, 2, 3, 5, 7, 5]);
    assert_eq!(row_delta(&[1, 2, 3], 3, 1), vec![1, 2, 3]);
}

#[test]
fn row_delta_roundtrip_example() {
    let p: Vec<u8> = (0..24u32).map(|i| (i * 13 % 16) as u8).collect();
    let d = row_delta(&p, 4, 6);
    let mut r = d.clone();
    for i in 4..24 {
        r[i] ^= r[i - 4];
    }
    assert_eq!(r, p);
}

#[test]
fn nibble_runs_are_maximal() {
    let pixels: Vec<u8> = (0..300u32).map(|i| ((i / 7) % 3 + if i > 200 { 0 } else { (i / 40) % 2 }) as u8).collect();
    let mut long = vec![5u8; 37];
    long.extend_from_slice(&pixels);
    for p in [pixels, long, vec![5u8; 17]] {
        let out = nibble_rle_encode(&p);
        for j in 0..out.len().saturating_sub(1) {
            if out[j] >> 4 == out[j + 1] >> 4 {
                assert_eq!(out[j] & 15, 15);
            }
        }
    }
    assert_eq!(nibble_rle_encode(&[5u8; 17]), vec![0x5F, 0x50]);
}
