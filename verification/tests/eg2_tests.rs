use build_cart::eg2::{apply_diff_mode, apply_paeth, eg2_encode_frame, eg_encode_bits};

#[test]
fn test_eg_encode_bits_order2() {
    // val=0, order=2: val2=4 (100), n=3, prefix=0, bits=[1,0,0]
    let bits = eg_encode_bits(0, 2);
    assert_eq!(bits, vec![1, 0, 0]);
}

#[test]
fn test_eg_encode_bits_order1() {
    // val=0, order=1: val2=2 (10), n=2, prefix=0, bits=[1,0]
    let bits = eg_encode_bits(0, 1);
    assert_eq!(bits, vec![1, 0]);
}

#[test]
fn test_roundtrip_simple() {
    // Simple test: all zeros should compress well
    let pixels = vec![0u8; 64];
    let (data, mode, order) = eg2_encode_frame(&pixels, 4, 8, 8);
    assert!(!data.is_empty());
    assert!(data.len() < 64); // should compress well
    // mode should be 0 (raw) since all zeros
    assert!(mode == 0 || mode == 4);
    assert!(order >= 1 && order <= 3);
}

fn eg_read(bits: &[u8], order: u32) -> (u32, usize) {
    let mut z = 0;
    while bits[z] == 0 {
        z += 1;
    }
    let len = 2 * z + order as usize + 1;
    let mut v: u32 = 0;
    for &b in &bits[z..len] {
        v = v * 2 + b as u32;
    }
    (v - (1 << order), len)
}

#[test]
fn eg_codes_with_prefix() {
    assert_eq!(eg_encode_bits(3, 1), vec![0, 1, 0, 1]);
    assert_eq!(eg_encode_bits(0, 0), vec![1]);
    assert_eq!(eg_encode_bits(5, 0), vec![0, 0, 1, 1, 0]);
}

#[test]
fn eg_code_roundtrip_example() {
    for order in 0..4u8 {
        for val in [0u32, 1, 2, 7, 100, 16383] {
            let mut bits = eg_encode_bits(val, order);
            let len = bits.len();
            bits.extend_from_slice(&[1, 0, 1]);
            assert_eq!(eg_read(&bits, order as u32), (val, len));
        }
    }
}

#[test]
fn diff_modes() {
    assert_eq!(apply_diff_mode(&[1, 2, 3, 4], 2, 2, 0), vec![1, 2, 3, 4]);
    assert_eq!(apply_diff_mode(&[1, 2, 3, 4], 2, 2, 1), vec![1, 3, 3, 7]);
    assert_eq!(apply_diff_mode(&[1, 2, 3, 4], 2, 2, 2), vec![1, 2, 2, 6]);
    assert_eq!(apply_diff_mode(&[1, 2, 3, 4], 2, 2, 3), vec![1, 2, 3, 5]);
}

#[test]
fn paeth_prediction() {
    assert_eq!(apply_paeth(&[1, 2, 3, 4], 2, 2), vec![1, 3, 2, 7]);
}

#[test]
fn diff_mode_roundtrip_example() {
    let p: Vec<u8> = (0..20u32).map(|i| (i * 7 % 16) as u8).collect();
    let w = 5;
    let d = apply_diff_mode(&p, w, 4, 1);
    let mut r = Vec::new();
    for i in 0..d.len() {
        let left = if i % w > 0 { r[i - 1] } else { 0 };
        r.push(d[i] ^ left);
    }
    assert_eq!(r, p);
}

#[test]
fn paeth_roundtrip_example() {
    let p: Vec<u8> = (0..20u32).map(|i| (i * 5 % 16) as u8).collect();
    let w = 4usize;
    let d = apply_paeth(&p, w, 5);
    let mut r: Vec<u8> = Vec::new();
    for i in 0..d.len() {
        let (x, y) = (i % w, i / w);
        let a = if x > 0 { r[i - 1] as i32 } else { 0 };
        let b = if y > 0 { r[i - w] as i32 } else { 0 };
        let c = if x > 0 && y > 0 { r[i - w - 1] as i32 } else { 0 };
        let q = a + b - c;
        let (pa, pb, pc) = ((q - a).abs(), (q - b).abs(), (q - c).abs());
        let pred = if pa <= pb && pa <= pc { a } else if pb <= pc { b } else { c };
        r.push(d[i] ^ pred as u8);
    }
    assert_eq!(r, p);
}

#[test]
fn eg2_single_pixel() {
    // One set bit: raw mode, order 1 packs header and code into one byte.
    assert_eq!(eg2_encode_frame(&[1], 1, 1, 1), (vec![32], 0, 1));
}

#[test]
fn eg2_empty_frame() {
    let (data, mode, order) = eg2_encode_frame(&[], 4, 0, 0);
    assert_eq!((data, mode, order), (vec![0], 0, 1));
}

fn eg2_decode(data: &[u8], n: usize, bpp: usize, w: usize) -> Vec<u8> {
    let bits: Vec<u8> = (0..data.len() * 8).map(|k| (data[k / 8] >> (k % 8)) & 1).collect();
    let mode = bits[0] + 2 * bits[1] + 4 * bits[2];
    let order = (bits[3] + 2 * bits[4] + 1) as u32;
    let want = n * bpp;
    let mut out: Vec<u8> = Vec::new();
    let mut pos = 5;
    while out.len() < want {
        let (r, len) = eg_read(&bits[pos..], order);
        pos += len;
        let left = want - out.len();
        if r as usize >= left {
            out.extend(std::iter::repeat(0).take(left));
        } else {
            out.extend(std::iter::repeat(0).take(r as usize));
            if r != 16383 {
                out.push(1);
            }
        }
    }
    let d: Vec<u8> = (0..n)
        .map(|k| out[k * bpp..k * bpp + bpp].iter().fold(0u8, |v, &b| v * 2 + b))
        .collect();
    let mut p: Vec<u8> = Vec::new();
    for i in 0..n {
        let (x, y) = (i % w, i / w);
        let a = if x > 0 { p[i - 1] as i32 } else { 0 };
        let b = if y > 0 { p[i - w] as i32 } else { 0 };
        let c = if x > 0 && y > 0 { p[i - w - 1] as i32 } else { 0 };
        let pred = match mode {
            0 => 0,
            4 => {
                let q = a + b - c;
                let (pa, pb, pc) = ((q - a).abs(), (q - b).abs(), (q - c).abs());
                if pa <= pb && pa <= pc { a } else if pb <= pc { b } else { c }
            }
            _ => panic!("mode"),
        };
        p.push(d[i] ^ pred as u8);
    }
    p
}

#[test]
fn eg2_frame_decodes_back() {
    let images: Vec<(Vec<u8>, usize, usize)> = vec![
        (vec![0u8; 64], 4, 8),
        ((0..64u32).map(|i| (i * 5 % 16) as u8).collect(), 4, 8),
        ((0..48u32).map(|i| (i / 6 % 4) as u8).collect(), 2, 6),
        ((0..30u32).map(|i| if i % 7 == 0 { 1 } else { 0 }).collect(), 1, 5),
        ((0..100u32).map(|i| (i * 37 % 256) as u8).collect(), 8, 10),
        // a zero run longer than one code can hold, ended by a one bit
        ({
            let mut v = vec![0u8; 5000];
            v.push(3);
            v
        }, 4, 50),
    ];
    for (p, bpp, w) in images {
        let (data, mode, order) = eg2_encode_frame(&p, bpp as u8, w, p.len() / w);
        assert!(mode == 0 || mode == 4);
        assert!(order >= 1 && order <= 3);
        assert_eq!(eg2_decode(&data, p.len(), bpp, w), p);
    }
}

#[test]
fn diff_mode_four_is_paeth() {
    let p: Vec<u8> = (0..24u32).map(|i| (i * 11 % 16) as u8).collect();
    assert_eq!(apply_diff_mode(&p, 6, 4, 4), apply_paeth(&p, 6, 4));
}
