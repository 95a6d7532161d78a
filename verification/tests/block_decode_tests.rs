use build_cart::anim_rle::{encode_type0, encode_type1, encode_type2, encode_type3};
use build_cart::animation::{encode_type4, encode_type5, encode_type6};
use build_cart::config::TRANS;

const T: u8 = TRANS;

fn frames_moving(fw: usize, fh: usize, n: usize) -> Vec<Vec<u8>> {
    (0..n)
        .map(|k| {
            let mut f = vec![T; fw * fh];
            for y in 1..fh - 1 {
                for x in 0..4 {
                    let xx = x + k % (fw - 4);
                    f[y * fw + xx] = [8u8, 2, 0, 7][(x + y + k) % 4];
                }
            }
            f
        })
        .collect()
}

fn ext_decode(bytes: &[u8], bpp: u8) -> Vec<u8> {
    let run_bits = 8 - bpp;
    let mask = ((1u32 << run_bits) - 1) as u8;
    let mut out = Vec::new();
    let mut i = 0;
    while i < bytes.len() {
        let b = bytes[i];
        let color = b >> run_bits;
        let field = b & mask;
        if field < mask {
            out.extend(std::iter::repeat(color).take(field as usize + 1));
            i += 1;
        } else {
            let ext = bytes[i + 1] as usize;
            out.extend(std::iter::repeat(color).take(mask as usize + 1 + ext));
            i += 2;
        }
    }
    out
}

fn delta_apply(base: &[u8], stream: &[u8]) -> Vec<u8> {
    let mut out = base.to_vec();
    let (count, mut i) = if stream[0] == 0xFF {
        (stream[1] as usize + 256 * stream[2] as usize, 3)
    } else {
        (stream[0] as usize, 1)
    };
    if count == 0 {
        return out;
    }
    let mut pos = stream[i] as usize + 256 * stream[i + 1] as usize;
    out[pos] = stream[i + 2];
    i += 3;
    for _ in 1..count {
        let b = stream[i];
        let nib = b >> 4;
        let skip;
        if nib < 15 {
            skip = nib as usize;
            i += 1;
        } else if stream[i + 1] != 0xFF {
            skip = stream[i + 1] as usize + 15;
            i += 2;
        } else {
            skip = stream[i + 2] as usize + 256 * stream[i + 3] as usize;
            i += 4;
        }
        pos += skip + 1;
        out[pos] = b & 15;
    }
    out
}

fn eg_read(bits: &[u8], order: u32) -> (u32, usize) {
    let mut z = 0;
    while bits[z] == 0 {
        z += 1;
    }
    let len = 2 * z + order as usize + 1;
    let v = bits[z..len].iter().fold(0u32, |v, &b| v * 2 + b as u32);
    (v - (1 << order), len)
}

fn eg2_decode(data: &[u8], n: usize, bpp: usize, w: usize) -> Vec<u8> {
    if n == 0 {
        return Vec::new();
    }
    let bits: Vec<u8> = (0..data.len() * 8).map(|k| (data[k / 8] >> (k % 8)) & 1).collect();
    let mode = bits[0] + 2 * bits[1] + 4 * bits[2];
    let order = (bits[3] + 2 * bits[4] + 1) as u32;
    let want = n * bpp;
    let mut out: Vec<u8> = Vec::new();
    let mut pos = 5;
    while out.len() < want {
        let (r, len) = eg_read(&bits[pos..], order);
        pos += len;
        let left = want - out.len();
        if r as usize >= left {
            out.extend(std::iter::repeat(0).take(left));
        } else {
            out.extend(std::iter::repeat(0).take(r as usize));
            if r != 16383 {
                out.push(1);
            }
        }
    }
    let d: Vec<u8> = (0..n).map(|k| out[k * bpp..k * bpp + bpp].iter().fold(0u8, |v, &b| v * 2 + b)).collect();
    let mut p: Vec<u8> = Vec::new();
    for i in 0..n {
        let (x, y) = (i % w, i / w);
        let a = if x > 0 { p[i - 1] as i32 } else { 0 };
        let b = if y > 0 { p[i - w] as i32 } else { 0 };
        let c = if x > 0 && y > 0 { p[i - w - 1] as i32 } else { 0 };
        let pred = match mode {
            0 => 0,
            4 => {
                let q = a + b - c;
                let (pa, pb, pc) = ((q - a).abs(), (q - b).abs(), (q - c).abs());
                if pa <= pb && pa <= pc { a } else if pb <= pc { b } else { c }
            }
            _ => panic!("mode"),
        };
        p.push(d[i] ^ pred as u8);
    }
    p
}

fn le16(b: &[u8], at: usize) -> usize {
    b[at] as usize + 256 * b[at + 1] as usize
}

/// Frame data `i` of a block whose offset table starts at `table` and whose data starts right after it.
fn blob(block: &[u8], table: usize, n: usize, i: usize) -> &[u8] {
    let data = table + 2 * n;
    let start = data + le16(block, table + 2 * i);
    let end = if i + 1 < n { data + le16(block, table + 2 * i + 2) } else { block.len() };
    &block[start..end]
}

fn place(fw: usize, fh: usize, bx: usize, by: usize, bw: usize, crop: &[u8]) -> Vec<u8> {
    let mut f = vec![T; fw * fh];
    for (k, &c) in crop.iter().enumerate() {
        f[(by + k / bw) * fw + bx + k % bw] = c;
    }
    f
}

fn xor(a: &[u8], b: &[u8]) -> Vec<u8> {
    a.iter().zip(b.iter()).map(|(&x, &y)| x ^ y).collect()
}

fn crops_with_refs(block: &[u8], refs_at: usize, table: usize, n: usize, decode: impl Fn(&[u8]) -> Vec<u8>) -> Vec<Vec<u8>> {
    let mut cs: Vec<Vec<u8>> = Vec::new();
    for i in 0..n {
        let coded = decode(blob(block, table, n, i));
        let r = block[refs_at + i];
        cs.push(if r == 255 { coded } else { xor(&coded, &cs[r as usize]) });
    }
    cs
}

#[test]
fn type1_block_decodes_back() {
    let (fw, fh) = (9, 5);
    let frames = frames_moving(fw, fh, 4);
    let (block, _) = encode_type1(&frames, fw as u32, fh as u32, 4, None);
    let n = block[0] as usize;
    assert_eq!(n, 4);
    for i in 0..n {
        let d = blob(&block, 3, n, i);
        let (bx, by, bw) = (d[0] as usize, d[1] as usize, d[2] as usize);
        let crop = ext_decode(&d[4..], 4);
        assert_eq!(place(fw, fh, bx, by, bw, &crop), frames[i]);
    }
}

#[test]
fn type2_block_decodes_back() {
    let (fw, fh) = (9, 5);
    let frames = frames_moving(fw, fh, 4);
    let (block, _) = encode_type2(&frames, fw as u32, fh as u32, 4, None);
    let n = block[0] as usize;
    let (bx, by, bw) = (block[3] as usize, block[4] as usize, block[5] as usize);
    let mut prev: Vec<u8> = Vec::new();
    for i in 0..n {
        let d = ext_decode(blob(&block, 7, n, i), 4);
        let crop = if i == 0 { d } else { xor(&d, &prev) };
        assert_eq!(place(fw, fh, bx, by, bw, &crop), frames[i]);
        prev = crop;
    }
}

#[test]
fn type3_block_decodes_back() {
    let (fw, fh) = (9, 5);
    let frames = frames_moving(fw, fh, 5);
    for rowdelta in [false, true] {
        let (block, _) = encode_type3(&frames, fw as u32, fh as u32, 4, None, rowdelta);
        let n = block[0] as usize;
        let (bx, by, bw, bh) = (block[3] as usize, block[4] as usize, block[5] as usize, block[6] as usize);
        let cs = crops_with_refs(&block, 7, 7 + n, n, |d| {
            let mut px = ext_decode(d, 4);
            if block[1] == 0x83 {
                for i in bw..bw * bh {
                    px[i] ^= px[i - bw];
                }
            }
            px
        });
        for i in 0..n {
            assert_eq!(place(fw, fh, bx, by, bw, &cs[i]), frames[i]);
        }
    }
}

#[test]
fn type3_bitpacked_block_decodes_back() {
    let frames: Vec<Vec<u8>> = vec![vec![0, 1, 1, 0, 1, 0], vec![0, 1, 1, 1, 1, 0], vec![1, 1, 0, 0, 0, 0]];
    let (block, _) = encode_type3(&frames, 3, 2, 1, None, false);
    let n = block[0] as usize;
    let (bx, by, bw, bh) = (block[3] as usize, block[4] as usize, block[5] as usize, block[6] as usize);
    let cs = crops_with_refs(&block, 7, 7 + n, n, |d| {
        (0..bw * bh).map(|i| if i / 8 < d.len() { (d[i / 8] >> (7 - i % 8)) & 1 } else { 0 }).collect()
    });
    assert_eq!((bx, by, bw, bh), (0, 0, 3, 2));
    for i in 0..n {
        assert_eq!(cs[i], frames[i]);
    }
}

#[test]
fn type0_block_decodes_back() {
    let (fw, fh) = (9, 5);
    let frames = frames_moving(fw, fh, 5);
    let (block, _) = encode_type0(&frames, fw as u32, fh as u32, 4, None);
    let n = block[0] as usize;
    let nk = block[3] as usize;
    let (bx, by, bw) = (block[4] as usize, block[5] as usize, block[6] as usize);
    let keys = &block[8..8 + nk];
    let lens_at = 8 + nk;
    let key_of_at = lens_at + 2 * nk;
    let starts_at = key_of_at + n;
    let data = starts_at + 2 * n;
    let mut key_crops: Vec<Vec<u8>> = Vec::new();
    let mut at = data;
    for j in 0..nk {
        let len = le16(&block, lens_at + 2 * j);
        key_crops.push(ext_decode(&block[at..at + len], 4));
        at += len;
    }
    for (j, &k) in keys.iter().enumerate() {
        assert_eq!(place(fw, fh, bx, by, bw, &key_crops[j]), frames[k as usize]);
    }
    for i in 0..n {
        let start = data + le16(&block, starts_at + 2 * i);
        let end = if i + 1 < n { data + le16(&block, starts_at + 2 * i + 2) } else { block.len() };
        let key = block[key_of_at + i] as usize;
        assert!(key < nk);
        let crop = delta_apply(&key_crops[key], &block[start..end]);
        assert_eq!(place(fw, fh, bx, by, bw, &crop), frames[i]);
    }
}

#[test]
fn type4_block_decodes_back() {
    let (fw, fh) = (9, 5);
    let frames = frames_moving(fw, fh, 5);
    let (block, _) = encode_type4(&frames, fw as u32, fh as u32, 4, None);
    let n = block[0] as usize;
    let (bx, by, bw, bh) = (block[3] as usize, block[4] as usize, block[5] as usize, block[6] as usize);
    let cs = crops_with_refs(&block, 7, 7 + n, n, |d| eg2_decode(d, bw * bh, 4, bw));
    for i in 0..n {
        assert_eq!(place(fw, fh, bx, by, bw, &cs[i]), frames[i]);
    }
}

#[test]
fn type5_block_decodes_back() {
    let (fw, fh) = (9, 5);
    let frames = frames_moving(fw, fh, 4);
    let (block, _) = encode_type5(&frames, fw as u32, fh as u32, 4, None);
    let n = block[0] as usize;
    for i in 0..n {
        let d = blob(&block, 3, n, i);
        let (bx, by, bw, bh) = (d[0] as usize, d[1] as usize, d[2] as usize, d[3] as usize);
        let crop = eg2_decode(&d[4..], bw * bh, 4, bw);
        assert_eq!(place(fw, fh, bx, by, bw, &crop), frames[i]);
    }
}

#[test]
fn type6_block_decodes_back() {
    let (fw, fh) = (9, 5);
    let mut frames = frames_moving(fw, fh, 5);
    // a small frame that is cheaper on its own box
    let mut small = vec![T; fw * fh];
    small[2 * fw + 4] = 8;
    frames.push(small);
    let (block, _) = encode_type6(&frames, fw as u32, fh as u32, 4, None);
    let n = block[0] as usize;
    let (ux, uy, uw, uh) = (block[3] as usize, block[4] as usize, block[5] as usize, block[6] as usize);
    let flags = &block[7..7 + n];
    let table = 7 + n;
    let mut union: Vec<Option<Vec<u8>>> = Vec::new();
    for i in 0..n {
        let d = blob(&block, table, n, i);
        if flags[i] == 254 {
            let (bx, by, bw, bh) = (d[0] as usize, d[1] as usize, d[2] as usize, d[3] as usize);
            let crop = eg2_decode(&d[4..], bw * bh, 4, bw);
            assert_eq!(place(fw, fh, bx, by, bw, &crop), frames[i]);
            union.push(None);
        } else {
            let coded = eg2_decode(d, uw * uh, 4, uw);
            let crop = if flags[i] == 255 {
                coded
            } else {
                let r = flags[i] as usize;
                assert!(r < i && flags[r] != 254);
                xor(&coded, union[r].as_ref().unwrap())
            };
            assert_eq!(place(fw, fh, ux, uy, uw, &crop), frames[i]);
            union.push(Some(crop));
        }
    }
}
