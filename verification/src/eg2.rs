//! EG-2 compression: Exponential Golomb zero-run encoding with differential
//! predictors. This is the core compression used for animation frames, tile
//! pixels and map layers.

use vstd::prelude::*;
use vstd::arithmetic::power2::pow2;
use crate::rle::bits_value;

verus! {

/// The neighbour that diff mode `mode` predicts pixel `i` from, in a `w`-wide
/// image: 1 = left, 2 = up, 3 = up-left; 0 outside the image.
pub open spec fn diff_ref(p: Seq<u8>, w: nat, mode: u8, i: int) -> u8 {
    let x = i % (w as int);
    let y = i / (w as int);
    if mode == 1 {
        if x > 0 { p[i - 1] } else { 0 }
    } else if mode == 2 {
        if y > 0 { p[i - w] } else { 0 }
    } else {
        if y > 0 && x > 0 { p[i - w - 1] } else { 0 }
    }
}

/// Differential encoding: mode 0 keeps the pixels, modes 1-3 XOR each pixel
/// with its reference, mode 4 is the Paeth predictor.
pub open spec fn diff_mode_spec(p: Seq<u8>, w: nat, mode: u8) -> Seq<u8> {
    if mode == 0 {
        p
    } else if mode == 4 {
        paeth_spec(p, w)
    } else {
        Seq::new(p.len(), |i: int| p[i] ^ diff_ref(p, w, mode, i))
    }
}

/// Apply differential encoding mode.
/// mode 0 = raw (identity), mode 4 = paeth predictor.
pub fn apply_diff_mode(pixels: &[u8], w: usize, _h: usize, mode: u8) -> (out: Vec<u8>)
    requires
        mode <= 4,
        mode != 0 && pixels.len() > 0 ==> w > 0,
    ensures
        out@ == diff_mode_spec(pixels@, w as nat, mode),
{
    if mode == 0 {
        return vstd::slice::slice_to_vec(pixels);
    }
    if mode == 4 {
        return apply_paeth(pixels, w, _h);
    }
    let mut out = vstd::slice::slice_to_vec(pixels);
    let mut i: usize = pixels.len();
    while i > 0
        invariant
            i <= pixels.len(),
            out.len() == pixels.len(),
            w > 0 || pixels.len() == 0,
            1 <= mode <= 3,
            forall|k: int| 0 <= k < pixels.len() ==> #[trigger] out[k] == if k >= i {
                pixels[k] ^ diff_ref(pixels@, w as nat, mode, k)
            } else {
                pixels[k]
            },
        decreases i,
    {
        i = i - 1;
        let x = i % w;
        let y = i / w;
        proof {
            vstd::arithmetic::div_mod::lemma_fundamental_div_mod(i as int, w as int);
        }
        assert((y > 0 ==> i >= w) && (y > 0 && x > 0 ==> i >= w + 1)) by (nonlinear_arith)
            requires
                i == w * y + x,
                w > 0,
        ;
        let ref_val: u8 = if mode == 1 {
            if x > 0 { pixels[i - 1] } else { 0 }
        } else if mode == 2 {
            if y > 0 { pixels[i - w] } else { 0 }
        } else {
            if y > 0 && x > 0 { pixels[i - w - 1] } else { 0 }
        };
        out.set(i, pixels[i] ^ ref_val);
    }
    assert(out@ =~= diff_mode_spec(pixels@, w as nat, mode));
    out
}

/// Paeth predictor: of the left (`a`), up (`b`) and up-left (`c`) neighbours,
/// the one closest to `a + b - c`, preferring `a`, then `b`.
pub open spec fn paeth_pred(a: int, b: int, c: int) -> int {
    let p = a + b - c;
    let pa = if p - a >= 0 { p - a } else { a - p };
    let pb = if p - b >= 0 { p - b } else { b - p };
    let pc = if p - c >= 0 { p - c } else { c - p };
    if pa <= pb && pa <= pc {
        a
    } else if pb <= pc {
        b
    } else {
        c
    }
}

/// Pixel `i` of a `w`-wide image XORed with its Paeth prediction (missing neighbours read 0).
pub open spec fn paeth_at(p: Seq<u8>, w: nat, i: int) -> u8 {
    let x = i % (w as int);
    let y = i / (w as int);
    let a: int = if x > 0 { p[i - 1] as int } else { 0 };
    let b: int = if y > 0 { p[i - w] as int } else { 0 };
    let c: int = if x > 0 && y > 0 { p[i - w - 1] as int } else { 0 };
    p[i] ^ (paeth_pred(a, b, c) as u8)
}

/// Paeth prediction of a whole image.
pub open spec fn paeth_spec(p: Seq<u8>, w: nat) -> Seq<u8> {
    Seq::new(p.len(), |i: int| paeth_at(p, w, i))
}

/// Apply Paeth prediction: XOR each pixel with paeth(left, up, up-left).
pub fn apply_paeth(pixels: &[u8], w: usize, _h: usize) -> (out: Vec<u8>)
    requires
        pixels.len() > 0 ==> w > 0,
    ensures
        out@ == paeth_spec(pixels@, w as nat),
{
    let mut out = vstd::slice::slice_to_vec(pixels);
    let mut i: usize = pixels.len();
    while i > 0
        invariant
            i <= pixels.len(),
            out.len() == pixels.len(),
            w > 0 || pixels.len() == 0,
            forall|k: int| 0 <= k < pixels.len() ==> #[trigger] out[k] == if k >= i {
                paeth_at(pixels@, w as nat, k)
            } else {
                pixels[k]
            },
        decreases i,
    {
        i = i - 1;
        let x = i % w;
        let y = i / w;
        proof {
            vstd::arithmetic::div_mod::lemma_fundamental_div_mod(i as int, w as int);
        }
        assert((y > 0 ==> i >= w) && (y > 0 && x > 0 ==> i >= w + 1)) by (nonlinear_arith)
            requires
                i == w * y + x,
                w > 0,
        ;
        let a: i32 = if x > 0 { pixels[i - 1] as i32 } else { 0 };
        let b: i32 = if y > 0 { pixels[i - w] as i32 } else { 0 };
        let c: i32 = if x > 0 && y > 0 { pixels[i - w - 1] as i32 } else { 0 };
        let p: i32 = a + b - c;
        let pa: i32 = if p - a >= 0 { p - a } else { a - p };
        let pb: i32 = if p - b >= 0 { p - b } else { b - p };
        let pc: i32 = if p - c >= 0 { p - c } else { c - p };
        let pred: i32 = if pa <= pb && pa <= pc {
            a
        } else if pb <= pc {
            b
        } else {
            c
        };
        out.set(i, pixels[i] ^ (pred as u8));
    }
    assert(out@ =~= paeth_spec(pixels@, w as nat));
    out
}


/// Number of binary digits of `v` (0 for 0).
pub open spec fn bit_length(v: nat) -> nat
    decreases v,
{
    if v == 0 {
        0
    } else {
        1 + bit_length(v / 2)
    }
}

/// The low `n` binary digits of `v`, most significant first, one per entry.
pub open spec fn msb_bits(v: nat, n: nat) -> Seq<u8> {
    Seq::new(n, |k: int| ((v / pow2((n - 1 - k) as nat)) % 2) as u8)
}

/// Exp-Golomb code of `val` of order `order`: with `v2 = val + 2^order` of
/// bit length `n`, `n - 1 - order` zero bits followed by the `n` bits of `v2`.
pub open spec fn eg_code(val: nat, order: nat) -> Seq<u8> {
    let v2 = val + pow2(order);
    let n = bit_length(v2);
    Seq::new((n - 1 - order) as nat, |i: int| 0u8) + msb_bits(v2, n)
}

pub proof fn lemma_bit_length_bounds(v: nat)
    ensures
        v < pow2(bit_length(v)),
        v >= 1 ==> pow2((bit_length(v) - 1) as nat) <= v,
        v >= 1 ==> bit_length(v) >= 1,
    decreases v,
{
    vstd::arithmetic::power2::lemma2_to64();
    if v > 0 {
        lemma_bit_length_bounds(v / 2);
        vstd::arithmetic::power2::lemma_pow2_unfold(bit_length(v));
        if v / 2 >= 1 {
            vstd::arithmetic::power2::lemma_pow2_unfold((bit_length(v) - 1) as nat);
        }
    }
}

/// `pow2(k) <= v < pow2(m)` pins the bit length of `v` between `k + 1` and `m`.
pub proof fn lemma_bit_length_between(v: nat, k: nat, m: nat)
    requires
        pow2(k) <= v,
        v < pow2(m),
    ensures
        k + 1 <= bit_length(v) <= m,
{
    lemma_bit_length_bounds(v);
    vstd::arithmetic::power2::lemma_pow2_pos(k);
    if bit_length(v) < k + 1 {
        if bit_length(v) < k {
            vstd::arithmetic::power2::lemma_pow2_strictly_increases(bit_length(v), k);
        }
    }
    if bit_length(v) > m {
        vstd::arithmetic::power2::lemma_pow2_strictly_increases(m, (bit_length(v) - 1) as nat);
        if (bit_length(v) - 1) as nat == m {
        }
    }
}

/// Encode non-negative integer using Exp-Golomb of given order.
pub fn eg_encode_bits(val: u32, order: u8) -> (bits: Vec<u8>)
    requires
        order < 32,
        val + pow2(order as nat) <= u32::MAX,
    ensures
        bits@ == eg_code(val as nat, order as nat),
{
    proof {
        vstd::arithmetic::power2::lemma2_to64();
        vstd::bits::lemma_u32_shl_is_mul(1, order as u32);
    }
    let val2: u32 = val + (1u32 << order);
    let ghost v2 = val2 as nat;
    proof {
        vstd::arithmetic::power2::lemma2_to64_rest();
        lemma_bit_length_between(v2, order as nat, 32);
    }
    // bit length of val2
    let mut n: u32 = 0;
    let mut t: u32 = val2;
    while t > 0
        invariant
            bit_length(v2) == n + bit_length(t as nat),
            bit_length(v2) <= 32,
        decreases t,
    {
        t = t / 2;
        n += 1;
    }
    let prefix_len: usize = n as usize - 1 - order as usize;
    let mut bits: Vec<u8> = vec![0u8; prefix_len];
    assert(bits@ =~= Seq::new(prefix_len as nat, |i: int| 0u8));
    let ghost prefix = bits@;
    let mut b: u32 = n;
    while b > 0
        invariant
            b <= n,
            n == bit_length(v2),
            n <= 32,
            v2 == val2,
            bits@ == prefix + msb_bits(v2, n as nat).take((n - b) as int),
        decreases b,
    {
        b = b - 1;
        proof {
            vstd::bits::lemma_u32_shr_is_div(val2, b);
        }
        let shifted: u32 = val2 >> b;
        assert(shifted & 1 == shifted % 2) by (bit_vector);
        let bit: u8 = (shifted & 1) as u8;
        bits.push(bit);
        assert(bits@ =~= prefix + msb_bits(v2, n as nat).take((n - b) as int));
    }
    assert(msb_bits(v2, n as nat).take(n as int) =~= msb_bits(v2, n as nat));
    bits
}


/// The bitstream of `d` at `bpp` bits per pixel, each pixel most significant bit first.
pub open spec fn pixel_bits(d: Seq<u8>, bpp: nat) -> Seq<u8>
    decreases d.len(),
{
    if d.len() == 0 {
        seq![]
    } else {
        pixel_bits(d.drop_last(), bpp) + msb_bits(d.last() as nat, bpp)
    }
}

/// Length of the run of zero bits starting at position `i`.
pub open spec fn zero_run(bits: Seq<u8>, i: nat) -> nat
    decreases bits.len() - i,
{
    if i < bits.len() && bits[i as int] == 0 {
        1 + zero_run(bits, i + 1)
    } else {
        0
    }
}

pub proof fn lemma_zero_run_bound(bits: Seq<u8>, i: nat)
    requires
        i <= bits.len(),
    ensures
        i + zero_run(bits, i) <= bits.len(),
        i + zero_run(bits, i) < bits.len() ==> bits[(i + zero_run(bits, i)) as int] != 0,
        forall|k: int| i <= k < i + zero_run(bits, i) ==> bits[k] == 0,
    decreases bits.len() - i,
{
    if i < bits.len() && bits[i as int] == 0 {
        lemma_zero_run_bound(bits, i + 1);
    }
}

/// Longest zero run written as one code (PICO-8 16.16 fixed-point safe limit).
pub const MAX_EG_RUN: u32 = 16383;

/// A zero run written as Exp-Golomb codes, cut into pieces of at most `MAX_EG_RUN`.
pub open spec fn eg_split(run: nat, order: nat) -> Seq<u8>
    decreases run,
{
    if run > 16383 {
        eg_code(16383, order) + eg_split((run - 16383) as nat, order)
    } else {
        eg_code(run, order)
    }
}

/// Zero-run coding of `bits` from position `i`: each run of zeros is coded and
/// the one bit that ends it is implicit; a final run that reaches the end of
/// the stream is coded with no one bit after it.
pub open spec fn eg_body(bits: Seq<u8>, i: nat, order: nat) -> Seq<u8>
    decreases bits.len() - i,
{
    if i >= bits.len() {
        seq![]
    } else {
        let r = zero_run(bits, i);
        proof {
            lemma_zero_run_bound(bits, i);
        }
        let j = i + r;
        eg_split(r, order) + if j < bits.len() {
            eg_body(bits, j + 1, order)
        } else {
            seq![]
        }
    }
}

/// Stream header: 3 bits of the mode, then 2 bits of `order - 1`, each least significant first.
pub open spec fn eg_header(mode: u8, order: u8) -> Seq<u8> {
    let o = (order - 1) as u8;
    seq![mode & 1u8, (mode >> 1u8) & 1u8, (mode >> 2u8) & 1u8, o & 1u8, (o >> 1u8) & 1u8]
}

/// Up to eight bits packed into a byte, bit `b` of the chunk shifted left by `b`.
pub open spec fn lsb_byte(chunk: Seq<u8>) -> u8
    decreases chunk.len(),
{
    if chunk.len() == 0 {
        0
    } else {
        lsb_byte(chunk.drop_last()) | ((chunk.last() << ((chunk.len() - 1) as u8)) as u8)
    }
}

/// A bit string packed into bytes, eight bits per byte, least significant first.
pub open spec fn lsb_pack(bits: Seq<u8>) -> Seq<u8> {
    Seq::new(
        (bits.len() + 7) / 8,
        |j: int| lsb_byte(bits.subrange(8 * j, if 8 * j + 8 <= bits.len() { 8 * j + 8 } else { bits.len() as int })),
    )
}

/// The predicted image that a mode codes: Paeth for mode 4, else `diff_mode_spec`.
pub open spec fn eg2_diff(p: Seq<u8>, w: nat, mode: u8) -> Seq<u8> {
    if mode == 4 {
        paeth_spec(p, w)
    } else {
        diff_mode_spec(p, w, mode)
    }
}

/// The bytes of one EG-2 stream: header, zero-run codes, packed LSB first.
pub open spec fn eg2_stream(p: Seq<u8>, bpp: nat, w: nat, mode: u8, order: u8) -> Seq<u8> {
    lsb_pack(eg_header(mode, order) + eg_body(pixel_bits(eg2_diff(p, w, mode), bpp), 0, order as nat))
}

/// Mode of the `k`-th combination tried: raw for the first three, Paeth after.
pub open spec fn eg2_try_mode(k: nat) -> u8 {
    if k < 3 { 0 } else { 4 }
}

/// EG order of the `k`-th combination tried: 1, 2, 3 for each mode.
pub open spec fn eg2_try_order(k: nat) -> u8 {
    ((k % 3) + 1) as u8
}

/// Best of the first `k` combinations: a later one replaces the best only when strictly shorter.
pub open spec fn eg2_best_upto(p: Seq<u8>, bpp: nat, w: nat, k: nat) -> Option<(Seq<u8>, u8, u8)>
    decreases k,
{
    if k == 0 {
        None
    } else {
        let m = eg2_try_mode((k - 1) as nat);
        let o = eg2_try_order((k - 1) as nat);
        let cand = eg2_stream(p, bpp, w, m, o);
        match eg2_best_upto(p, bpp, w, (k - 1) as nat) {
            None => Some((cand, m, o)),
            Some(best) => if cand.len() < best.0.len() {
                Some((cand, m, o))
            } else {
                Some(best)
            },
        }
    }
}

/// The encoding `eg2_encode_frame` returns: the shortest of the six
/// (mode, order) streams, the earliest on ties, with its mode and order.
pub open spec fn eg2_best(p: Seq<u8>, bpp: nat, w: nat) -> (Seq<u8>, u8, u8) {
    eg2_best_upto(p, bpp, w, 6).unwrap()
}

fn pixel_bitstream(diff: &Vec<u8>, bpp: u8) -> (bits: Vec<u8>)
    requires
        bpp <= 8,
    ensures
        bits@ == pixel_bits(diff@, bpp as nat),
{
    let mut bits: Vec<u8> = Vec::new();
    let mut i: usize = 0;
    while i < diff.len()
        invariant
            i <= diff.len(),
            bpp <= 8,
            bits@ == pixel_bits(diff@.take(i as int), bpp as nat),
        decreases diff.len() - i,
    {
        let p = diff[i];
        let ghost before = bits@;
        let mut b: u8 = bpp;
        while b > 0
            invariant
                b <= bpp,
                bpp <= 8,
                bits@ == before + msb_bits(p as nat, bpp as nat).take((bpp - b) as int),
            decreases b,
        {
            b = b - 1;
            proof {
                vstd::bits::lemma_u8_shr_is_div(p, b);
            }
            let shifted: u8 = p >> b;
            assert(shifted & 1 == shifted % 2) by (bit_vector);
            bits.push(shifted & 1);
            assert(bits@ =~= before + msb_bits(p as nat, bpp as nat).take((bpp - b) as int));
        }
        assert(diff@.take(i + 1).drop_last() =~= diff@.take(i as int));
        assert(msb_bits(p as nat, bpp as nat).take(bpp as int) =~= msb_bits(p as nat, bpp as nat));
        i += 1;
    }
    assert(diff@.take(diff.len() as int) =~= diff@);
    bits
}

fn append_bits(out: &mut Vec<u8>, bits: Vec<u8>)
    ensures
        final(out)@ == old(out)@ + bits@,
{
    let mut bits = bits;
    out.append(&mut bits);
}

fn pack_lsb_first(bits: &Vec<u8>) -> (out: Vec<u8>)
    ensures
        out@ == lsb_pack(bits@),
        out.len() <= usize::MAX / 8 + 1,
{
    let blen = bits.len();
    let mut out: Vec<u8> = Vec::new();
    let mut start: usize = 0;
    if bits.len() == 0 {
        assert(out@ =~= lsb_pack(bits@));
        return out;
    }
    while start < bits.len()
        invariant
            start <= bits.len(),
            start < bits.len() ==> start == 8 * out.len(),
            start == bits.len() ==> out.len() == (bits.len() + 7) / 8,
            out.len() <= (bits.len() + 7) / 8,
            forall|j: int| 0 <= j < out.len() ==> out[j] == #[trigger] lsb_pack(bits@)[j],
        decreases bits.len() - start,
    {
        let end: usize = if bits.len() - start >= 8 { start + 8 } else { bits.len() };
        let mut byte: u8 = 0;
        let mut b: usize = 0;
        while start + b < end
            invariant
                start < end <= bits.len(),
                end <= start + 8,
                start + b <= end,
                byte == lsb_byte(bits@.subrange(start as int, (start + b) as int)),
            decreases end - start - b,
        {
            let bit = bits[start + b];
            assert(bits@.subrange(start as int, (start + b + 1) as int).drop_last()
                =~= bits@.subrange(start as int, (start + b) as int));
            byte = byte | (bit << (b as u8));
            b += 1;
        }
        let ghost j = out.len();
        assert(lsb_pack(bits@)[j as int] == byte);
        out.push(byte);
        start = end;
    }
    assert(out@ =~= lsb_pack(bits@));
    out
}

proof fn lemma_eg_split_step(run: nat, order: nat)
    requires
        run > 16383,
    ensures
        eg_split(run, order) == eg_code(16383, order) + eg_split((run - 16383) as nat, order),
{
}

fn eg_encode_stream(bitstream: &Vec<u8>, mode: u8, order: u8) -> (out: Vec<u8>)
    requires
        1 <= order <= 3,
    ensures
        out@ == lsb_pack(eg_header(mode, order) + eg_body(bitstream@, 0, order as nat)),
        out.len() <= usize::MAX / 8 + 1,
{
    let o: u8 = order - 1;
    let mut out_bits: Vec<u8> = Vec::new();
    out_bits.push(mode & 1);
    out_bits.push((mode >> 1u8) & 1);
    out_bits.push((mode >> 2u8) & 1);
    out_bits.push(o & 1);
    out_bits.push((o >> 1u8) & 1);
    let ghost header = out_bits@;
    assert(header =~= eg_header(mode, order));
    let ghost bits = bitstream@;
    proof {
        vstd::arithmetic::power2::lemma2_to64();
    }
    let nb = bitstream.len();
    let mut i: usize = 0;
    assert(out_bits@ + eg_body(bits, 0, order as nat) =~= header + eg_body(bits, 0, order as nat));
    while i < nb
        invariant
            i <= nb,
            nb == bits.len(),
            bits == bitstream@,
            1 <= order <= 3,
            pow2(order as nat) <= 8,
            out_bits@ + eg_body(bits, i as nat, order as nat) == header + eg_body(bits, 0, order as nat),
        decreases nb - i,
    {
        let ghost i0 = i as nat;
        let ghost before = out_bits@;
        proof {
            lemma_zero_run_bound(bits, i0);
        }
        let mut zero_run_len: usize = 0;
        while i < nb && bitstream[i] == 0
            invariant
                i0 <= i <= nb,
                nb == bits.len(),
                bits == bitstream@,
                i == i0 + zero_run_len,
                zero_run(bits, i0) == zero_run_len + zero_run(bits, i as nat),
            decreases nb - i,
        {
            zero_run_len += 1;
            i += 1;
        }
        assert(zero_run(bits, i as nat) == 0);
        let ghost run0 = zero_run_len as nat;
        let ghost mid = out_bits@;
        while zero_run_len > MAX_EG_RUN as usize
            invariant
                1 <= order <= 3,
                pow2(order as nat) <= 8,
                mid + eg_split(run0, order as nat) == out_bits@ + eg_split(zero_run_len as nat, order as nat),
            decreases zero_run_len,
        {
            let code = eg_encode_bits(MAX_EG_RUN, order);
            proof {
                lemma_eg_split_step(zero_run_len as nat, order as nat);
            }
            let ghost prev = out_bits@;
            append_bits(&mut out_bits, code);
            assert(prev + eg_split(zero_run_len as nat, order as nat) =~= out_bits@ + eg_split(
                (zero_run_len - MAX_EG_RUN) as nat,
                order as nat,
            ));
            zero_run_len -= MAX_EG_RUN as usize;
        }
        let code = eg_encode_bits(zero_run_len as u32, order);
        append_bits(&mut out_bits, code);
        assert(out_bits@ =~= before + eg_split(run0, order as nat));
        if i < nb {
            i += 1;
        }
        assert(out_bits@ + eg_body(bits, i as nat, order as nat) =~= before + eg_body(bits, i0, order as nat));
    }
    assert(eg_body(bits, i as nat, order as nat) =~= Seq::<u8>::empty());
    assert(out_bits@ =~= header + eg_body(bits, 0, order as nat));
    pack_lsb_first(&out_bits)
}

/// Encode a frame/data with best (diff mode, EG order) combo.
/// Tries modes 0 (raw) and 4 (paeth), EG orders 1-3.
/// Returns (compressed_bytes, best_mode, best_order).
pub fn eg2_encode_frame(pixels: &[u8], bpp: u8, w: usize, h: usize) -> (res: (Vec<u8>, u8, u8))
    requires
        bpp <= 8,
        pixels.len() > 0 ==> w > 0,
    ensures
        (res.0@, res.1, res.2) == eg2_best(pixels@, bpp as nat, w as nat),
        res.0.len() <= usize::MAX / 8 + 1,
{
    let mut best_bytes: Option<Vec<u8>> = None;
    let mut best_mode: u8 = 0;
    let mut best_order: u8 = 2;
    let mut mi: usize = 0;
    while mi < 2
        invariant
            mi <= 2,
            bpp <= 8,
            pixels.len() > 0 ==> w > 0,
            match eg2_best_upto(pixels@, bpp as nat, w as nat, (3 * mi) as nat) {
                None => best_bytes is None,
                Some(b) => best_bytes matches Some(v) && v@ == b.0 && best_mode == b.1 && best_order == b.2,
            },
            mi > 0 ==> best_bytes is Some,
            best_bytes matches Some(v) ==> v.len() <= usize::MAX / 8 + 1,
        decreases 2 - mi,
    {
        let mode: u8 = if mi == 0 { 0 } else { 4 };
        let diff = if mode == 4 {
            apply_paeth(pixels, w, h)
        } else {
            apply_diff_mode(pixels, w, h, mode)
        };
        assert(diff@ == eg2_diff(pixels@, w as nat, mode));
        let bitstream = pixel_bitstream(&diff, bpp);
        proof {
            lemma_pixel_bits_len(diff@, bpp as nat);
            assert(diff@.len() == pixels@.len());
        }
        let mut order: u8 = 1;
        while order <= 3
            invariant
                1 <= order <= 4,
                mi < 2,
                mode == (if mi == 0 { 0u8 } else { 4u8 }),
                bitstream@ == pixel_bits(eg2_diff(pixels@, w as nat, mode), bpp as nat),
                match eg2_best_upto(pixels@, bpp as nat, w as nat, (3 * mi + order - 1) as nat) {
                    None => best_bytes is None,
                    Some(b) => best_bytes matches Some(v) && v@ == b.0 && best_mode == b.1 && best_order == b.2,
                },
                mi > 0 || order > 1 ==> best_bytes is Some,
                best_bytes matches Some(v) ==> v.len() <= usize::MAX / 8 + 1,
            decreases 4 - order,
        {
            let out = eg_encode_stream(&bitstream, mode, order);
            let ghost k = (3 * mi + order - 1) as nat;
            assert(eg2_try_mode(k) == mode && eg2_try_order(k) == order);
            let replace = match &best_bytes {
                None => true,
                Some(b) => out.len() < b.len(),
            };
            if replace {
                best_bytes = Some(out);
                best_mode = mode;
                best_order = order;
            }
            order += 1;
        }
        mi += 1;
    }
    (best_bytes.unwrap(), best_mode, best_order)
}

pub proof fn lemma_pixel_bits_len(d: Seq<u8>, bpp: nat)
    ensures
        pixel_bits(d, bpp).len() == d.len() * bpp,
    decreases d.len(),
{
    if d.len() > 0 {
        lemma_pixel_bits_len(d.drop_last(), bpp);
        assert(d.len() * bpp == (d.len() - 1) * bpp + bpp) by (nonlinear_arith);
    }
}

/// The first `k` pixels restored from a differential image `d` of mode 1-3:
/// each entry XORed with its reference among the pixels already restored.
pub open spec fn undiff_prefix(d: Seq<u8>, w: nat, mode: u8, k: nat) -> Seq<u8>
    decreases k,
{
    if k == 0 {
        seq![]
    } else {
        let q = undiff_prefix(d, w, mode, (k - 1) as nat);
        q.push(d[k - 1] ^ diff_ref(q, w, mode, k - 1))
    }
}

/// The Paeth prediction of pixel `i` from its left, up and up-left neighbours in `p`.
pub open spec fn paeth_guess(p: Seq<u8>, w: nat, i: int) -> u8 {
    let x = i % (w as int);
    let y = i / (w as int);
    let a: int = if x > 0 { p[i - 1] as int } else { 0 };
    let b: int = if y > 0 { p[i - w] as int } else { 0 };
    let c: int = if x > 0 && y > 0 { p[i - w - 1] as int } else { 0 };
    paeth_pred(a, b, c) as u8
}

/// The first `k` pixels restored from a Paeth-predicted image `d`: each
/// entry XORed with the prediction from the pixels already restored.
pub open spec fn unpaeth_prefix(d: Seq<u8>, w: nat, k: nat) -> Seq<u8>
    decreases k,
{
    if k == 0 {
        seq![]
    } else {
        let q = unpaeth_prefix(d, w, (k - 1) as nat);
        q.push(d[k - 1] ^ paeth_guess(q, w, k - 1))
    }
}

/// In a `w`-wide image, the neighbours of pixel `i` (left when `x > 0`, up
/// when `y > 0`) come before it.
pub proof fn lemma_neighbours_before(w: nat, i: int)
    requires
        w > 0,
        i >= 0,
    ensures
        i % (w as int) > 0 ==> i >= 1,
        i / (w as int) > 0 ==> i >= w,
        i % (w as int) > 0 && i / (w as int) > 0 ==> i >= w + 1,
{
    vstd::arithmetic::div_mod::lemma_fundamental_div_mod(i, w as int);
    vstd::arithmetic::div_mod::lemma_mod_pos_bound(i, w as int);
    vstd::arithmetic::div_mod::lemma_div_pos_is_pos(i, w as int);
    assert(i / (w as int) > 0 ==> i >= w) by (nonlinear_arith)
        requires
            i == w * (i / (w as int)) + i % (w as int),
            i % (w as int) >= 0,
            w > 0,
    ;
    assert(i % (w as int) > 0 && i / (w as int) > 0 ==> i >= w + 1) by (nonlinear_arith)
        requires
            i == w * (i / (w as int)) + i % (w as int),
            i % (w as int) >= 0,
            w > 0,
    ;
}

/// Differential modes 1-3 lose nothing: restoring each pixel from its
/// reference, in order, gives the image back.
pub proof fn diff_mode_roundtrip(p: Seq<u8>, w: nat, mode: u8)
    requires
        1 <= mode <= 3,
        w > 0,
    ensures
        undiff_prefix(diff_mode_spec(p, w, mode), w, mode, p.len()) == p,
{
    lemma_undiff_prefix(p, w, mode, p.len());
    assert(p.take(p.len() as int) =~= p);
}

proof fn lemma_undiff_prefix(p: Seq<u8>, w: nat, mode: u8, k: nat)
    requires
        1 <= mode <= 3,
        w > 0,
        k <= p.len(),
    ensures
        undiff_prefix(diff_mode_spec(p, w, mode), w, mode, k) == p.take(k as int),
    decreases k,
{
    if k > 0 {
        let i = k - 1;
        lemma_undiff_prefix(p, w, mode, (k - 1) as nat);
        let q = p.take(i);
        lemma_neighbours_before(w, i);
        assert(diff_ref(q, w, mode, i) == diff_ref(p, w, mode, i));
        let d = diff_mode_spec(p, w, mode);
        let a = p[i];
        let r = diff_ref(p, w, mode, i);
        assert(d[i] == a ^ r);
        assert((a ^ r) ^ r == a) by (bit_vector);
        assert(q.push(a) =~= p.take(k as int));
    }
}

/// Paeth prediction loses nothing: restoring each pixel from the prediction
/// of the pixels already restored, in order, gives the image back.
pub proof fn paeth_roundtrip(p: Seq<u8>, w: nat)
    requires
        w > 0,
    ensures
        unpaeth_prefix(paeth_spec(p, w), w, p.len()) == p,
{
    lemma_unpaeth_prefix(p, w, p.len());
    assert(p.take(p.len() as int) =~= p);
}

proof fn lemma_unpaeth_prefix(p: Seq<u8>, w: nat, k: nat)
    requires
        w > 0,
        k <= p.len(),
    ensures
        unpaeth_prefix(paeth_spec(p, w), w, k) == p.take(k as int),
    decreases k,
{
    if k > 0 {
        let i = k - 1;
        lemma_unpaeth_prefix(p, w, (k - 1) as nat);
        let q = p.take(i);
        lemma_neighbours_before(w, i);
        assert(paeth_guess(q, w, i) == paeth_guess(p, w, i));
        let d = paeth_spec(p, w);
        let a = p[i];
        let g = paeth_guess(p, w, i);
        assert(d[i] == a ^ g);
        assert((a ^ g) ^ g == a) by (bit_vector);
        assert(q.push(a) =~= p.take(k as int));
    }
}

/// One Exp-Golomb code of order `order` read at the start of `b`: count the
/// leading zeros `z`, read the next `z + order + 1` bits as a number, subtract
/// `2^order`. Gives the value and the code's length.
pub open spec fn eg_read(b: Seq<u8>, order: nat) -> (nat, nat) {
    let z = zero_run(b, 0);
    let len = 2 * z + order + 1;
    ((bits_value(b.subrange(z as int, len as int)) - pow2(order)) as nat, len)
}

pub proof fn lemma_msb_bits_value(v: nat, n: nat)
    ensures
        bits_value(msb_bits(v, n)) == v % pow2(n),
    decreases n,
{
    vstd::arithmetic::power2::lemma2_to64();
    if n == 0 {
        assert(msb_bits(v, 0) =~= Seq::<u8>::empty());
        assert(v % 1 == 0);
    } else {
        let s = msb_bits(v, n);
        let t = msb_bits(v / 2, (n - 1) as nat);
        lemma_msb_bits_value(v / 2, (n - 1) as nat);
        vstd::arithmetic::power2::lemma_pow2_unfold(n);
        assert forall|k: int| 0 <= k < n - 1 implies #[trigger] s.drop_last()[k] == t[k] by {
            let e = (n - 1 - k) as nat;
            vstd::arithmetic::power2::lemma_pow2_unfold(e);
            vstd::arithmetic::power2::lemma_pow2_pos((e - 1) as nat);
            vstd::arithmetic::div_mod::lemma_div_denominator(v as int, 2, pow2((e - 1) as nat) as int);
            assert(pow2(e) == 2 * pow2((e - 1) as nat));
        }
        assert(s.drop_last() =~= t);
        assert(pow2(0) == 1);
        let last = s.last();
        assert(last == ((v / pow2(0)) % 2) as u8);
        assert(v / 1 == v) by (nonlinear_arith);
        assert(last == (v % 2) as u8);
        assert(last & 1u8 == last) by (bit_vector)
            requires
                last < 2,
        ;
        vstd::arithmetic::power2::lemma_pow2_pos((n - 1) as nat);
        vstd::arithmetic::div_mod::lemma_mod_breakdown(v as int, 2, pow2((n - 1) as nat) as int);
        assert(pow2(n) == 2 * pow2((n - 1) as nat));
    }
}

proof fn lemma_zero_run_prefix(z: nat, t: Seq<u8>, i: nat)
    requires
        i <= z,
        t.len() > 0,
        t[0] != 0,
    ensures
        zero_run(Seq::new(z, |k: int| 0u8) + t, i) == z - i,
    decreases z - i,
{
    let b = Seq::new(z, |k: int| 0u8) + t;
    if i < z {
        lemma_zero_run_prefix(z, t, i + 1);
    } else {
        assert(b[i as int] == t[0]);
    }
}

/// An Exp-Golomb code reads back: whatever follows it, reading a code at the
/// start gives the value and the length of the code.
pub proof fn eg_code_roundtrip(val: nat, order: nat, rest: Seq<u8>)
    ensures
        eg_read(eg_code(val, order) + rest, order) == (val, eg_code(val, order).len()),
{
    let v2 = val + pow2(order);
    let n = bit_length(v2);
    vstd::arithmetic::power2::lemma_pow2_pos(order);
    lemma_bit_length_bounds(v2);
    lemma_bit_length_between(v2, order, n);
    let z = (n - 1 - order) as nat;
    let m = msb_bits(v2, n);
    let c = eg_code(val, order);
    assert(c == Seq::new(z, |k: int| 0u8) + m);
    let b = c + rest;
    assert(b == Seq::new(z, |k: int| 0u8) + (m + rest));
    // the first bit of the value part is 1
    vstd::arithmetic::power2::lemma_pow2_pos((n - 1) as nat);
    vstd::arithmetic::div_mod::lemma_div_pos_is_pos(v2 as int, pow2((n - 1) as nat) as int);
    assert(v2 / pow2((n - 1) as nat) == 1) by {
        vstd::arithmetic::power2::lemma_pow2_unfold(n);
        vstd::arithmetic::div_mod::lemma_fundamental_div_mod(v2 as int, pow2((n - 1) as nat) as int);
        vstd::arithmetic::div_mod::lemma_mod_pos_bound(v2 as int, pow2((n - 1) as nat) as int);
        let q = v2 / pow2((n - 1) as nat);
        let r = v2 % pow2((n - 1) as nat);
        assert(q == 1) by (nonlinear_arith)
            requires
                v2 == pow2((n - 1) as nat) * q + r,
                0 <= r < pow2((n - 1) as nat),
                pow2((n - 1) as nat) <= v2 < pow2(n),
                pow2(n) == 2 * pow2((n - 1) as nat),
                q >= 0,
        ;
    }
    assert(m[0] == 1);
    assert((m + rest)[0] == 1);
    lemma_zero_run_prefix(z, m + rest, 0);
    assert(zero_run(b, 0) == z);
    assert(2 * z + order + 1 == z + n);
    assert(b.subrange(z as int, (z + n) as int) =~= m);
    lemma_msb_bits_value(v2, n);
    vstd::arithmetic::div_mod::lemma_small_mod(v2, pow2(n));
}

/// The chosen EG-2 stream is never longer than any of the six streams tried.
pub proof fn eg2_best_is_shortest(p: Seq<u8>, bpp: nat, w: nat, mode: u8, order: u8)
    requires
        mode == 0 || mode == 4,
        1 <= order <= 3,
    ensures
        eg2_best(p, bpp, w).0.len() <= eg2_stream(p, bpp, w, mode, order).len(),
{
    let j: nat = (if mode == 0 { 0nat } else { 3nat }) + (order - 1) as nat;
    assert(eg2_try_mode(j) == mode && eg2_try_order(j) == order);
    lemma_best_upto_shortest(p, bpp, w, 6, j);
}

proof fn lemma_best_upto_shortest(p: Seq<u8>, bpp: nat, w: nat, k: nat, j: nat)
    requires
        j < k,
    ensures
        eg2_best_upto(p, bpp, w, k) is Some,
        eg2_best_upto(p, bpp, w, k).unwrap().0.len() <= eg2_stream(p, bpp, w, eg2_try_mode(j), eg2_try_order(j)).len(),
    decreases k,
{
    if j < k - 1 {
        lemma_best_upto_shortest(p, bpp, w, (k - 1) as nat, j);
    } else if k > 1 {
        lemma_best_upto_shortest(p, bpp, w, (k - 1) as nat, 0);
    }
}

proof fn lemma_best_upto_first(p: Seq<u8>, bpp: nat, w: nat, k: nat)
    requires
        1 <= k <= 6,
    ensures
        ({
            let b = eg2_best_upto(p, bpp, w, k).unwrap();
            exists|t: int|
                #![trigger eg2_try_mode(t as nat)]
                0 <= t < k && eg2_try_mode(t as nat) == b.1 && eg2_try_order(t as nat) == b.2 && b.0 == eg2_stream(p, bpp, w, b.1, b.2)
                    && forall|j: int| 0 <= j < t ==> b.0.len() < #[trigger] eg2_stream(p, bpp, w, eg2_try_mode(j as nat), eg2_try_order(j as nat)).len()
        }),
        eg2_best_upto(p, bpp, w, k) is Some,
    decreases k,
{
    if k > 1 {
        lemma_best_upto_first(p, bpp, w, (k - 1) as nat);
        lemma_best_upto_shortest(p, bpp, w, (k - 1) as nat, 0);
        let prev = eg2_best_upto(p, bpp, w, (k - 1) as nat).unwrap();
        let j = (k - 1) as nat;
        let cand = eg2_stream(p, bpp, w, eg2_try_mode(j), eg2_try_order(j));
        if cand.len() < prev.0.len() {
            assert forall|jj: int| 0 <= jj < j implies cand.len() < #[trigger] eg2_stream(p, bpp, w, eg2_try_mode(jj as nat), eg2_try_order(jj as nat)).len() by {
                lemma_best_upto_shortest(p, bpp, w, (k - 1) as nat, jj as nat);
            }
        }
    }
}

/// `eg2_encode_frame` keeps the first shortest stream: of the six (mode,
/// order) pairs tried in the order (0,1), (0,2), (0,3), (4,1), (4,2), (4,3),
/// the kept one is the first whose stream is as short as any.
pub proof fn eg2_best_is_first_shortest(p: Seq<u8>, bpp: nat, w: nat)
    ensures
        ({
            let b = eg2_best(p, bpp, w);
            exists|t: int|
                #![trigger eg2_try_mode(t as nat)]
                0 <= t < 6 && eg2_try_mode(t as nat) == b.1 && eg2_try_order(t as nat) == b.2 && b.0 == eg2_stream(p, bpp, w, b.1, b.2)
                    && forall|j: int| 0 <= j < t ==> b.0.len() < #[trigger] eg2_stream(p, bpp, w, eg2_try_mode(j as nat), eg2_try_order(j as nat)).len()
        }),
        forall|j: int| 0 <= j < 6 ==> eg2_best(p, bpp, w).0.len() <= #[trigger] eg2_stream(p, bpp, w, eg2_try_mode(j as nat), eg2_try_order(j as nat)).len(),
{
    lemma_best_upto_first(p, bpp, w, 6);
    assert forall|j: int| 0 <= j < 6 implies eg2_best(p, bpp, w).0.len() <= #[trigger] eg2_stream(p, bpp, w, eg2_try_mode(j as nat), eg2_try_order(j as nat)).len() by {
        lemma_best_upto_shortest(p, bpp, w, 6, j as nat);
    }
}

} // verus!
