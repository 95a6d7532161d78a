//! Reading an EG-2 stream back: the decoder that the stream format implies,
//! and the proof that it restores what `eg2_encode_frame` coded.

use vstd::prelude::*;
use vstd::arithmetic::power2::pow2;
use crate::eg2::{
    eg_body, eg_code, eg_code_roundtrip, eg_read, eg_split, zero_run, lemma_zero_run_bound, lsb_byte, lsb_pack,
    msb_bits, pixel_bits, lemma_pixel_bits_len, lemma_msb_bits_value, eg_header, eg2_diff, eg2_stream,
    diff_mode_spec, diff_ref, paeth_spec, paeth_pred, undiff_prefix, unpaeth_prefix, diff_mode_roundtrip,
    paeth_roundtrip, lemma_neighbours_before, eg2_best, eg2_best_upto, eg2_try_mode, eg2_try_order,
};
use crate::rle::bits_value;

verus! {

/// `r` zero bits.
pub open spec fn zeros(r: nat) -> Seq<u8> {
    Seq::new(r, |k: int| 0u8)
}

/// Zero-run decoding of `code` into `n` bits: read one code and write that
/// many zero bits; then, unless `n` bits are written or the code was a full
/// `MAX_EG_RUN` piece of a longer run, write the one bit that ended the run.
pub open spec fn eg_unbody(code: Seq<u8>, n: nat, order: nat) -> Seq<u8>
    decreases code.len(),
{
    if n == 0 {
        seq![]
    } else {
        let (r, len) = eg_read(code, order);
        if len > code.len() {
            seq![]
        } else if r >= n {
            zeros(n)
        } else if r == 16383 {
            zeros(r) + eg_unbody(code.skip(len as int), (n - r) as nat, order)
        } else {
            zeros(r).push(1u8) + eg_unbody(code.skip(len as int), (n - r - 1) as nat, order)
        }
    }
}

/// Every entry is a single bit.
pub open spec fn is_bit_string(bits: Seq<u8>) -> bool {
    forall|q: int| 0 <= q < bits.len() ==> #[trigger] bits[q] <= 1
}

/// No run of zero bits that a one bit ends is a nonzero multiple of
/// `MAX_EG_RUN` long: the stream gives such a run's last full piece no mark,
/// so it would read back as running on.
pub open spec fn runs_readable(bits: Seq<u8>) -> bool {
    forall|i: int|
        0 <= i < bits.len() && (i == 0 || bits[i - 1] != 0) && i + zero_run(bits, i as nat) < bits.len()
            ==> #[trigger] zero_run(bits, i as nat) % 16383 != 0 || zero_run(bits, i as nat) == 0
}

/// A run that reaches the end of the stream reads back as that many zeros.
proof fn lemma_unsplit_last(r: nat, order: nat, rest: Seq<u8>)
    ensures
        eg_unbody(eg_split(r, order) + rest, r, order) == zeros(r),
    decreases r,
{
    if r > 16383 {
        let tail = eg_split((r - 16383) as nat, order) + rest;
        let c = eg_code(16383, order);
        eg_code_roundtrip(16383, order, tail);
        assert(eg_split(r, order) + rest =~= c + tail);
        assert((c + tail).skip(c.len() as int) =~= tail);
        lemma_unsplit_last((r - 16383) as nat, order, rest);
        assert(zeros(16383) + zeros((r - 16383) as nat) =~= zeros(r));
    } else if r > 0 {
        eg_code_roundtrip(r, order, rest);
    }
}

/// A run that a one bit ends reads back as its zeros and that one bit, and
/// reading goes on after its codes.
proof fn lemma_unsplit_marked(r: nat, order: nat, tail: Seq<u8>, n: nat)
    requires
        r % 16383 != 0 || r == 0,
        n > r,
    ensures
        eg_unbody(eg_split(r, order) + tail, n, order) == zeros(r).push(1u8) + eg_unbody(tail, (n - r - 1) as nat, order),
    decreases r,
{
    if r > 16383 {
        let t2 = eg_split((r - 16383) as nat, order) + tail;
        let c = eg_code(16383, order);
        eg_code_roundtrip(16383, order, t2);
        assert(eg_split(r, order) + tail =~= c + t2);
        assert((c + t2).skip(c.len() as int) =~= t2);
        assert(((r - 16383) as nat) % 16383 == r % 16383) by {
            vstd::arithmetic::div_mod::lemma_mod_sub_multiples_vanish(r as int, 16383);
        }
        lemma_unsplit_marked((r - 16383) as nat, order, tail, (n - 16383) as nat);
        assert(zeros(16383) + zeros((r - 16383) as nat).push(1u8) =~= zeros(r).push(1u8));
    } else {
        assert(r != 16383);
        eg_code_roundtrip(r, order, tail);
        assert((eg_code(r, order) + tail).skip(eg_code(r, order).len() as int) =~= tail);
    }
}

proof fn lemma_unbody_from(bits: Seq<u8>, i: nat, order: nat, rest: Seq<u8>)
    requires
        i <= bits.len(),
        i == 0 || bits[i - 1] != 0,
        is_bit_string(bits),
        runs_readable(bits),
    ensures
        eg_unbody(eg_body(bits, i, order) + rest, (bits.len() - i) as nat, order) == bits.skip(i as int),
    decreases bits.len() - i,
{
    if i == bits.len() {
        assert(bits.skip(i as int) =~= seq![]);
    } else {
        let r = zero_run(bits, i);
        lemma_zero_run_bound(bits, i);
        let j = i + r;
        if j < bits.len() {
            assert(bits[j as int] == 1);
            let next = eg_body(bits, j + 1, order);
            assert(eg_body(bits, i, order) == eg_split(r, order) + next);
            assert(eg_body(bits, i, order) + rest =~= eg_split(r, order) + (next + rest));
            let ii = i as int;
            assert(zero_run(bits, ii as nat) == r);
            assert(r % 16383 != 0 || r == 0);
            lemma_unsplit_marked(r, order, next + rest, (bits.len() - i) as nat);
            lemma_unbody_from(bits, j + 1, order, rest);
            assert(bits.skip(i as int) =~= zeros(r).push(1u8) + bits.skip((j + 1) as int));
        } else {
            assert(eg_body(bits, i, order) == eg_split(r, order));
            lemma_unsplit_last(r, order, rest);
            assert(bits.skip(i as int) =~= zeros(r));
        }
    }
}

/// Zero-run coding loses nothing: for a string of bits whose marked runs are
/// not whole multiples of `MAX_EG_RUN`, reading `bits.len()` bits back from
/// the codes, whatever follows them, gives the bits.
pub proof fn eg_body_roundtrip(bits: Seq<u8>, order: nat, rest: Seq<u8>)
    requires
        is_bit_string(bits),
        runs_readable(bits),
    ensures
        eg_unbody(eg_body(bits, 0, order) + rest, bits.len(), order) == bits,
{
    lemma_unbody_from(bits, 0, order, rest);
    assert(bits.skip(0) =~= bits);
}

/// The bits of a byte string, eight per byte, least significant first.
pub open spec fn lsb_unpack(bytes: Seq<u8>) -> Seq<u8> {
    Seq::new(8 * bytes.len(), |k: int| (bytes[k / 8] >> ((k % 8) as u8)) & 1u8)
}

proof fn lemma_or_shifted_bit(x: u8, l: u8, s: u8, t: u8, b: u8)
    by (bit_vector)
    requires
        x >> s == 0,
        l <= 1,
        s < 8,
        t == s + 1,
        b < 8,
    ensures
        ((x | (l << s)) >> b) & 1 == if b == s { l } else { (x >> b) & 1 },
        t < 8 ==> (x | (l << s)) >> t == 0,
{
}

/// Bit `b` of a packed chunk is entry `b` of the chunk, and nothing lies above it.
proof fn lemma_lsb_byte_bits(chunk: Seq<u8>)
    requires
        chunk.len() <= 8,
        is_bit_string(chunk),
    ensures
        forall|b: int| 0 <= b < chunk.len() ==> #[trigger] ((lsb_byte(chunk) >> (b as u8)) & 1u8) == chunk[b],
        chunk.len() < 8 ==> lsb_byte(chunk) >> (chunk.len() as u8) == 0,
    decreases chunk.len(),
{
    vstd::arithmetic::power2::lemma2_to64();
    if chunk.len() == 0 {
        vstd::bits::lemma_u8_shr_is_div(0, 0);
        assert(lsb_byte(chunk) == 0);
    } else {
        let c0 = chunk.drop_last();
        lemma_lsb_byte_bits(c0);
        let x = lsb_byte(c0);
        let l = chunk.last();
        let s = (chunk.len() - 1) as u8;
        if s == 0 {
            vstd::bits::lemma_u8_shr_is_div(0, 0);
        }
        assert(x >> s == 0);
        assert(lsb_byte(chunk) == x | ((l << s) as u8));
        assert(l <= 1);
        assert forall|b: int| 0 <= b < chunk.len() implies #[trigger] ((lsb_byte(chunk) >> (b as u8)) & 1u8) == chunk[b] by {
            lemma_or_shifted_bit(x, l, s, (s + 1) as u8, b as u8);
            if b < s {
                assert(((x >> (b as u8)) & 1u8) == c0[b]);
            }
        }
        lemma_or_shifted_bit(x, l, s, (s + 1) as u8, 0);
        assert((s + 1) as u8 == chunk.len() as u8);
    }
}

/// Packing bits into bytes least significant first loses nothing: the
/// first `bits.len()` bits of the packed bytes are the bits.
pub proof fn lsb_pack_roundtrip(bits: Seq<u8>)
    requires
        is_bit_string(bits),
    ensures
        lsb_unpack(lsb_pack(bits)).len() >= bits.len(),
        lsb_unpack(lsb_pack(bits)).take(bits.len() as int) == bits,
{
    let bytes = lsb_pack(bits);
    let u = lsb_unpack(bytes);
    assert forall|k: int| 0 <= k < bits.len() implies #[trigger] u[k] == bits[k] by {
        let j = k / 8;
        let b = k % 8;
        let end: int = if 8 * j + 8 <= bits.len() { 8 * j + 8 } else { bits.len() as int };
        let chunk = bits.subrange(8 * j, end);
        assert(bytes[j] == lsb_byte(chunk));
        assert(is_bit_string(chunk)) by {
            assert forall|q: int| 0 <= q < chunk.len() implies #[trigger] chunk[q] <= 1 by {
                assert(chunk[q] == bits[8 * j + q]);
            }
        }
        lemma_lsb_byte_bits(chunk);
        assert(chunk[b] == bits[k]);
    }
    assert(u.take(bits.len() as int) =~= bits);
}

/// `n` pixels of `bpp` bits each read from a bitstream, most significant bit first.
pub open spec fn pixel_unbits(bits: Seq<u8>, bpp: nat, n: nat) -> Seq<u8> {
    Seq::new(n, |k: int| bits_value(bits.subrange(k * bpp, k * bpp + bpp)) as u8)
}

proof fn lemma_pixel_bits_at(d: Seq<u8>, bpp: nat, k: int)
    requires
        0 <= k < d.len(),
    ensures
        pixel_bits(d, bpp).subrange(k * bpp, k * bpp + bpp) == msb_bits(d[k] as nat, bpp),
    decreases d.len(),
{
    let d0 = d.drop_last();
    lemma_pixel_bits_len(d0, bpp);
    let a = pixel_bits(d0, bpp);
    let m = msb_bits(d.last() as nat, bpp);
    assert(pixel_bits(d, bpp) == a + m);
    if k < d.len() - 1 {
        lemma_pixel_bits_at(d0, bpp, k);
        assert(k * bpp + bpp <= (d.len() - 1) * bpp) by (nonlinear_arith)
            requires
                k + 1 <= d.len() - 1,
        ;
        assert(0 <= k * bpp) by (nonlinear_arith)
            requires
                k >= 0,
        ;
        assert((a + m).subrange(k * bpp, k * bpp + bpp) =~= a.subrange(k * bpp, k * bpp + bpp));
    } else {
        assert((d.len() - 1) * bpp == d0.len() * bpp);
        assert((a + m).subrange(k * bpp, k * bpp + bpp) =~= m);
    }
}

proof fn lemma_pixel_bits_binary(d: Seq<u8>, bpp: nat)
    ensures
        is_bit_string(pixel_bits(d, bpp)),
    decreases d.len(),
{
    if d.len() > 0 {
        lemma_pixel_bits_binary(d.drop_last(), bpp);
        let a = pixel_bits(d.drop_last(), bpp);
        let m = msb_bits(d.last() as nat, bpp);
        assert forall|q: int| 0 <= q < (a + m).len() implies #[trigger] (a + m)[q] <= 1 by {
            if q >= a.len() {
                assert(m[q - a.len()] <= 1);
            }
        }
    }
}

/// Writing pixels of `bpp` bits into a bitstream loses nothing when every
/// pixel fits in `bpp` bits.
pub proof fn pixel_bits_roundtrip(d: Seq<u8>, bpp: nat)
    requires
        forall|i: int| 0 <= i < d.len() ==> #[trigger] d[i] < pow2(bpp),
    ensures
        pixel_unbits(pixel_bits(d, bpp), bpp, d.len()) == d,
{
    let u = pixel_unbits(pixel_bits(d, bpp), bpp, d.len());
    assert forall|k: int| 0 <= k < d.len() implies #[trigger] u[k] == d[k] by {
        lemma_pixel_bits_at(d, bpp, k);
        lemma_msb_bits_value(d[k] as nat, bpp);
        vstd::arithmetic::div_mod::lemma_small_mod(d[k] as nat, pow2(bpp));
    }
    assert(u =~= d);
}

proof fn lemma_xor_below_shift(x: u8, y: u8, b: u8)
    by (bit_vector)
    requires
        x >> b == 0,
        y >> b == 0,
        b < 8,
    ensures
        (x ^ y) >> b == 0,
{
}

proof fn lemma_below_pow2_shift(x: u8, bpp: nat)
    requires
        bpp < 8,
    ensures
        (x >> (bpp as u8) == 0) <==> x < pow2(bpp),
{
    vstd::bits::lemma_u8_shr_is_div(x, bpp as u8);
    vstd::arithmetic::power2::lemma_pow2_pos(bpp);
    vstd::arithmetic::div_mod::lemma_fundamental_div_mod(x as int, pow2(bpp) as int);
    vstd::arithmetic::div_mod::lemma_mod_pos_bound(x as int, pow2(bpp) as int);
    if x < pow2(bpp) {
        vstd::arithmetic::div_mod::lemma_basic_div(x as int, pow2(bpp) as int);
    } else {
        vstd::arithmetic::div_mod::lemma_div_pos_is_pos(x as int, pow2(bpp) as int);
        vstd::arithmetic::div_mod::lemma_div_is_ordered(pow2(bpp) as int, x as int, pow2(bpp) as int);
        vstd::arithmetic::div_mod::lemma_div_by_self(pow2(bpp) as int);
    }
}

/// Two values of `bpp` bits XOR to a value of `bpp` bits.
proof fn lemma_xor_below(x: u8, y: u8, bpp: nat)
    requires
        bpp <= 8,
        x < pow2(bpp),
        y < pow2(bpp),
    ensures
        (x ^ y) < pow2(bpp),
{
    vstd::arithmetic::power2::lemma2_to64();
    if bpp < 8 {
        lemma_below_pow2_shift(x, bpp);
        lemma_below_pow2_shift(y, bpp);
        lemma_xor_below_shift(x, y, bpp as u8);
        lemma_below_pow2_shift(x ^ y, bpp);
    }
}

/// Every predictor keeps pixels of `bpp` bits within `bpp` bits.
proof fn lemma_diff_below(p: Seq<u8>, w: nat, mode: u8, bpp: nat)
    requires
        w > 0,
        mode <= 4,
        bpp <= 8,
        forall|i: int| 0 <= i < p.len() ==> #[trigger] p[i] < pow2(bpp),
    ensures
        eg2_diff(p, w, mode).len() == p.len(),
        forall|i: int| 0 <= i < p.len() ==> #[trigger] eg2_diff(p, w, mode)[i] < pow2(bpp),
{
    vstd::arithmetic::power2::lemma_pow2_pos(bpp);
    assert forall|i: int| 0 <= i < p.len() implies #[trigger] eg2_diff(p, w, mode)[i] < pow2(bpp) by {
        lemma_neighbours_before(w, i);
        let x = i % (w as int);
        let y = i / (w as int);
        if mode == 4 {
            let a: int = if x > 0 { p[i - 1] as int } else { 0 };
            let b: int = if y > 0 { p[i - w] as int } else { 0 };
            let c: int = if x > 0 && y > 0 { p[i - w - 1] as int } else { 0 };
            let g = paeth_pred(a, b, c);
            assert(g == a || g == b || g == c);
            assert(0 <= g < pow2(bpp));
            assert((g as u8) as int == g);
            lemma_xor_below(p[i], g as u8, bpp);
            assert(paeth_spec(p, w)[i] == p[i] ^ (g as u8));
        } else if mode != 0 {
            let r = diff_ref(p, w, mode, i);
            assert(r < pow2(bpp));
            lemma_xor_below(p[i], r, bpp);
        }
    }
}

proof fn lemma_split_binary(r: nat, order: nat)
    ensures
        is_bit_string(eg_split(r, order)),
    decreases r,
{
    let c = eg_code(if r > 16383 { 16383 } else { r }, order);
    assert(is_bit_string(c));
    if r > 16383 {
        lemma_split_binary((r - 16383) as nat, order);
        let t = eg_split((r - 16383) as nat, order);
        assert forall|q: int| 0 <= q < (c + t).len() implies #[trigger] (c + t)[q] <= 1 by {
            if q >= c.len() {
                assert(t[q - c.len()] <= 1);
            }
        }
    }
}

proof fn lemma_body_binary(bits: Seq<u8>, i: nat, order: nat)
    ensures
        is_bit_string(eg_body(bits, i, order)),
    decreases bits.len() - i,
{
    if i < bits.len() {
        let r = zero_run(bits, i);
        lemma_zero_run_bound(bits, i);
        let j = i + r;
        lemma_split_binary(r, order);
        let sp = eg_split(r, order);
        if j < bits.len() {
            lemma_body_binary(bits, j + 1, order);
            let t = eg_body(bits, j + 1, order);
            assert forall|q: int| 0 <= q < (sp + t).len() implies #[trigger] (sp + t)[q] <= 1 by {
                if q >= sp.len() {
                    assert(t[q - sp.len()] <= 1);
                }
            }
        } else {
            assert(eg_body(bits, i, order) =~= sp);
        }
    }
}

proof fn lemma_header_fields(mode: u8, o: u8)
    by (bit_vector)
    requires
        mode < 8,
        o < 4,
    ensures
        (mode & 1) + 2 * ((mode >> 1) & 1) + 4 * ((mode >> 2) & 1) == mode,
        (o & 1) + 2 * ((o >> 1) & 1) == o,
        mode & 1 <= 1,
        (mode >> 1) & 1 <= 1,
        (mode >> 2) & 1 <= 1,
        o & 1 <= 1,
        (o >> 1) & 1 <= 1,
{
}

/// Decoding an EG-2 stream of `n` pixels of `bpp` bits in a `w`-wide image:
/// unpack the bits, read the mode and order from the header, read back
/// `n * bpp` bits of zero runs, cut them into pixels and undo the predictor.
pub open spec fn eg2_decode(data: Seq<u8>, n: nat, bpp: nat, w: nat) -> Seq<u8> {
    let bits = lsb_unpack(data);
    let mode = (bits[0] + 2 * bits[1] + 4 * bits[2]) as u8;
    let order = (bits[3] + 2 * bits[4] + 1) as nat;
    let d = pixel_unbits(eg_unbody(bits.skip(5), n * bpp, order), bpp, n);
    if mode == 4 {
        unpaeth_prefix(d, w, n)
    } else if mode == 0 {
        d
    } else {
        undiff_prefix(d, w, mode, n)
    }
}

/// An EG-2 stream decodes to the image it was made from, for pixels of
/// `bpp` bits, whenever no marked run of zero bits in its bitstream is a
/// nonzero multiple of `MAX_EG_RUN` long.
pub proof fn eg2_stream_roundtrip(p: Seq<u8>, bpp: nat, w: nat, mode: u8, order: u8)
    requires
        1 <= bpp <= 8,
        w > 0,
        mode <= 4,
        1 <= order <= 3,
        forall|i: int| 0 <= i < p.len() ==> #[trigger] p[i] < pow2(bpp),
        runs_readable(pixel_bits(eg2_diff(p, w, mode), bpp)),
    ensures
        eg2_decode(eg2_stream(p, bpp, w, mode, order), p.len(), bpp, w) == p,
{
    let d = eg2_diff(p, w, mode);
    lemma_diff_below(p, w, mode, bpp);
    let bits = pixel_bits(d, bpp);
    lemma_pixel_bits_binary(d, bpp);
    lemma_pixel_bits_len(d, bpp);
    let body = eg_body(bits, 0, order as nat);
    lemma_body_binary(bits, 0, order as nat);
    let h = eg_header(mode, order);
    let o = (order - 1) as u8;
    lemma_header_fields(mode, o);
    let all = h + body;
    assert(is_bit_string(all)) by {
        assert forall|q: int| 0 <= q < all.len() implies #[trigger] all[q] <= 1 by {
            if q >= 5 {
                assert(body[q - 5] <= 1);
            }
        }
    }
    let data = lsb_pack(all);
    assert(eg2_stream(p, bpp, w, mode, order) == data);
    lsb_pack_roundtrip(all);
    let u = lsb_unpack(data);
    let pad = u.skip(all.len() as int);
    assert(u =~= all + pad) by {
        assert(u.take(all.len() as int) == all);
        assert forall|q: int| 0 <= q < u.len() implies #[trigger] u[q] == (all + pad)[q] by {
            if q < all.len() {
                assert(u.take(all.len() as int)[q] == u[q]);
            }
        }
    }
    assert(u[0] == mode & 1u8 && u[1] == (mode >> 1u8) & 1u8 && u[2] == (mode >> 2u8) & 1u8);
    assert(u[3] == o & 1u8 && u[4] == (o >> 1u8) & 1u8);
    assert(u.skip(5) =~= body + pad);
    eg_body_roundtrip(bits, order as nat, pad);
    assert(bits.len() == p.len() * bpp);
    pixel_bits_roundtrip(d, bpp);
    if mode == 4 {
        paeth_roundtrip(p, w);
    } else if mode != 0 {
        diff_mode_roundtrip(p, w, mode);
    }
}

proof fn lemma_best_upto_is_stream(p: Seq<u8>, bpp: nat, w: nat, k: nat)
    requires
        1 <= k <= 6,
    ensures
        eg2_best_upto(p, bpp, w, k) is Some,
        ({
            let b = eg2_best_upto(p, bpp, w, k).unwrap();
            &&& b.0 == eg2_stream(p, bpp, w, b.1, b.2)
            &&& b.1 == 0 || b.1 == 4
            &&& 1 <= b.2 <= 3
        }),
    decreases k,
{
    let j = (k - 1) as nat;
    let m = eg2_try_mode(j);
    let o = eg2_try_order(j);
    let cand = eg2_stream(p, bpp, w, m, o);
    assert(m == 0 || m == 4);
    assert(1 <= o <= 3);
    if k > 1 {
        lemma_best_upto_is_stream(p, bpp, w, j);
        let prev = eg2_best_upto(p, bpp, w, j).unwrap();
        if cand.len() < prev.0.len() {
            assert(eg2_best_upto(p, bpp, w, k) == Some((cand, m, o)));
        } else {
            assert(eg2_best_upto(p, bpp, w, k) == Some(prev));
        }
    } else {
        assert(eg2_best_upto(p, bpp, w, 0) is None);
        assert(eg2_best_upto(p, bpp, w, k) == Some((cand, m, o)));
    }
}

/// What `eg2_encode_frame` returns decodes to the image it was given, for
/// pixels of `bpp` bits, whenever no marked run of zero bits in the chosen
/// mode's bitstream is a nonzero multiple of `MAX_EG_RUN` long.
pub proof fn eg2_frame_roundtrip(p: Seq<u8>, bpp: nat, w: nat)
    requires
        1 <= bpp <= 8,
        w > 0,
        forall|i: int| 0 <= i < p.len() ==> #[trigger] p[i] < pow2(bpp),
        runs_readable(pixel_bits(eg2_diff(p, w, eg2_best(p, bpp, w).1), bpp)),
    ensures
        eg2_decode(eg2_best(p, bpp, w).0, p.len(), bpp, w) == p,
{
    lemma_best_upto_is_stream(p, bpp, w, 6);
    let b = eg2_best(p, bpp, w);
    eg2_stream_roundtrip(p, bpp, w, b.1, b.2);
}

} // verus!
