//! Run-length, delta and bit-packing encoders used by the animation blocks.

use vstd::prelude::*;
use vstd::arithmetic::power2::pow2;

verus! {

/// Number of leading elements of `s` equal to `c`, counting at most `cap` of them.
pub open spec fn lead_run(s: Seq<u8>, c: u8, cap: nat) -> nat
    decreases s.len(),
{
    if s.len() == 0 || cap == 0 || s[0] != c {
        0
    } else {
        1 + lead_run(s.drop_first(), c, (cap - 1) as nat)
    }
}

pub proof fn lemma_lead_run_bounds(s: Seq<u8>, c: u8, cap: nat)
    ensures
        lead_run(s, c, cap) <= cap,
        lead_run(s, c, cap) <= s.len(),
        forall|i: int| 0 <= i < lead_run(s, c, cap) ==> s[i] == c,
        lead_run(s, c, cap) < s.len() && lead_run(s, c, cap) < cap ==> s[lead_run(s, c, cap) as int] != c,
        s.len() > 0 && cap > 0 && s[0] == c ==> lead_run(s, c, cap) >= 1,
    decreases s.len(),
{
    if s.len() == 0 || cap == 0 || s[0] != c {
    } else {
        lemma_lead_run_bounds(s.drop_first(), c, (cap - 1) as nat);
        let r = lead_run(s, c, cap);
        assert forall|i: int| 0 <= i < r implies s[i] == c by {
            if i > 0 {
                assert(s[i] == s.drop_first()[i - 1]);
            }
        }
        if r < s.len() && r < cap {
            assert(s[r as int] == s.drop_first()[r - 1]);
        }
    }
}

/// A run of `k` copies of `c` followed by `rest` has a leading run of
/// `k` plus whatever run of `c` starts `rest`.
pub proof fn lemma_lead_run_prefix(c: u8, k: nat, rest: Seq<u8>, cap: nat)
    requires
        k <= cap,
    ensures
        lead_run(Seq::new(k, |i: int| c) + rest, c, cap) == k + lead_run(rest, c, (cap - k) as nat),
    decreases k,
{
    let s = Seq::new(k, |i: int| c) + rest;
    if k > 0 {
        assert(s.drop_first() =~= Seq::new((k - 1) as nat, |i: int| c) + rest);
        lemma_lead_run_prefix(c, (k - 1) as nat, rest, (cap - 1) as nat);
    } else {
        assert(s =~= rest);
    }
}

/// One nibble-RLE byte: the colour in the high nibble, `run - 1` in the low nibble.
pub open spec fn nibble_byte(c: u8, run: nat) -> u8 {
    ((c << 4u8) | ((run - 1) as u8)) as u8
}

/// Basic nibble RLE of `p`: maximal runs of one colour, cut every 16 pixels.
pub open spec fn nibble_runs(p: Seq<u8>) -> Seq<u8>
    decreases p.len(),
{
    if p.len() == 0 {
        seq![]
    } else {
        let r = lead_run(p, p[0], 16);
        proof {
            lemma_lead_run_bounds(p, p[0], 16);
        }
        seq![nibble_byte(p[0], r)] + nibble_runs(p.skip(r as int))
    }
}

/// Bytes written for a pending run of `count` pixels of colour `c`, in pieces of at most 16.
pub open spec fn nibble_emit(c: u8, count: nat) -> Seq<u8>
    decreases count,
{
    if count == 0 {
        seq![]
    } else if count <= 16 {
        seq![nibble_byte(c, count)]
    } else {
        seq![nibble_byte(c, 16)] + nibble_emit(c, (count - 16) as nat)
    }
}

fn emit_nibble_run(out: &mut Vec<u8>, color: u8, count: u32)
    ensures
        final(out)@ == old(out)@ + nibble_emit(color, count as nat),
{
    let mut count = count;
    let ghost start = out@;
    let ghost total = count as nat;
    while count > 0
        invariant
            start + nibble_emit(color, total) == out@ + nibble_emit(color, count as nat),
        decreases count,
    {
        let run: u32 = if count < 16 { count } else { 16 };
        let b: u8 = (color << 4u8) | ((run as u8) - 1);
        let ghost before = out@;
        out.push(b);
        assert(before + nibble_emit(color, count as nat) =~= out@ + nibble_emit(color, (count - run) as nat));
        count = count - run;
    }
    assert(out@ + nibble_emit(color, 0) =~= out@);
}


/// Splitting off a pending run: `k` pixels of `c` that the next pixel cannot extend.
proof fn lemma_nibble_runs_split(c: u8, k: nat, rest: Seq<u8>)
    requires
        1 <= k <= 16,
        rest.len() > 0 ==> (rest[0] != c || k == 16),
    ensures
        nibble_runs(Seq::new(k, |i: int| c) + rest) == seq![nibble_byte(c, k)] + nibble_runs(rest),
        nibble_emit(c, k) == seq![nibble_byte(c, k)],
{
    let s = Seq::new(k, |i: int| c) + rest;
    lemma_lead_run_prefix(c, k, rest, 16);
    assert(s[0] == c);
    assert(lead_run(rest, c, (16 - k) as nat) == 0);
    assert(s.skip(k as int) =~= rest);
}

/// Basic nibble RLE: byte = (color << 4) | (run-1), max run 16.
pub fn nibble_rle_encode(pixels: &[u8]) -> (out: Vec<u8>)
    ensures
        out@ == nibble_runs(pixels@),
{
    if pixels.len() == 0 {
        return Vec::new();
    }
    let mut out: Vec<u8> = Vec::new();
    let mut cur_color: u8 = pixels[0];
    let mut cur_count: u32 = 1;
    let mut i: usize = 1;
    assert(Seq::new(1, |j: int| cur_color) + pixels@.skip(1) =~= pixels@);
    while i < pixels.len()
        invariant
            1 <= i <= pixels.len(),
            1 <= cur_count <= 16,
            out@ + nibble_runs(Seq::new(cur_count as nat, |j: int| cur_color) + pixels@.skip(i as int))
                == nibble_runs(pixels@),
        decreases pixels.len() - i,
    {
        let p = pixels[i];
        if p == cur_color && cur_count < 16 {
            assert(Seq::new(cur_count as nat, |j: int| cur_color) + pixels@.skip(i as int)
                =~= Seq::new((cur_count + 1) as nat, |j: int| cur_color) + pixels@.skip(i + 1));
            cur_count += 1;
        } else {
            proof {
                lemma_nibble_runs_split(cur_color, cur_count as nat, pixels@.skip(i as int));
                assert(Seq::new(1, |j: int| p) + pixels@.skip(i + 1) =~= pixels@.skip(i as int));
            }
            emit_nibble_run(&mut out, cur_color, cur_count);
            cur_color = p;
            cur_count = 1;
        }
        i += 1;
    }
    proof {
        lemma_nibble_runs_split(cur_color, cur_count as nat, pixels@.skip(i as int));
        assert(nibble_runs(pixels@.skip(i as int)) =~= Seq::<u8>::empty());
    }
    emit_nibble_run(&mut out, cur_color, cur_count);
    out
}

/// Expands nibble-RLE bytes: each byte stands for `(b & 15) + 1` pixels of colour `b >> 4`.
pub open spec fn nibble_decode(b: Seq<u8>) -> Seq<u8>
    decreases b.len(),
{
    if b.len() == 0 {
        seq![]
    } else {
        Seq::new(((b[0] & 15u8) + 1) as nat, |i: int| b[0] >> 4u8) + nibble_decode(b.drop_first())
    }
}

/// Nibble RLE loses nothing: decoding the encoding of 4-bit pixels gives them back.
pub proof fn nibble_rle_roundtrip(pixels: Seq<u8>)
    requires
        forall|i: int| 0 <= i < pixels.len() ==> pixels[i] < 16,
    ensures
        nibble_decode(nibble_runs(pixels)) == pixels,
    decreases pixels.len(),
{
    if pixels.len() > 0 {
        let c = pixels[0];
        let r = lead_run(pixels, c, 16);
        lemma_lead_run_bounds(pixels, c, 16);
        let rest = pixels.skip(r as int);
        nibble_rle_roundtrip(rest);
        let b = nibble_byte(c, r);
        let rm1 = (r - 1) as u8;
        assert(((c << 4u8) | rm1) & 15u8 == rm1 && ((c << 4u8) | rm1) >> 4u8 == c) by (bit_vector)
            requires
                c < 16,
                rm1 < 16,
        ;
        assert((seq![b] + nibble_runs(rest)).drop_first() =~= nibble_runs(rest));
        assert(Seq::new(r, |i: int| c) + rest =~= pixels);
    }
}


/// Largest run field of the extended RLE at `bpp` bits per colour: `2^(8 - bpp) - 1`.
pub open spec fn ext_run_mask(bpp: u8) -> nat {
    (pow2((8 - bpp) as nat) - 1) as nat
}

/// One extended-RLE byte: `(color << run_bits) | field`, with `run_bits = 8 - bpp`.
pub open spec fn ext_byte(c: u8, bpp: u8, field: u8) -> u8 {
    ((c << ((8 - bpp) as u8)) | field) as u8
}

/// Bytes for one run of `count` pixels of colour `c`. A run that does not fit
/// the run field takes an escape byte (field = mask) followed by an extra
/// length byte, `count - (mask + 1)` truncated to a byte, and then continues.
pub open spec fn ext_emit(c: u8, bpp: u8, count: nat) -> Seq<u8>
    decreases count,
{
    let mask = ext_run_mask(bpp);
    if count == 0 {
        seq![]
    } else if count <= mask {
        seq![ext_byte(c, bpp, (count - 1) as u8)]
    } else {
        let ext = ((count - (mask + 1)) as nat) % 256;
        seq![ext_byte(c, bpp, mask as u8), ext as u8] + ext_emit(c, bpp, (count - (mask + 1) - ext) as nat)
    }
}

/// Extended RLE of `p`: every maximal run of one colour, written by `ext_emit`.
pub open spec fn ext_runs(p: Seq<u8>, bpp: u8) -> Seq<u8>
    decreases p.len(),
{
    if p.len() == 0 {
        seq![]
    } else {
        let r = lead_run(p, p[0], p.len());
        proof {
            lemma_lead_run_bounds(p, p[0], p.len());
        }
        ext_emit(p[0], bpp, r) + ext_runs(p.skip(r as int), bpp)
    }
}

fn emit_ext_run(out: &mut Vec<u8>, color: u8, count: usize, bpp: u8, run_bits: u8, run_mask: u32)
    requires
        1 <= bpp <= 8,
        run_bits == 8 - bpp,
        run_mask == ext_run_mask(bpp),
    ensures
        final(out)@ == old(out)@ + ext_emit(color, bpp, count as nat),
{
    proof {
        vstd::arithmetic::power2::lemma2_to64();
    }
    assert(run_mask <= 127) by {
        vstd::arithmetic::power2::lemma2_to64();
    }
    let mut count = count;
    let ghost start = out@;
    let ghost total = count as nat;
    while count > 0
        invariant
            start + ext_emit(color, bpp, total) == out@ + ext_emit(color, bpp, count as nat),
            1 <= bpp <= 8,
            run_bits == 8 - bpp,
            run_mask == ext_run_mask(bpp),
            run_mask <= 127,
        decreases count,
    {
        let ghost before = out@;
        if count <= run_mask as usize {
            out.push((color << run_bits) | ((count as u8) - 1));
            assert(before + ext_emit(color, bpp, count as nat) =~= out@ + ext_emit(color, bpp, 0));
            count = 0;
        } else {
            let ext: u8 = ((count - (run_mask as usize + 1)) % 256) as u8;
            out.push((color << run_bits) | (run_mask as u8));
            out.push(ext);
            assert(before + ext_emit(color, bpp, count as nat) =~= out@ + ext_emit(
                color,
                bpp,
                (count - (run_mask as usize + 1 + ext as usize)) as nat,
            ));
            count = count - (run_mask as usize + 1 + ext as usize);
        }
    }
    assert(out@ + ext_emit(color, bpp, 0) =~= out@);
}

proof fn lemma_ext_runs_split(c: u8, bpp: u8, k: nat, rest: Seq<u8>)
    requires
        k >= 1,
        rest.len() > 0 ==> rest[0] != c,
    ensures
        ext_runs(Seq::new(k, |i: int| c) + rest, bpp) == ext_emit(c, bpp, k) + ext_runs(rest, bpp),
{
    let s = Seq::new(k, |i: int| c) + rest;
    lemma_lead_run_prefix(c, k, rest, s.len());
    assert(s[0] == c);
    assert(lead_run(rest, c, (s.len() - k) as nat) == 0);
    assert(s.skip(k as int) =~= rest);
}

/// Extended bpp-aware RLE: byte = (color << run_bits) | (run-1).
/// run_bits = 8 - bpp. Escape when run-1 == run_mask.
pub fn ext_nibble_rle_encode(pixels: &[u8], bpp: u8) -> (out: Vec<u8>)
    requires
        pixels.len() > 0 ==> 1 <= bpp <= 8,
    ensures
        out@ == ext_runs(pixels@, bpp),
{
    if pixels.len() == 0 {
        return Vec::new();
    }
    let run_bits: u8 = 8 - bpp;
    proof {
        vstd::arithmetic::power2::lemma2_to64();
        vstd::bits::lemma_u32_shl_is_mul(1, run_bits as u32);
    }
    let run_mask: u32 = (1u32 << run_bits) - 1;
    let mut out: Vec<u8> = Vec::new();
    let mut cur_color: u8 = pixels[0];
    let mut cur_count: usize = 1;
    let mut i: usize = 1;
    assert(Seq::new(1, |j: int| cur_color) + pixels@.skip(1) =~= pixels@);
    while i < pixels.len()
        invariant
            1 <= i <= pixels.len(),
            1 <= cur_count <= i,
            1 <= bpp <= 8,
            run_bits == 8 - bpp,
            run_mask == ext_run_mask(bpp),
            out@ + ext_runs(Seq::new(cur_count as nat, |j: int| cur_color) + pixels@.skip(i as int), bpp)
                == ext_runs(pixels@, bpp),
        decreases pixels.len() - i,
    {
        let p = pixels[i];
        if p == cur_color {
            assert(Seq::new(cur_count as nat, |j: int| cur_color) + pixels@.skip(i as int)
                =~= Seq::new((cur_count + 1) as nat, |j: int| cur_color) + pixels@.skip(i + 1));
            cur_count += 1;
        } else {
            proof {
                lemma_ext_runs_split(cur_color, bpp, cur_count as nat, pixels@.skip(i as int));
                assert(Seq::new(1, |j: int| p) + pixels@.skip(i + 1) =~= pixels@.skip(i as int));
            }
            emit_ext_run(&mut out, cur_color, cur_count, bpp, run_bits, run_mask);
            cur_color = p;
            cur_count = 1;
        }
        i += 1;
    }
    proof {
        lemma_ext_runs_split(cur_color, bpp, cur_count as nat, pixels@.skip(i as int));
        assert(ext_runs(pixels@.skip(i as int), bpp) =~= Seq::<u8>::empty());
    }
    emit_ext_run(&mut out, cur_color, cur_count, bpp, run_bits, run_mask);
    out
}


/// Expands extended-RLE bytes. A byte whose run field is below the mask stands
/// for `field + 1` pixels; an escape byte (field = mask) followed by `e`
/// stands for `mask + 1 + e` pixels. The colour is the byte shifted down by `8 - bpp`.
pub open spec fn ext_decode(b: Seq<u8>, bpp: u8) -> Seq<u8>
    decreases b.len(),
{
    if b.len() == 0 {
        seq![]
    } else {
        let mask = ext_run_mask(bpp);
        let c = b[0] >> ((8 - bpp) as u8);
        let field = b[0] & (mask as u8);
        if field as nat == mask && b.len() >= 2 {
            Seq::new(mask + 1 + b[1] as nat, |i: int| c) + ext_decode(b.skip(2), bpp)
        } else {
            Seq::new(field as nat + 1, |i: int| c) + ext_decode(b.drop_first(), bpp)
        }
    }
}

proof fn lemma_ext_byte_fields(c: u8, bpp: u8, field: u8)
    requires
        1 <= bpp <= 8,
        (c as nat) < pow2(bpp as nat),
        (field as nat) <= ext_run_mask(bpp),
    ensures
        ext_byte(c, bpp, field) >> ((8 - bpp) as u8) == c,
        ext_byte(c, bpp, field) & (ext_run_mask(bpp) as u8) == field,
{
    let rb = (8 - bpp) as u8;
    vstd::arithmetic::power2::lemma2_to64();
    vstd::bits::lemma_u32_shl_is_mul(1, rb as u32);
    vstd::bits::lemma_u32_shl_is_mul(1, bpp as u32);
    let m = ext_run_mask(bpp) as u8;
    let b32 = bpp as u32;
    assert(((c << rb) | field) >> rb == c && ((c << rb) | field) & m == field) by (bit_vector)
        requires
            rb <= 7,
            b32 == 8u32 - (rb as u32),
            (m as u32) == (1u32 << (rb as u32)) - 1,
            (field as u32) <= (m as u32),
            (c as u32) < (1u32 << b32),
    ;
}

proof fn lemma_ext_emit_decode(c: u8, bpp: u8, count: nat, rest: Seq<u8>)
    requires
        1 <= bpp <= 8,
        (c as nat) < pow2(bpp as nat),
    ensures
        ext_decode(ext_emit(c, bpp, count) + rest, bpp) == Seq::new(count, |i: int| c) + ext_decode(rest, bpp),
    decreases count,
{
    let mask = ext_run_mask(bpp);
    vstd::arithmetic::power2::lemma2_to64();
    assert(mask <= 127);
    if count == 0 {
        assert(ext_emit(c, bpp, count) + rest =~= rest);
        assert(Seq::new(count, |i: int| c) + ext_decode(rest, bpp) =~= ext_decode(rest, bpp));
    } else if count <= mask {
        let b = ext_emit(c, bpp, count) + rest;
        lemma_ext_byte_fields(c, bpp, (count - 1) as u8);
        assert(b.drop_first() =~= rest);
        assert(b[0] & (mask as u8) == (count - 1) as u8);
    } else {
        let ext = ((count - (mask + 1)) as nat) % 256;
        let next = (count - (mask + 1) - ext) as nat;
        lemma_ext_byte_fields(c, bpp, mask as u8);
        let b = ext_emit(c, bpp, count) + rest;
        assert(b =~= seq![ext_byte(c, bpp, mask as u8), ext as u8] + (ext_emit(c, bpp, next) + rest));
        assert(b.skip(2) =~= ext_emit(c, bpp, next) + rest);
        lemma_ext_emit_decode(c, bpp, next, rest);
        assert(Seq::new(mask + 1 + ext, |i: int| c) + (Seq::new(next, |i: int| c) + ext_decode(rest, bpp))
            =~= Seq::new(count, |i: int| c) + ext_decode(rest, bpp));
    }
}

/// Extended RLE loses nothing: for colours that fit in `bpp` bits, decoding
/// the encoding gives the pixels back.
pub proof fn ext_rle_roundtrip(pixels: Seq<u8>, bpp: u8)
    requires
        1 <= bpp <= 8,
        forall|i: int| 0 <= i < pixels.len() ==> (pixels[i] as nat) < pow2(bpp as nat),
    ensures
        ext_decode(ext_runs(pixels, bpp), bpp) == pixels,
    decreases pixels.len(),
{
    if pixels.len() > 0 {
        let c = pixels[0];
        let r = lead_run(pixels, c, pixels.len());
        lemma_lead_run_bounds(pixels, c, pixels.len());
        let rest = pixels.skip(r as int);
        ext_rle_roundtrip(rest, bpp);
        lemma_ext_emit_decode(c, bpp, r, ext_runs(rest, bpp));
        assert(Seq::new(r, |i: int| c) + rest =~= pixels);
    }
}


/// Positions below `n` where `base` and `frame` differ, each with the frame's colour there.
pub open spec fn diff_entries(base: Seq<u8>, frame: Seq<u8>, n: nat) -> Seq<(nat, u8)>
    decreases n,
{
    if n == 0 {
        seq![]
    } else {
        let prev = diff_entries(base, frame, (n - 1) as nat);
        if base[n - 1] != frame[n - 1] {
            prev.push(((n - 1) as nat, frame[n - 1]))
        } else {
            prev
        }
    }
}

/// The changed pixels of `frame` against `base`, over the length both share.
pub open spec fn changed_pixels(base: Seq<u8>, frame: Seq<u8>) -> Seq<(nat, u8)> {
    diff_entries(base, frame, if base.len() <= frame.len() { base.len() } else { frame.len() })
}

/// Entry count: one byte below 255, else 0xFF and the count as u16 LE (low 16 bits).
pub open spec fn delta_count_bytes(n: nat) -> Seq<u8> {
    if n >= 255 {
        seq![0xFFu8, (n % 256) as u8, ((n / 256) % 256) as u8]
    } else {
        seq![n as u8]
    }
}

/// Bytes for a changed pixel at `pos` following one at `prev`: the skipped
/// count goes in the high nibble when it is at most 14, else an escape nibble
/// 15 and one byte (`skip - 15`, up to 269) or 0xFF and the skip as u16 LE.
pub open spec fn delta_gap_bytes(prev: nat, pos: nat, color: u8) -> Seq<u8> {
    let skip = (pos - prev - 1) as nat;
    if skip <= 14 {
        seq![((skip as u8) << 4u8) | color]
    } else if skip <= 14 + 255 {
        seq![0xF0u8 | color, (skip - 15) as u8]
    } else {
        seq![0xF0u8 | color, 0xFFu8, (skip % 256) as u8, ((skip / 256) % 256) as u8]
    }
}

/// Gap bytes for entries `1..k` of `es`.
pub open spec fn delta_gaps(es: Seq<(nat, u8)>, k: nat) -> Seq<u8>
    decreases k,
{
    if k <= 1 {
        seq![]
    } else {
        delta_gaps(es, (k - 1) as nat) + delta_gap_bytes(es[k - 2].0, es[k - 1].0, es[k - 1].1)
    }
}

/// The delta stream of `frame` against `base`: the count, then the first
/// changed position (u16 LE) and colour, then one gap record per further change.
pub open spec fn delta_stream(base: Seq<u8>, frame: Seq<u8>) -> Seq<u8> {
    let es = changed_pixels(base, frame);
    if es.len() == 0 {
        delta_count_bytes(0)
    } else {
        delta_count_bytes(es.len()) + seq![(es[0].0 % 256) as u8, ((es[0].0 / 256) % 256) as u8, es[0].1]
            + delta_gaps(es, es.len())
    }
}

proof fn lemma_diff_entries_sorted(base: Seq<u8>, frame: Seq<u8>, n: nat)
    requires
        n <= base.len(),
        n <= frame.len(),
    ensures
        forall|j: int| 0 <= j < diff_entries(base, frame, n).len() ==> diff_entries(base, frame, n)[j].0 < n,
        forall|j: int, k: int| 0 <= j < k < diff_entries(base, frame, n).len()
            ==> diff_entries(base, frame, n)[j].0 < diff_entries(base, frame, n)[k].0,
        diff_entries(base, frame, n).len() <= n,
    decreases n,
{
    if n > 0 {
        lemma_diff_entries_sorted(base, frame, (n - 1) as nat);
    }
}

fn push_u16_le(out: &mut Vec<u8>, v: usize)
    ensures
        final(out)@ == old(out)@ + seq![(v as nat % 256) as u8, ((v as nat / 256) % 256) as u8],
{
    let lo: u8 = (v & 0xFF) as u8;
    let hi: u8 = ((v >> 8) & 0xFF) as u8;
    assert(v & 0xFF == v % 256 && (v >> 8) & 0xFF == (v / 256) % 256) by (bit_vector);
    out.push(lo);
    out.push(hi);
}

/// Delta encoding with skip compression.
/// Encodes only changed pixels between base and frame.
pub fn delta_encode_skip(base_pixels: &[u8], frame_pixels: &[u8]) -> (out: Vec<u8>)
    ensures
        out@ == delta_stream(base_pixels@, frame_pixels@),
{
    let n: usize = if base_pixels.len() <= frame_pixels.len() { base_pixels.len() } else { frame_pixels.len() };
    let mut positions: Vec<usize> = Vec::new();
    let mut colors: Vec<u8> = Vec::new();
    let mut i: usize = 0;
    while i < n
        invariant
            i <= n,
            n <= base_pixels.len(),
            n <= frame_pixels.len(),
            positions.len() == colors.len(),
            positions.len() == diff_entries(base_pixels@, frame_pixels@, i as nat).len(),
            forall|j: int| 0 <= j < positions.len() ==> (positions[j] as nat, colors[j])
                == #[trigger] diff_entries(base_pixels@, frame_pixels@, i as nat)[j],
        decreases n - i,
    {
        if base_pixels[i] != frame_pixels[i] {
            positions.push(i);
            colors.push(frame_pixels[i]);
        }
        i += 1;
    }
    let ghost es = changed_pixels(base_pixels@, frame_pixels@);
    proof {
        lemma_diff_entries_sorted(base_pixels@, frame_pixels@, n as nat);
    }
    let count = positions.len();
    let mut out: Vec<u8> = Vec::new();
    if count >= 255 {
        out.push(0xFF);
        push_u16_le(&mut out, count);
    } else {
        out.push(count as u8);
    }
    assert(out@ =~= delta_count_bytes(es.len()));
    if count == 0 {
        return out;
    }
    push_u16_le(&mut out, positions[0]);
    out.push(colors[0]);
    let ghost head = out@;
    let mut j: usize = 1;
    assert(out@ =~= head + delta_gaps(es, 1));
    while j < count
        invariant
            1 <= j <= count,
            count == positions.len(),
            count == colors.len(),
            count == es.len(),
            forall|k: int| 0 <= k < count ==> (positions[k] as nat, colors[k]) == #[trigger] es[k],
            forall|a: int, b: int| 0 <= a < b < es.len() ==> es[a].0 < es[b].0,
            out@ == head + delta_gaps(es, j as nat),
        decreases count - j,
    {
        assert(es[j as int] == (positions[j as int] as nat, colors[j as int]));
        assert(es[j - 1] == (positions[j - 1] as nat, colors[j - 1]));
        assert(es[j - 1].0 < es[j as int].0);
        let gap = positions[j] - positions[j - 1];
        let color = colors[j];
        let skip = gap - 1;
        let ghost before = out@;
        if skip <= 14 {
            out.push(((skip as u8) << 4u8) | color);
        } else if skip <= 14 + 255 {
            out.push((15u8 << 4u8) | color);
            out.push((skip - 15) as u8);
        } else {
            out.push((15u8 << 4u8) | color);
            out.push(0xFF);
            push_u16_le(&mut out, skip);
        }
        assert(15u8 << 4u8 == 0xF0u8) by (bit_vector);
        assert(out@ =~= before + delta_gap_bytes(es[j - 1].0, es[j as int].0, es[j as int].1));
        j += 1;
    }
    out
}


/// Value of a string of bits read most significant first (only bit 0 of each entry counts).
pub open spec fn bits_value(s: Seq<u8>) -> nat
    decreases s.len(),
{
    if s.len() == 0 {
        0
    } else {
        bits_value(s.drop_last()) * 2 + (s.last() & 1u8) as nat
    }
}

/// Byte `j` of the MSB-first packing of `p`; a last, short chunk is padded with zero bits.
pub open spec fn packed_byte(p: Seq<u8>, j: nat) -> u8 {
    let start: int = 8 * j as int;
    let end: int = if start + 8 <= p.len() { start + 8 } else { p.len() as int };
    let chunk = p.subrange(start, end);
    (bits_value(chunk) * pow2((8 - chunk.len()) as nat)) as u8
}

/// All bytes of the MSB-first packing of `p`.
pub open spec fn packed_bytes(p: Seq<u8>) -> Seq<u8> {
    Seq::new((p.len() + 7) / 8, |j: int| packed_byte(p, j as nat))
}

/// `s` without its trailing zero bytes.
pub open spec fn trim_trailing_zeros(s: Seq<u8>) -> Seq<u8>
    decreases s.len(),
{
    if s.len() > 0 && s.last() == 0 {
        trim_trailing_zeros(s.drop_last())
    } else {
        s
    }
}

proof fn lemma_bits_value_bound(s: Seq<u8>)
    ensures
        bits_value(s) < pow2(s.len()),
    decreases s.len(),
{
    if s.len() > 0 {
        lemma_bits_value_bound(s.drop_last());
        vstd::arithmetic::power2::lemma_pow2_unfold(s.len());
        let l = s.last();
        assert((l & 1u8) <= 1) by (bit_vector);
    } else {
        vstd::arithmetic::power2::lemma2_to64();
    }
}

/// Pack 1bpp pixels into bytes (MSB first), trim trailing zero bytes.
pub fn pack_bits(pixels: &[u8]) -> (out: Vec<u8>)
    ensures
        out@ == trim_trailing_zeros(packed_bytes(pixels@)),
{
    let mut out: Vec<u8> = Vec::new();
    let mut bits: u8 = 0;
    let mut bit_count: usize = 0;
    let mut i: usize = 0;
    proof {
        vstd::arithmetic::power2::lemma2_to64();
    }
    while i < pixels.len()
        invariant
            i <= pixels.len(),
            bit_count < 8,
            i == 8 * out.len() + bit_count,
            forall|j: int| 0 <= j < out.len() ==> out[j] == #[trigger] packed_byte(pixels@, j as nat),
            bits as nat == bits_value(pixels@.subrange(8 * out.len(), i as int)),
        decreases pixels.len() - i,
    {
        let p = pixels[i];
        let ghost chunk = pixels@.subrange(8 * out.len(), i as int);
        proof {
            lemma_bits_value_bound(chunk);
            vstd::arithmetic::power2::lemma2_to64();
        }
        assert(pixels@.subrange(8 * out.len(), i + 1).drop_last() =~= chunk);
        assert(bits < 128 ==> (bits << 1u8) | (p & 1) == bits * 2 + (p & 1)) by (bit_vector);
        bits = (bits << 1u8) | (p & 1);
        bit_count += 1;
        i += 1;
        assert(pixels@.subrange(8 * out.len(), i as int).last() == p);
        assert(bits as nat == bits_value(pixels@.subrange(8 * out.len(), i as int)));
        if bit_count == 8 {
            let ghost k = out.len();
            assert(packed_byte(pixels@, k as nat) == bits) by {
                vstd::arithmetic::power2::lemma2_to64();
                assert(8 * k + 8 <= pixels.len());
                assert(pixels@.subrange(8 * k, 8 * k + 8) =~= pixels@.subrange(8 * out.len(), i as int));
                assert(pow2(0) == 1);
                assert(bits_value(pixels@.subrange(8 * k, 8 * k + 8)) * pow2(0) == bits as nat);
            }
            out.push(bits);
            bits = 0;
            bit_count = 0;
            assert(pixels@.subrange(8 * out.len(), i as int) =~= Seq::<u8>::empty());
        }
    }
    if bit_count > 0 {
        let ghost k = out.len();
        let ghost chunk = pixels@.subrange(8 * k, i as int);
        let shift: u8 = (8 - bit_count) as u8;
        proof {
            lemma_bits_value_bound(chunk);
            vstd::arithmetic::power2::lemma2_to64();
            vstd::arithmetic::power2::lemma_pow2_adds(bit_count as nat, shift as nat);
            assert(bits as nat * pow2(shift as nat) < 256) by (nonlinear_arith)
                requires
                    bits as nat + 1 <= pow2(bit_count as nat),
                    pow2(bit_count as nat) * pow2(shift as nat) == 256,
            {
            }
            vstd::bits::lemma_u8_shl_is_mul(bits, shift);
        }
        out.push(bits << shift);
        assert(out[k as int] == packed_byte(pixels@, k as nat));
    }
    assert(out@ =~= packed_bytes(pixels@));
    let ghost full = out@;
    while out.len() > 0 && out[out.len() - 1] == 0
        invariant
            trim_trailing_zeros(out@) == trim_trailing_zeros(full),
        decreases out.len(),
    {
        let ghost before = out@;
        out.pop();
        assert(out@ =~= before.drop_last());
    }
    out
}

/// Row delta of a `w`-wide image: every pixel of rows `1..h` XORed with the pixel above it.
pub open spec fn row_delta_spec(p: Seq<u8>, w: nat, h: nat) -> Seq<u8> {
    Seq::new(p.len(), |i: int| if w <= i < h * w { p[i] ^ p[i - w] } else { p[i] })
}

/// XOR each row with the row above (first row unchanged).
pub fn row_delta(pixels: &[u8], w: usize, h: usize) -> (out: Vec<u8>)
    requires
        h <= 1 || w == 0 || h * w <= pixels.len(),
    ensures
        out@ == row_delta_spec(pixels@, w as nat, h as nat),
{
    let mut out = vstd::slice::slice_to_vec(pixels);
    if h <= 1 || w == 0 {
        assert(h * w <= w) by (nonlinear_arith)
            requires
                h <= 1 || w == 0,
        ;
        assert(out@ =~= row_delta_spec(pixels@, w as nat, h as nat));
        return out;
    }
    let mut y: usize = h;
    while y > 1
        invariant
            1 <= y <= h,
            2 <= h,
            1 <= w,
            h * w <= pixels.len(),
            out.len() == pixels.len(),
            forall|i: int| 0 <= i < pixels.len() ==> #[trigger] out[i] == (if y * w <= i < h * w {
                pixels[i] ^ pixels[i - w]
            } else {
                pixels[i]
            }),
        decreases y,
    {
        y = y - 1;
        assert(y * w + w == (y + 1) * w && (y + 1) * w <= h * w && w <= y * w) by (nonlinear_arith)
            requires
                1 <= y < h,
                1 <= w,
        ;
        let mut x: usize = 0;
        while x < w
            invariant
                1 <= y < h,
                1 <= w,
                x <= w,
                h * w <= pixels.len(),
                y * w + w <= h * w,
                w <= y * w,
                out.len() == pixels.len(),
                forall|i: int| 0 <= i < pixels.len() ==> #[trigger] out[i] == (if y * w <= i < y * w + x || (y
                    + 1) * w <= i < h * w {
                    pixels[i] ^ pixels[i - w]
                } else {
                    pixels[i]
                }),
                (y + 1) * w == y * w + w,
            decreases w - x,
        {
            let idx = y * w + x;
            let v = out[idx] ^ pixels[idx - w];
            out.set(idx, v);
            x += 1;
        }
    }
    assert(out@ =~= row_delta_spec(pixels@, w as nat, h as nat));
    out
}

/// Pixel `i` restored from a row delta `d`: each pixel of rows `1..h` XORed
/// with the restored pixel above it, top to bottom.
pub open spec fn row_undelta_at(d: Seq<u8>, w: nat, h: nat, i: int) -> u8
    decreases i,
{
    if w > 0 && w <= i < h * w {
        d[i] ^ row_undelta_at(d, w, h, i - w)
    } else {
        d[i]
    }
}

/// A row delta is undone by XORing each row, from the top, with the restored row above.
pub proof fn row_delta_roundtrip(p: Seq<u8>, w: nat, h: nat)
    ensures
        Seq::new(p.len(), |i: int| row_undelta_at(row_delta_spec(p, w, h), w, h, i)) == p,
{
    assert forall|i: int| 0 <= i < p.len() implies #[trigger] row_undelta_at(row_delta_spec(p, w, h), w, h, i) == p[i] by {
        lemma_row_undelta_at(p, w, h, i);
    }
    assert(Seq::new(p.len(), |i: int| row_undelta_at(row_delta_spec(p, w, h), w, h, i)) =~= p);
}

proof fn lemma_row_undelta_at(p: Seq<u8>, w: nat, h: nat, i: int)
    requires
        0 <= i < p.len(),
    ensures
        row_undelta_at(row_delta_spec(p, w, h), w, h, i) == p[i],
    decreases i,
{
    let d = row_delta_spec(p, w, h);
    if w == 0 {
        assert(h * w == 0) by (nonlinear_arith)
            requires
                w == 0,
        ;
    }
    if w > 0 && w <= i < h * w {
        lemma_row_undelta_at(p, w, h, i - w);
        let a = p[i];
        let b = p[i - w];
        assert(d[i] == a ^ b);
        assert((a ^ b) ^ b == a) by (bit_vector);
    }
}

/// Bit `i` (most significant first in each byte) of a packed bit string;
/// bytes past the end read as zero.
pub open spec fn unpacked_bit(bytes: Seq<u8>, i: int) -> u8 {
    let j = i / 8;
    if j < bytes.len() {
        (bytes[j] >> ((7 - i % 8) as u8)) & 1u8
    } else {
        0
    }
}

/// Packing 1-bpp pixels loses nothing: every pixel reads back from the packed
/// bytes, the trimmed trailing zero bytes reading as zero.
pub proof fn pack_bits_roundtrip(p: Seq<u8>)
    requires
        forall|i: int| 0 <= i < p.len() ==> p[i] <= 1,
    ensures
        forall|i: int| 0 <= i < p.len() ==> #[trigger] unpacked_bit(trim_trailing_zeros(packed_bytes(p)), i) == p[i],
{
    let full = packed_bytes(p);
    let t = trim_trailing_zeros(full);
    lemma_trim_trailing_zeros(full);
    assert forall|i: int| 0 <= i < p.len() implies #[trigger] unpacked_bit(t, i) == p[i] by {
        let j = i / 8;
        let m = i % 8;
        assert(0 <= j < full.len() && 0 <= m < 8 && i == 8 * j + m);
        lemma_packed_byte_bit(p, j as nat, m);
        if j >= t.len() {
            let z = full[j];
            assert(z == 0);
            let sh = (7 - m) as u8;
            assert((z >> sh) & 1u8 == 0) by (bit_vector)
                requires
                    z == 0,
            ;
        } else {
            assert(t[j] == full[j]);
        }
    }
}

proof fn lemma_trim_trailing_zeros(s: Seq<u8>)
    ensures
        trim_trailing_zeros(s).len() <= s.len(),
        forall|j: int| 0 <= j < trim_trailing_zeros(s).len() ==> trim_trailing_zeros(s)[j] == s[j],
        forall|j: int| trim_trailing_zeros(s).len() <= j < s.len() ==> s[j] == 0,
    decreases s.len(),
{
    if s.len() > 0 && s.last() == 0 {
        let t = s.drop_last();
        lemma_trim_trailing_zeros(t);
        assert(trim_trailing_zeros(s) == trim_trailing_zeros(t));
        assert forall|j: int| 0 <= j < trim_trailing_zeros(s).len() implies trim_trailing_zeros(s)[j] == s[j] by {
            assert(t[j] == s[j]);
        }
        assert forall|j: int| trim_trailing_zeros(s).len() <= j < s.len() implies s[j] == 0 by {
            if j < t.len() {
                assert(t[j] == s[j]);
            }
        }
    }
}

/// The value of `s` (entries 0 or 1, at most eight) placed in the high bits of a byte.
spec fn high_bits(s: Seq<u8>) -> nat {
    bits_value(s) * pow2((8 - s.len()) as nat)
}

proof fn lemma_high_bits(s: Seq<u8>)
    requires
        s.len() <= 8,
        forall|k: int| 0 <= k < s.len() ==> s[k] <= 1,
    ensures
        high_bits(s) < 256,
        (high_bits(s) as u8) & (((1u16 << ((8 - s.len()) as u16)) - 1) as u8) == 0,
        forall|m: int| 0 <= m < s.len() ==> ((#[trigger] (high_bits(s) as u8) >> ((7 - m) as u8)) & 1u8) == s[m],
    decreases s.len(),
{
    vstd::arithmetic::power2::lemma2_to64();
    if s.len() == 0 {
        assert(bits_value(s) == 0);
        assert(high_bits(s) == 0) by (nonlinear_arith)
            requires
                high_bits(s) == bits_value(s) * pow2(8),
                bits_value(s) == 0,
        ;
        assert((0u8 & (((1u16 << 8u16) - 1) as u8)) == 0) by (bit_vector);
    } else {
        let t = s.drop_last();
        assert forall|k: int| 0 <= k < t.len() implies t[k] <= 1 by {
            assert(t[k] == s[k]);
        }
        lemma_high_bits(t);
        let l = s.last();
        let sh = (8 - s.len()) as u8;
        let a = high_bits(t) as u8;
        assert(a as nat == high_bits(t));
        assert(l & 1u8 == l) by (bit_vector)
            requires
                l <= 1,
        ;
        vstd::arithmetic::power2::lemma_pow2_unfold((8 - t.len()) as nat);
        assert(pow2((8 - t.len()) as nat) == 2 * pow2(sh as nat));
        assert(high_bits(s) == high_bits(t) + l * pow2(sh as nat)) by (nonlinear_arith)
            requires
                high_bits(s) == bits_value(s) * pow2(sh as nat),
                bits_value(s) == bits_value(t) * 2 + l,
                high_bits(t) == bits_value(t) * pow2((8 - t.len()) as nat),
                pow2((8 - t.len()) as nat) == 2 * pow2(sh as nat),
        ;
        if sh < 7 {
            vstd::arithmetic::power2::lemma_pow2_strictly_increases(sh as nat, 7);
        }
        assert(pow2(sh as nat) <= 128);
        assert(l * pow2(sh as nat) <= 128) by (nonlinear_arith)
            requires
                l <= 1,
                pow2(sh as nat) <= 128,
        ;
        vstd::bits::lemma_u8_shl_is_mul(l, sh);
        let v = l << sh;
        assert(v as nat == l * pow2(sh as nat));
        assert(((a as u16) + (v as u16)) < 256 && (a + v) as u8 == a | v && ((a | v) >> sh) & 1u8 == l
            && (a | v) & (((1u16 << (sh as u16)) - 1) as u8) == 0) by (bit_vector)
            requires
                a & (((1u16 << ((sh + 1) as u16)) - 1) as u8) == 0,
                v == l << sh,
                l <= 1,
                sh < 8,
        ;
        assert(high_bits(s) == a + v);
        assert(high_bits(s) < 256);
        assert(high_bits(s) as u8 == a | v);
        assert forall|m: int| 0 <= m < s.len() implies ((#[trigger] (high_bits(s) as u8) >> ((7 - m) as u8)) & 1u8) == s[m] by {
            if m < t.len() {
                let tt = (7 - m) as u8;
                assert(((a | v) >> tt) & 1u8 == (a >> tt) & 1u8) by (bit_vector)
                    requires
                        v == l << sh,
                        l <= 1,
                        tt > sh,
                        tt < 8,
                ;
                assert(((high_bits(t) as u8) >> ((7 - m) as u8)) & 1u8 == t[m]);
                assert(t[m] == s[m]);
            }
        }
    }
}

proof fn lemma_packed_byte_bit(p: Seq<u8>, j: nat, m: int)
    requires
        forall|i: int| 0 <= i < p.len() ==> p[i] <= 1,
        0 <= m < 8,
        8 * j + m < p.len(),
    ensures
        (packed_byte(p, j) >> ((7 - m) as u8)) & 1u8 == p[8 * j + m],
{
    let start: int = 8 * j as int;
    let end: int = if start + 8 <= p.len() { start + 8 } else { p.len() as int };
    let chunk = p.subrange(start, end);
    lemma_high_bits(chunk);
    assert(packed_byte(p, j) == high_bits(chunk) as u8);
    assert(chunk[m] == p[8 * j + m]);
    assert(((high_bits(chunk) as u8) >> ((7 - m) as u8)) & 1u8 == chunk[m]);
}

/// One gap record at the start of `b`: (skipped pixels, colour, record length).
pub open spec fn read_gap(b: Seq<u8>) -> (nat, u8, nat) {
    let nib = b[0] >> 4u8;
    let color = b[0] & 15u8;
    if nib < 15 {
        (nib as nat, color, 1)
    } else if b[1] != 0xFF {
        ((b[1] + 15) as nat, color, 2)
    } else {
        ((b[2] + 256 * b[3]) as nat, color, 4)
    }
}

/// The `m` changes read from gap records at the start of `b`, following a change at `prev`.
pub open spec fn read_gaps(b: Seq<u8>, prev: nat, m: nat) -> Seq<(nat, u8)>
    decreases m,
{
    if m == 0 {
        seq![]
    } else {
        let g = read_gap(b);
        let pos = prev + g.0 + 1;
        seq![(pos, g.1)] + read_gaps(b.skip(g.2 as int), pos, (m - 1) as nat)
    }
}

/// The changes (position, colour) a delta stream lists.
pub open spec fn read_delta(b: Seq<u8>) -> Seq<(nat, u8)> {
    let count: nat = if b[0] == 0xFF { (b[1] + 256 * b[2]) as nat } else { b[0] as nat };
    let hl: int = if b[0] == 0xFF { 3 } else { 1 };
    if count == 0 {
        seq![]
    } else {
        let first = ((b[hl] + 256 * b[hl + 1]) as nat, b[hl + 2]);
        seq![first] + read_gaps(b.skip(hl + 3), first.0, (count - 1) as nat)
    }
}

/// The colour the last change at position `i` among `es` sets, if any.
pub open spec fn change_at(es: Seq<(nat, u8)>, i: nat) -> Option<u8>
    decreases es.len(),
{
    if es.len() == 0 {
        None
    } else if es.last().0 == i {
        Some(es.last().1)
    } else {
        change_at(es.drop_last(), i)
    }
}

/// `base` with the changes `es` applied.
pub open spec fn apply_changes(base: Seq<u8>, es: Seq<(nat, u8)>) -> Seq<u8> {
    Seq::new(base.len(), |i: int| match change_at(es, i as nat) {
        Some(c) => c,
        None => base[i],
    })
}

/// Gap records for entries `j..k` of `es`, front to back.
spec fn gaps_from(es: Seq<(nat, u8)>, j: nat, k: nat) -> Seq<u8>
    decreases k - j,
{
    if j >= k || j == 0 {
        seq![]
    } else {
        delta_gap_bytes(es[j - 1].0, es[j as int].0, es[j as int].1) + gaps_from(es, j + 1, k)
    }
}

proof fn lemma_gaps_from_snoc(es: Seq<(nat, u8)>, j: nat, k: nat)
    requires
        1 <= j <= k,
    ensures
        gaps_from(es, j, k + 1) == gaps_from(es, j, k) + delta_gap_bytes(es[k - 1].0, es[k as int].0, es[k as int].1),
    decreases k - j,
{
    if j < k {
        lemma_gaps_from_snoc(es, j + 1, k);
        assert(gaps_from(es, j, k + 1) =~= gaps_from(es, j, k) + delta_gap_bytes(es[k - 1].0, es[k as int].0, es[k as int].1));
    } else {
        assert(gaps_from(es, k + 1, k + 1) == Seq::<u8>::empty());
        assert(gaps_from(es, k, k) == Seq::<u8>::empty());
        assert(gaps_from(es, k, k + 1) =~= delta_gap_bytes(es[k - 1].0, es[k as int].0, es[k as int].1));
    }
}

proof fn lemma_delta_gaps_front(es: Seq<(nat, u8)>, k: nat)
    requires
        k >= 1,
    ensures
        delta_gaps(es, k) == gaps_from(es, 1, k),
    decreases k,
{
    if k > 1 {
        lemma_delta_gaps_front(es, (k - 1) as nat);
        lemma_gaps_from_snoc(es, 1, (k - 1) as nat);
    }
}

proof fn lemma_u16_pair(v: nat)
    requires
        v < 65536,
    ensures
        ((v % 256) as u8) + 256 * (((v / 256) % 256) as u8) == v,
{
    vstd::arithmetic::div_mod::lemma_fundamental_div_mod(v as int, 256);
    vstd::arithmetic::div_mod::lemma_mod_pos_bound(v as int, 256);
    vstd::arithmetic::div_mod::lemma_div_pos_is_pos(v as int, 256);
    assert(v / 256 < 256) by (nonlinear_arith)
        requires
            v == 256 * (v / 256) + v % 256,
            v % 256 >= 0,
            v < 65536,
    ;
    vstd::arithmetic::div_mod::lemma_small_mod((v / 256) as nat, 256);
}

proof fn lemma_read_gap(prev: nat, pos: nat, color: u8, rest: Seq<u8>)
    requires
        prev < pos,
        pos - prev - 1 < 65536,
        color < 16,
    ensures
        read_gap(delta_gap_bytes(prev, pos, color) + rest) == ((pos - prev - 1) as nat, color, delta_gap_bytes(prev, pos, color).len()),
{
    let skip = (pos - prev - 1) as nat;
    let b = delta_gap_bytes(prev, pos, color) + rest;
    if skip <= 14 {
        let sk = skip as u8;
        assert(((sk << 4u8) | color) >> 4u8 == sk && ((sk << 4u8) | color) & 15u8 == color) by (bit_vector)
            requires
                sk <= 14,
                color < 16,
        ;
    } else {
        assert((0xF0u8 | color) >> 4u8 == 15 && (0xF0u8 | color) & 15u8 == color) by (bit_vector)
            requires
                color < 16,
        ;
        if skip <= 14 + 255 {
            assert(b[1] == (skip - 15) as u8);
        } else {
            lemma_u16_pair(skip);
        }
    }
}

proof fn lemma_read_gaps(es: Seq<(nat, u8)>, j: nat, k: nat)
    requires
        1 <= j <= k <= es.len(),
        forall|a: int, b: int| 0 <= a < b < es.len() ==> es[a].0 < es[b].0,
        forall|a: int| 0 <= a < es.len() ==> es[a].0 < 65536 && es[a].1 < 16,
    ensures
        read_gaps(gaps_from(es, j, k), es[j - 1].0, (k - j) as nat) == es.subrange(j as int, k as int),
    decreases k - j,
{
    if j < k {
        let g = delta_gap_bytes(es[j - 1].0, es[j as int].0, es[j as int].1);
        let rest = gaps_from(es, j + 1, k);
        assert(gaps_from(es, j, k) == g + rest);
        lemma_read_gap(es[j - 1].0, es[j as int].0, es[j as int].1, rest);
        assert((g + rest).skip(g.len() as int) =~= rest);
        lemma_read_gaps(es, j + 1, k);
        assert(read_gaps(gaps_from(es, j, k), es[j - 1].0, (k - j) as nat) =~= es.subrange(j as int, k as int));
    } else {
        assert(es.subrange(j as int, k as int) =~= seq![]);
    }
}

proof fn lemma_change_at_diff(base: Seq<u8>, frame: Seq<u8>, n: nat, i: nat)
    requires
        n <= base.len(),
        n <= frame.len(),
    ensures
        change_at(diff_entries(base, frame, n), i) == if i < n && base[i as int] != frame[i as int] {
            Some(frame[i as int])
        } else {
            None::<u8>
        },
    decreases n,
{
    if n > 0 {
        lemma_change_at_diff(base, frame, (n - 1) as nat, i);
        let prev = diff_entries(base, frame, (n - 1) as nat);
        if base[n - 1] != frame[n - 1] {
            assert(diff_entries(base, frame, n).drop_last() =~= prev);
        }
    }
}

/// Delta coding loses nothing: applying the changes read back from the delta
/// stream of `frame` against `base` gives `frame`, when both have the same
/// length (below 65536) and every changed pixel is a colour below 16.
pub proof fn delta_roundtrip(base: Seq<u8>, frame: Seq<u8>)
    requires
        base.len() == frame.len(),
        frame.len() < 65536,
        forall|i: int| 0 <= i < frame.len() && base[i] != frame[i] ==> frame[i] < 16,
    ensures
        apply_changes(base, read_delta(delta_stream(base, frame))) == frame,
{
    let n = frame.len();
    let es = changed_pixels(base, frame);
    assert(es == diff_entries(base, frame, n));
    lemma_diff_entries_sorted(base, frame, n);
    lemma_diff_entries_colors(base, frame, n);
    let b = delta_stream(base, frame);
    let m = es.len();
    assert(read_delta(b) == es) by {
        if m == 0 {
            assert(b == seq![0u8]);
        } else {
            let head = delta_count_bytes(m);
            let p0 = es[0].0;
            let first = seq![(p0 % 256) as u8, ((p0 / 256) % 256) as u8, es[0].1];
            let gaps = delta_gaps(es, m);
            assert(b == head + first + gaps);
            let hl: int = if m >= 255 { 3 } else { 1 };
            if m >= 255 {
                lemma_u16_pair(m);
                assert(b[0] == 0xFFu8 && b[1] == (m % 256) as u8 && b[2] == ((m / 256) % 256) as u8);
            } else {
                assert(b[0] == m as u8);
            }
            lemma_u16_pair(p0);
            assert(b[hl] == (p0 % 256) as u8 && b[hl + 1] == ((p0 / 256) % 256) as u8 && b[hl + 2] == es[0].1);
            assert(b.skip(hl + 3) =~= gaps);
            lemma_delta_gaps_front(es, m);
            lemma_read_gaps(es, 1, m);
            assert(es.subrange(1, m as int) =~= es.drop_first());
            assert(read_delta(b) =~= es);
        }
    }
    assert forall|i: int| 0 <= i < n implies #[trigger] apply_changes(base, es)[i] == frame[i] by {
        lemma_change_at_diff(base, frame, n, i as nat);
    }
    assert(apply_changes(base, es) =~= frame);
}

proof fn lemma_diff_entries_colors(base: Seq<u8>, frame: Seq<u8>, n: nat)
    requires
        n <= base.len(),
        n <= frame.len(),
    ensures
        forall|j: int| 0 <= j < diff_entries(base, frame, n).len() ==> {
            let e = #[trigger] diff_entries(base, frame, n)[j];
            e.0 < n && base[e.0 as int] != frame[e.0 as int] && e.1 == frame[e.0 as int]
        },
    decreases n,
{
    if n > 0 {
        lemma_diff_entries_colors(base, frame, (n - 1) as nat);
        let prev = diff_entries(base, frame, (n - 1) as nat);
        assert forall|j: int| 0 <= j < diff_entries(base, frame, n).len() implies {
            let e = #[trigger] diff_entries(base, frame, n)[j];
            e.0 < n && base[e.0 as int] != frame[e.0 as int] && e.1 == frame[e.0 as int]
        } by {
            if j < prev.len() {
                assert(diff_entries(base, frame, n)[j] == prev[j]);
            }
        }
    }
}

proof fn lemma_nibble_fields(c: u8, r1: u8)
    by (bit_vector)
    requires
        c < 16,
        r1 < 16,
    ensures
        ((c << 4u8) | r1) >> 4u8 == c,
        ((c << 4u8) | r1) & 15u8 == r1,
{
}

/// Nibble RLE runs are maximal: two neighbouring bytes carry the same colour
/// only when the first holds a full run of 16 (for colours below 16).
pub proof fn nibble_runs_maximal(pixels: Seq<u8>)
    requires
        forall|i: int| 0 <= i < pixels.len() ==> pixels[i] < 16,
    ensures
        forall|j: int|
            0 <= j < nibble_runs(pixels).len() - 1 && #[trigger] nibble_runs(pixels)[j] >> 4u8 == nibble_runs(pixels)[j + 1]
                >> 4u8 ==> nibble_runs(pixels)[j] & 15u8 == 15u8,
    decreases pixels.len(),
{
    if pixels.len() > 0 {
        let c = pixels[0];
        let r = lead_run(pixels, c, 16);
        lemma_lead_run_bounds(pixels, c, 16);
        let rest = pixels.skip(r as int);
        nibble_runs_maximal(rest);
        let out = nibble_runs(pixels);
        let tail = nibble_runs(rest);
        assert(out == seq![nibble_byte(c, r)] + tail);
        lemma_nibble_fields(c, (r - 1) as u8);
        assert forall|j: int|
            0 <= j < out.len() - 1 && #[trigger] out[j] >> 4u8 == out[j + 1] >> 4u8 implies out[j] & 15u8 == 15u8 by {
            if j == 0 {
                let d = rest[0];
                assert(rest.len() > 0);
                let r2 = lead_run(rest, d, 16);
                lemma_lead_run_bounds(rest, d, 16);
                assert(tail[0] == nibble_byte(d, r2));
                lemma_nibble_fields(d, (r2 - 1) as u8);
                if r < 16 {
                    assert(pixels[r as int] != c);
                }
            } else {
                assert(out[j] == tail[j - 1] && out[j + 1] == tail[j]);
            }
        }
    }
}

} // verus!
