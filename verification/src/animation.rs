//! Animation encoding types 0-6 and the best-pick selector.

use vstd::prelude::*;
use vstd::string::*;
use crate::config::TRANS;
use crate::eg2::{eg2_encode_frame, eg2_best, eg2_best_upto, eg2_try_mode, eg2_try_order, eg2_diff, pixel_bits};
use crate::eg2_stream::{eg2_decode, eg2_frame_roundtrip, runs_readable};
use vstd::arithmetic::power2::pow2;
use crate::frame::{
    bbox_spec, crop_rows, get_bbox, get_frame_bbox, frame_bbox_spec, crop_pixels, quantize_pixels,
    quantized, pack_palette, packed_palette, has_opaque,
};
use crate::text::{decimal, push_decimal, pad_left, pad_right, push_spaces};
use crate::frame::{min_bpp_for_frames, build_palette, build_palette_spec, bpp_for_colors, distinct_colors};

verus! {

/// The palette argument as a sequence.
pub open spec fn pal_view(palette: Option<&[u8]>) -> Option<Seq<u8>> {
    match palette {
        Some(p) => Some(p@),
        None => None,
    }
}

/// The contents of a list of byte vectors.
pub open spec fn seqs_of(v: Seq<Vec<u8>>) -> Seq<Seq<u8>> {
    Seq::new(v.len(), |k: int| v[k]@)
}

/// Whether pixels are stored as palette indices: below 4 bpp with a palette.
pub open spec fn uses_palette(bpp: u8, pal: Option<Seq<u8>>) -> bool {
    bpp < 4 && pal is Some
}

/// Pixels as stored in a block: palette indices when a palette is in use, else unchanged.
pub open spec fn prepare(f: Seq<u8>, bpp: u8, pal: Option<Seq<u8>>) -> Seq<u8> {
    if uses_palette(bpp, pal) {
        quantized(f, pal.unwrap())
    } else {
        f
    }
}

/// The crop of `f` (a `fw`-wide frame) to the box `b = (x, y, w, h)`.
pub open spec fn crop_of(f: Seq<u8>, fw: u32, b: (u8, u8, u8, u8)) -> Seq<u8> {
    crop_rows(f, fw as nat, b.0 as nat, b.1 as nat, b.2 as nat, b.3 as nat)
}

/// Whether the box `b` can be cut out of `f`: its edges fit in a byte and its
/// last pixel lies inside the frame.
pub open spec fn crop_fits(f: Seq<u8>, fw: u32, b: (u8, u8, u8, u8)) -> bool {
    &&& b.1 + b.3 <= 255
    &&& b.3 > 0 ==> b.0 + b.2 <= 255
    &&& b.3 > 0 && b.2 > 0 ==> (b.1 + b.3 - 1) * fw + b.0 + b.2 <= f.len()
}

/// Every frame cropped to the animation-wide box and prepared for storage.
pub open spec fn union_frames(frames: Seq<Vec<u8>>, fw: u32, fh: u32, bpp: u8, pal: Option<Seq<u8>>) -> Seq<Seq<u8>> {
    let b = bbox_spec(frames, fw, fh);
    Seq::new(frames.len(), |k: int| prepare(crop_of(frames[k]@, fw, b), bpp, pal))
}

/// What the bounding-box scan of the frames needs: i32-sized dimensions and
/// lengths, and no opaque pixel in a zero-wide frame.
pub open spec fn frames_scan_ok(frames: Seq<Vec<u8>>, fw: u32, fh: u32) -> bool {
    &&& fw <= i32::MAX
    &&& fh <= i32::MAX
    &&& forall|k: int| 0 <= k < frames.len() ==> #[trigger] frames[k].len() <= i32::MAX - 1
    &&& fw == 0 ==> forall|k: int| 0 <= k < frames.len() ==> !has_opaque(#[trigger] frames[k]@)
}

/// Every frame can be cut to the animation-wide box.
pub open spec fn union_crops_fit(frames: Seq<Vec<u8>>, fw: u32, fh: u32) -> bool {
    forall|k: int| 0 <= k < frames.len() ==> crop_fits(#[trigger] frames[k]@, fw, bbox_spec(frames, fw, fh))
}

/// Block start: frame count (as a byte), encoding type, bpp, and the packed
/// palette when one is in use.
pub open spec fn block_head(n: nat, typ: u8, bpp: u8, pal: Option<Seq<u8>>) -> Seq<u8> {
    seq![n as u8, typ, bpp] + if uses_palette(bpp, pal) {
        packed_palette(pal.unwrap())
    } else {
        seq![]
    }
}

/// Sum of the lengths, each truncated to 16 bits, of the first `k` data blobs.
pub open spec fn trunc_len_sum(ds: Seq<Seq<u8>>, k: nat) -> nat
    decreases k,
{
    if k == 0 {
        0
    } else {
        trunc_len_sum(ds, (k - 1) as nat) + ds[k - 1].len() % 65536
    }
}

/// The 16-bit offset table stays in range for every blob.
pub open spec fn offsets_fit(ds: Seq<Seq<u8>>) -> bool {
    trunc_len_sum(ds, ds.len()) <= 65535
}

/// A value as two bytes, little-endian (low 16 bits).
pub open spec fn le16(v: nat) -> Seq<u8> {
    seq![(v % 256) as u8, ((v / 256) % 256) as u8]
}

/// Offsets (u16 LE) of the first `k` blobs in the data area.
pub open spec fn offset_table(ds: Seq<Seq<u8>>, k: nat) -> Seq<u8>
    decreases k,
{
    if k == 0 {
        seq![]
    } else {
        offset_table(ds, (k - 1) as nat) + le16(trunc_len_sum(ds, (k - 1) as nat))
    }
}

/// The first `k` blobs one after the other.
pub open spec fn concat_all(ds: Seq<Seq<u8>>, k: nat) -> Seq<u8>
    decreases k,
{
    if k == 0 {
        seq![]
    } else {
        concat_all(ds, (k - 1) as nat) + ds[k - 1]
    }
}

/// Total length of the first `k` blobs.
pub open spec fn total_len(ds: Seq<Seq<u8>>, k: nat) -> nat
    decreases k,
{
    if k == 0 {
        0
    } else {
        total_len(ds, (k - 1) as nat) + ds[k - 1].len()
    }
}

/// Pixelwise XOR of two frames over the length they share.
pub open spec fn xor_seq(a: Seq<u8>, b: Seq<u8>) -> Seq<u8> {
    Seq::new(if a.len() <= b.len() { a.len() } else { b.len() }, |k: int| a[k] ^ b[k])
}

/// Number of entries of `s[..k]` that differ from `v`.
pub open spec fn count_not(s: Seq<u8>, v: u8, k: nat) -> nat
    decreases k,
{
    if k == 0 {
        0
    } else {
        count_not(s, v, (k - 1) as nat) + if s[k - 1] != v { 1nat } else { 0nat }
    }
}

pub(crate) proof fn lemma_concat_all_len(ds: Seq<Seq<u8>>, k: nat)
    requires
        k <= ds.len(),
    ensures
        concat_all(ds, k).len() == total_len(ds, k),
    decreases k,
{
    if k > 0 {
        lemma_concat_all_len(ds, (k - 1) as nat);
    }
}

pub(crate) fn push_block_head(block: &mut Vec<u8>, n: usize, typ: u8, bpp: u8, palette: Option<&[u8]>)
    ensures
        final(block)@ == old(block)@ + block_head(n as nat, typ, bpp, pal_view(palette)),
{
    let ghost start = block@;
    block.push(#[verifier::truncate] (n as u8));
    block.push(typ);
    block.push(bpp);
    if bpp < 4 {
        if let Some(pal) = palette {
            let mut packed = pack_palette(pal);
            block.append(&mut packed);
        }
    }
    assert(block@ =~= start + block_head(n as nat, typ, bpp, pal_view(palette)));
}

pub(crate) fn push_offsets(block: &mut Vec<u8>, datas: &Vec<Vec<u8>>)
    requires
        offsets_fit(seqs_of(datas@)),
    ensures
        final(block)@ == old(block)@ + offset_table(seqs_of(datas@), datas.len() as nat),
{
    let ghost ds = seqs_of(datas@);
    let ghost start = block@;
    let mut offset: u16 = 0;
    let mut k: usize = 0;
    while k < datas.len()
        invariant
            k <= datas.len(),
            ds == seqs_of(datas@),
            offsets_fit(ds),
            offset as nat == trunc_len_sum(ds, k as nat),
            block@ == start + offset_table(ds, k as nat),
        decreases datas.len() - k,
    {
        proof {
            lemma_trunc_len_sum_mono(ds, (k + 1) as nat, ds.len());
        }
        let lo: u8 = (offset & 0xFF) as u8;
        let hi: u8 = ((offset >> 8u16) & 0xFF) as u8;
        assert(offset & 0xFF == offset % 256 && (offset >> 8u16) & 0xFF == (offset / 256) % 256) by (bit_vector);
        block.push(lo);
        block.push(hi);
        assert(block@ =~= start + offset_table(ds, (k + 1) as nat));
        let dl: usize = datas[k].len();
        let len16: u16 = #[verifier::truncate] (dl as u16);
        assert(dl as u16 == dl % 65536) by (bit_vector);
        offset = offset + len16;
        k += 1;
    }
}

proof fn lemma_trunc_len_sum_mono(ds: Seq<Seq<u8>>, j: nat, k: nat)
    requires
        j <= k,
    ensures
        trunc_len_sum(ds, j) <= trunc_len_sum(ds, k),
    decreases k,
{
    if j < k {
        lemma_trunc_len_sum_mono(ds, j, (k - 1) as nat);
    }
}

pub(crate) fn push_all(block: &mut Vec<u8>, datas: &Vec<Vec<u8>>)
    ensures
        final(block)@ == old(block)@ + concat_all(seqs_of(datas@), datas.len() as nat),
{
    let ghost ds = seqs_of(datas@);
    let ghost start = block@;
    let mut k: usize = 0;
    while k < datas.len()
        invariant
            k <= datas.len(),
            ds == seqs_of(datas@),
            block@ == start + concat_all(ds, k as nat),
        decreases datas.len() - k,
    {
        let mut copy = datas[k].clone();
        block.append(&mut copy);
        assert(block@ =~= start + concat_all(ds, (k + 1) as nat));
        k += 1;
    }
}

pub(crate) fn xor_frames(a: &Vec<u8>, b: &Vec<u8>) -> (out: Vec<u8>)
    ensures
        out@ == xor_seq(a@, b@),
{
    let n: usize = if a.len() <= b.len() { a.len() } else { b.len() };
    let mut out: Vec<u8> = Vec::new();
    let mut k: usize = 0;
    while k < n
        invariant
            k <= n,
            n <= a.len(),
            n <= b.len(),
            out.len() == k,
            forall|j: int| 0 <= j < k ==> out[j] == a[j] ^ b[j],
        decreases n - k,
    {
        out.push(a[k] ^ b[k]);
        k += 1;
    }
    assert(out@ =~= xor_seq(a@, b@));
    out
}

pub(crate) fn prepare_frame(f: Vec<u8>, bpp: u8, palette: Option<&[u8]>) -> (out: Vec<u8>)
    ensures
        out@ == prepare(f@, bpp, pal_view(palette)),
{
    if bpp < 4 {
        if let Some(pal) = palette {
            return quantize_pixels(f.as_slice(), pal);
        }
    }
    f
}

pub(crate) fn union_crops(frames: &[Vec<u8>], fw: u32, fh: u32, b: (u8, u8, u8, u8), bpp: u8, palette: Option<&[u8]>) -> (out: Vec<Vec<u8>>)
    requires
        b == bbox_spec(frames@, fw, fh),
        union_crops_fit(frames@, fw, fh),
    ensures
        seqs_of(out@) == union_frames(frames@, fw, fh, bpp, pal_view(palette)),
{
    let mut out: Vec<Vec<u8>> = Vec::new();
    let mut k: usize = 0;
    while k < frames.len()
        invariant
            k <= frames.len(),
            b == bbox_spec(frames@, fw, fh),
            union_crops_fit(frames@, fw, fh),
            out.len() == k,
            forall|j: int| 0 <= j < k ==> (#[trigger] out[j])@ == prepare(crop_of(frames@[j]@, fw, b), bpp, pal_view(palette)),
        decreases frames.len() - k,
    {
        assert(crop_fits(frames@[k as int]@, fw, b));
        let c = crop_pixels(frames[k].as_slice(), fw, b.0, b.1, b.2, b.3);
        let p = prepare_frame(c, bpp, palette);
        out.push(p);
        k += 1;
    }
    assert(seqs_of(out@) =~= union_frames(frames@, fw, fh, bpp, pal_view(palette)));
    out
}


pub(crate) proof fn lemma_crop_rows_len(f: Seq<u8>, fw: nat, bx: nat, by: nat, bw: nat, k: nat)
    ensures
        crop_rows(f, fw, bx, by, bw, k).len() == k * bw,
    decreases k,
{
    if k > 0 {
        lemma_crop_rows_len(f, fw, bx, by, bw, (k - 1) as nat);
        assert(k * bw == (k - 1) * bw + bw) by (nonlinear_arith);
    } else {
        assert(0 * bw == 0);
    }
}

pub(crate) proof fn lemma_union_frames_len(frames: Seq<Vec<u8>>, fw: u32, fh: u32, bpp: u8, pal: Option<Seq<u8>>)
    ensures
        forall|k: int| 0 <= k < frames.len() ==> #[trigger] union_frames(frames, fw, fh, bpp, pal)[k].len()
            == bbox_spec(frames, fw, fh).2 * bbox_spec(frames, fw, fh).3,
{
    let b = bbox_spec(frames, fw, fh);
    assert forall|k: int| 0 <= k < frames.len() implies #[trigger] union_frames(frames, fw, fh, bpp, pal)[k].len()
        == b.2 * b.3 by {
        lemma_crop_rows_len(frames[k]@, fw as nat, b.0 as nat, b.1 as nat, b.2 as nat, b.3 as nat);
        assert(b.3 * b.2 == b.2 * b.3) by (nonlinear_arith);
    }
}

proof fn lemma_eg2_best_range(p: Seq<u8>, bpp: nat, w: nat, k: nat)
    requires
        1 <= k <= 6,
    ensures
        eg2_best_upto(p, bpp, w, k) is Some,
        (eg2_best_upto(p, bpp, w, k).unwrap().1 == 0u8 || eg2_best_upto(p, bpp, w, k).unwrap().1 == 4u8),
        1 <= eg2_best_upto(p, bpp, w, k).unwrap().2 <= 3,
    decreases k,
{
    let j = (k - 1) as nat;
    assert(j % 3 + 1 <= 3);
    assert(eg2_try_order(j) == (j % 3 + 1) as u8);
    assert(1 <= eg2_try_order(j) <= 3);
    assert(eg2_try_mode(j) == 0u8 || eg2_try_mode(j) == 4u8);
    if k > 1 {
        lemma_eg2_best_range(p, bpp, w, (k - 1) as nat);
    } else {
        assert(eg2_best_upto(p, bpp, w, 0) is None);
    }
}

/// Reference and encoding that type 4 picks for frame `i` among: no
/// reference, or an XOR against each earlier frame `r < limit`; a later option
/// replaces the best only when its EG-2 stream is strictly shorter.
pub open spec fn t4_pick(cs: Seq<Seq<u8>>, i: int, bpp: nat, w: nat, limit: nat) -> (u8, (Seq<u8>, u8, u8))
    decreases limit,
{
    if limit == 0 {
        (255u8, eg2_best(cs[i], bpp, w))
    } else {
        let prev = t4_pick(cs, i, bpp, w, (limit - 1) as nat);
        let cand = eg2_best(xor_seq(cs[i], cs[limit - 1]), bpp, w);
        if cand.0.len() < prev.1.0.len() {
            ((limit - 1) as u8, cand)
        } else {
            prev
        }
    }
}

/// Type 4's choice for each frame: (reference, (stream, mode, order)).
pub open spec fn t4_choices(cs: Seq<Seq<u8>>, bpp: nat, w: nat) -> Seq<(u8, (Seq<u8>, u8, u8))> {
    Seq::new(cs.len(), |i: int| t4_pick(cs, i, bpp, w, i as nat))
}

/// Frame data blobs of type 4.
pub open spec fn t4_datas(frames: Seq<Vec<u8>>, fw: u32, fh: u32, bpp: u8, pal: Option<Seq<u8>>) -> Seq<Seq<u8>> {
    let b = bbox_spec(frames, fw, fh);
    let ch = t4_choices(union_frames(frames, fw, fh, bpp, pal), bpp as nat, b.2 as nat);
    Seq::new(ch.len(), |i: int| ch[i].1.0)
}

/// Reference bytes of type 4 (255 = none).
pub open spec fn t4_refs(frames: Seq<Vec<u8>>, fw: u32, fh: u32, bpp: u8, pal: Option<Seq<u8>>) -> Seq<u8> {
    let b = bbox_spec(frames, fw, fh);
    let ch = t4_choices(union_frames(frames, fw, fh, bpp, pal), bpp as nat, b.2 as nat);
    Seq::new(ch.len(), |i: int| ch[i].0)
}

/// Letter of an EG-2 diff mode in the type 4 summary.
pub open spec fn mode_letter(m: u8) -> Seq<char> {
    if m == 4 {
        "P"@
    } else if m == 0 {
        "_"@
    } else if m == 1 {
        "L"@
    } else if m == 2 {
        "U"@
    } else {
        "D"@
    }
}

/// Mode letter and order of the first `k` type 4 choices.
pub open spec fn t4_mode_text(ch: Seq<(u8, (Seq<u8>, u8, u8))>, k: nat) -> Seq<char>
    decreases k,
{
    if k == 0 {
        seq![]
    } else {
        t4_mode_text(ch, (k - 1) as nat) + mode_letter(ch[k - 1].1.1) + decimal(ch[k - 1].1.2 as nat)
    }
}

/// What type 4 needs: a scannable animation, crops that fit, at most 8 bpp,
/// and frame data whose 16-bit offsets do not overflow.
pub open spec fn t4_ok(frames: Seq<Vec<u8>>, fw: u32, fh: u32, bpp: u8, pal: Option<Seq<u8>>) -> bool {
    &&& frames_scan_ok(frames, fw, fh)
    &&& union_crops_fit(frames, fw, fh)
    &&& bpp <= 8
    &&& offsets_fit(t4_datas(frames, fw, fh, bpp, pal))
}

/// Type 4 block: head, animation box, reference bytes, offsets, frame data.
pub open spec fn t4_block(frames: Seq<Vec<u8>>, fw: u32, fh: u32, bpp: u8, pal: Option<Seq<u8>>) -> Seq<u8> {
    let b = bbox_spec(frames, fw, fh);
    let ds = t4_datas(frames, fw, fh, bpp, pal);
    block_head(frames.len(), 4, bpp, pal) + seq![b.0, b.1, b.2, b.3] + t4_refs(frames, fw, fh, bpp, pal)
        + offset_table(ds, ds.len()) + concat_all(ds, ds.len())
}

/// Type 4 summary: "EG {w}x{h} data={total}b refs={with ref}/{n} m={modes}".
pub open spec fn t4_info(frames: Seq<Vec<u8>>, fw: u32, fh: u32, bpp: u8, pal: Option<Seq<u8>>) -> Seq<char> {
    let b = bbox_spec(frames, fw, fh);
    let ds = t4_datas(frames, fw, fh, bpp, pal);
    let refs = t4_refs(frames, fw, fh, bpp, pal);
    let ch = t4_choices(union_frames(frames, fw, fh, bpp, pal), bpp as nat, b.2 as nat);
    "EG "@ + decimal(b.2 as nat) + "x"@ + decimal(b.3 as nat) + " data="@ + decimal(total_len(ds, ds.len()))
        + "b refs="@ + decimal(count_not(refs, 255, refs.len())) + "/"@ + decimal(frames.len()) + " m="@
        + t4_mode_text(ch, ch.len())
}

fn t4_encode_frame(cs: &Vec<Vec<u8>>, i: usize, bpp: u8, bw: u8, bh: u8) -> (res: (u8, Vec<u8>, u8, u8))
    requires
        i < cs.len(),
        bpp <= 8,
        forall|k: int| 0 <= k < cs.len() ==> #[trigger] cs[k].len() == bw * bh,
    ensures
        (res.0, (res.1@, res.2, res.3)) == t4_pick(seqs_of(cs@), i as int, bpp as nat, bw as nat, i as nat),
{
    let ghost css = seqs_of(cs@);
    assert(cs[i as int].len() > 0 ==> bw > 0) by (nonlinear_arith)
        requires
            cs[i as int].len() == bw * bh,
    ;
    let (mut best_enc, mut best_mode, mut best_order) = eg2_encode_frame(cs[i].as_slice(), bpp, bw as usize, bh as usize);
    let mut best_ref: u8 = 255;
    let mut r: usize = 0;
    while r < i
        invariant
            r <= i,
            i < cs.len(),
            bpp <= 8,
            css == seqs_of(cs@),
            forall|k: int| 0 <= k < cs.len() ==> #[trigger] cs[k].len() == bw * bh,
            (best_ref, (best_enc@, best_mode, best_order)) == t4_pick(css, i as int, bpp as nat, bw as nat, r as nat),
        decreases i - r,
    {
        assert(cs[i as int].len() == bw * bh);
        assert(cs[r as int].len() == bw * bh);
        let xor_diff = xor_frames(&cs[i], &cs[r]);
        assert(xor_diff.len() > 0 ==> bw > 0) by (nonlinear_arith)
            requires
                xor_diff.len() <= bw * bh,
        ;
        let (enc, mode, order) = eg2_encode_frame(xor_diff.as_slice(), bpp, bw as usize, bh as usize);
        if enc.len() < best_enc.len() {
            best_enc = enc;
            best_ref = #[verifier::truncate] (r as u8);
            best_mode = mode;
            best_order = order;
        }
        r += 1;
    }
    (best_ref, best_enc, best_mode, best_order)
}

/// Type 4: Referenced XOR + EG-2 with per-frame diff modes.
pub fn encode_type4(frames: &[Vec<u8>], fw: u32, fh: u32, bpp: u8, palette: Option<&[u8]>) -> (res: (Vec<u8>, String))
    requires
        t4_ok(frames@, fw, fh, bpp, pal_view(palette)),
    ensures
        res.0@ == t4_block(frames@, fw, fh, bpp, pal_view(palette)),
        res.1@ == t4_info(frames@, fw, fh, bpp, pal_view(palette)),
{
    let ghost pal = pal_view(palette);
    let n = frames.len();
    let (bx, by, bw, bh) = get_bbox(frames, fw, fh);
    let cropped = union_crops(frames, fw, fh, (bx, by, bw, bh), bpp, palette);
    let ghost cs = seqs_of(cropped@);
    proof {
        lemma_union_frames_len(frames@, fw, fh, bpp, pal);
        assert forall|k: int| 0 <= k < cropped.len() implies #[trigger] cropped[k].len() == bw * bh by {
            assert(cs[k] == cropped[k]@);
        }
    }
    let mut refs: Vec<u8> = Vec::new();
    let mut frame_data: Vec<Vec<u8>> = Vec::new();
    let mut modes: Vec<u8> = Vec::new();
    let mut orders: Vec<u8> = Vec::new();
    let ghost ch = t4_choices(cs, bpp as nat, bw as nat);
    let mut i: usize = 0;
    while i < n
        invariant
            i <= n,
            n == frames.len(),
            n == cropped.len(),
            bpp <= 8,
            cs == seqs_of(cropped@),
            ch == t4_choices(cs, bpp as nat, bw as nat),
            forall|k: int| 0 <= k < cropped.len() ==> #[trigger] cropped[k].len() == bw * bh,
            refs.len() == i,
            frame_data.len() == i,
            modes.len() == i,
            orders.len() == i,
            forall|k: int| 0 <= k < i ==> (refs[k], (frame_data[k]@, modes[k], orders[k])) == #[trigger] ch[k],
        decreases n - i,
    {
        let (r, enc, m, o) = t4_encode_frame(&cropped, i, bpp, bw, bh);
        refs.push(r);
        frame_data.push(enc);
        modes.push(m);
        orders.push(o);
        i += 1;
    }
    let ghost ds = seqs_of(frame_data@);
    assert(ds =~= t4_datas(frames@, fw, fh, bpp, pal));
    assert(refs@ =~= t4_refs(frames@, fw, fh, bpp, pal));
    let mut block: Vec<u8> = Vec::new();
    push_block_head(&mut block, n, 4, bpp, palette);
    block.push(bx);
    block.push(by);
    block.push(bw);
    block.push(bh);
    let mut k: usize = 0;
    while k < n
        invariant
            k <= n,
            refs.len() == n,
            block@ == block_head(n as nat, 4, bpp, pal) + seq![bx, by, bw, bh] + refs@.take(k as int),
        decreases n - k,
    {
        block.push(refs[k]);
        assert(refs@.take(k + 1) =~= refs@.take(k as int).push(refs[k as int]));
        k += 1;
    }
    assert(refs@.take(n as int) =~= refs@);
    push_offsets(&mut block, &frame_data);
    push_all(&mut block, &frame_data);
    proof {
        lemma_concat_all_len(ds, n as nat);
    }
    let block_len = block.len();
    let total = sum_lens(&frame_data);
    let ref_count = count_refs(&refs, 255);
    let mut info = String::new();
    info.append("EG ");
    push_decimal(&mut info, bw as usize);
    info.append("x");
    push_decimal(&mut info, bh as usize);
    info.append(" data=");
    push_decimal(&mut info, total);
    info.append("b refs=");
    push_decimal(&mut info, ref_count);
    info.append("/");
    push_decimal(&mut info, n);
    info.append(" m=");
    let ghost head = info@;
    let mut j: usize = 0;
    while j < n
        invariant
            j <= n,
            n == frames.len(),
            n == ch.len(),
            modes.len() == n,
            orders.len() == n,
            forall|k: int| 0 <= k < n ==> modes[k] == (#[trigger] ch[k]).1.1 && orders[k] == ch[k].1.2,
            info@ == head + t4_mode_text(ch, j as nat),
        decreases n - j,
    {
        let m = modes[j];
        if m == 4 {
            info.append("P");
        } else if m == 0 {
            info.append("_");
        } else if m == 1 {
            info.append("L");
        } else if m == 2 {
            info.append("U");
        } else {
            info.append("D");
        }
        push_decimal(&mut info, orders[j] as usize);
        j += 1;
    }
    (block, info)
}

pub(crate) fn sum_lens(datas: &Vec<Vec<u8>>) -> (total: usize)
    requires
        total_len(seqs_of(datas@), datas.len() as nat) <= usize::MAX,
    ensures
        total == total_len(seqs_of(datas@), datas.len() as nat),
{
    let ghost ds = seqs_of(datas@);
    let mut total: usize = 0;
    let mut k: usize = 0;
    while k < datas.len()
        invariant
            k <= datas.len(),
            ds == seqs_of(datas@),
            total_len(ds, datas.len() as nat) <= usize::MAX,
            total == total_len(ds, k as nat),
        decreases datas.len() - k,
    {
        proof {
            lemma_total_len_mono(ds, (k + 1) as nat, datas.len() as nat);
        }
        total = total + datas[k].len();
        k += 1;
    }
    total
}

pub(crate) proof fn lemma_total_len_mono(ds: Seq<Seq<u8>>, j: nat, k: nat)
    requires
        j <= k,
    ensures
        total_len(ds, j) <= total_len(ds, k),
    decreases k,
{
    if j < k {
        lemma_total_len_mono(ds, j, (k - 1) as nat);
    }
}

pub(crate) fn count_refs(refs: &Vec<u8>, none: u8) -> (c: usize)
    ensures
        c == count_not(refs@, none, refs.len() as nat),
{
    let mut c: usize = 0;
    let mut k: usize = 0;
    while k < refs.len()
        invariant
            k <= refs.len(),
            c <= k,
            c == count_not(refs@, none, k as nat),
        decreases refs.len() - k,
    {
        if refs[k] != none {
            c += 1;
        }
        k += 1;
    }
    c
}


/// Every frame can be cut to its own bounding box.
pub open spec fn frame_crops_fit(frames: Seq<Vec<u8>>, fw: u32, fh: u32) -> bool {
    forall|k: int| 0 <= k < frames.len() ==> crop_fits(#[trigger] frames[k]@, fw, frame_bbox_spec(frames[k]@, fw, fh))
}

/// A frame coded on its own bounding box: the box, then its EG-2 stream; just
/// four zero bytes when the box is empty.
pub open spec fn pf_data(f: Seq<u8>, fw: u32, fh: u32, bpp: u8, pal: Option<Seq<u8>>, need_height: bool) -> Seq<u8> {
    let bb = frame_bbox_spec(f, fw, fh);
    if bb.2 == 0 || (need_height && bb.3 == 0) {
        seq![0u8, 0u8, 0u8, 0u8]
    } else {
        seq![bb.0, bb.1, bb.2, bb.3] + eg2_best(prepare(crop_of(f, fw, bb), bpp, pal), bpp as nat, bb.2 as nat).0
    }
}

/// Frame data blobs of type 5.
pub open spec fn t5_datas(frames: Seq<Vec<u8>>, fw: u32, fh: u32, bpp: u8, pal: Option<Seq<u8>>) -> Seq<Seq<u8>> {
    Seq::new(frames.len(), |k: int| pf_data(frames[k]@, fw, fh, bpp, pal, true))
}

/// Largest of the first `k` box widths (`which == 2`) or heights (`which == 3`)
/// of frames with a non-empty box, 0 if none.
pub open spec fn t5_max_dim(frames: Seq<Vec<u8>>, fw: u32, fh: u32, k: nat, which: nat) -> u8
    decreases k,
{
    if k == 0 {
        0
    } else {
        let prev = t5_max_dim(frames, fw, fh, (k - 1) as nat, which);
        let bb = frame_bbox_spec(frames[k - 1]@, fw, fh);
        let v: u8 = if bb.2 == 0 || bb.3 == 0 { 0 } else if which == 2 { bb.2 } else { bb.3 };
        if v > prev { v } else { prev }
    }
}

/// What type 5 needs: scannable frames whose own boxes can be cut, at most 8 bpp,
/// and 16-bit offsets that do not overflow.
pub open spec fn t5_ok(frames: Seq<Vec<u8>>, fw: u32, fh: u32, bpp: u8, pal: Option<Seq<u8>>) -> bool {
    &&& frames_scan_ok(frames, fw, fh)
    &&& frame_crops_fit(frames, fw, fh)
    &&& bpp <= 8
    &&& offsets_fit(t5_datas(frames, fw, fh, bpp, pal))
}

/// Type 5 block: head, offsets, per-frame data.
pub open spec fn t5_block(frames: Seq<Vec<u8>>, fw: u32, fh: u32, bpp: u8, pal: Option<Seq<u8>>) -> Seq<u8> {
    let ds = t5_datas(frames, fw, fh, bpp, pal);
    block_head(frames.len(), 5, bpp, pal) + offset_table(ds, ds.len()) + concat_all(ds, ds.len())
}

/// Type 5 summary: "PF {max w}x{max h} data={total}b".
pub open spec fn t5_info(frames: Seq<Vec<u8>>, fw: u32, fh: u32, bpp: u8, pal: Option<Seq<u8>>) -> Seq<char> {
    let ds = t5_datas(frames, fw, fh, bpp, pal);
    "PF "@ + decimal(t5_max_dim(frames, fw, fh, frames.len(), 2) as nat) + "x"@ + decimal(
        t5_max_dim(frames, fw, fh, frames.len(), 3) as nat,
    ) + " data="@ + decimal(total_len(ds, ds.len())) + "b"@
}

fn encode_own_box(f: &Vec<u8>, fw: u32, fh: u32, bpp: u8, palette: Option<&[u8]>, need_height: bool) -> (res: (Vec<u8>, u8, u8))
    requires
        fw <= i32::MAX,
        fh <= i32::MAX,
        f.len() <= i32::MAX - 1,
        fw == 0 ==> !has_opaque(f@),
        crop_fits(f@, fw, frame_bbox_spec(f@, fw, fh)),
        bpp <= 8,
    ensures
        res.0@ == pf_data(f@, fw, fh, bpp, pal_view(palette), need_height),
        ({
            let bb = frame_bbox_spec(f@, fw, fh);
            if bb.2 == 0 || (need_height && bb.3 == 0) { res.1 == 0 && res.2 == 0 } else { res.1 == bb.2 && res.2 == bb.3 }
        }),
{
    let (bx, by, bw, bh) = get_frame_bbox(f.as_slice(), fw, fh);
    if bw == 0 || (need_height && bh == 0) {
        return (vec![0u8, 0u8, 0u8, 0u8], 0, 0);
    }
    let cropped = crop_pixels(f.as_slice(), fw, bx, by, bw, bh);
    let cropped = prepare_frame(cropped, bpp, palette);
    proof {
        lemma_crop_rows_len(f@, fw as nat, bx as nat, by as nat, bw as nat, bh as nat);
    }
    let (enc, _mode, _order) = eg2_encode_frame(cropped.as_slice(), bpp, bw as usize, bh as usize);
    let mut fd: Vec<u8> = vec![bx, by, bw, bh];
    let mut enc = enc;
    fd.append(&mut enc);
    assert(fd@ =~= pf_data(f@, fw, fh, bpp, pal_view(palette), need_height));
    (fd, bw, bh)
}

/// Type 5: Per-frame bbox + EG-2 (no cross-frame refs).
pub fn encode_type5(frames: &[Vec<u8>], fw: u32, fh: u32, bpp: u8, palette: Option<&[u8]>) -> (res: (Vec<u8>, String))
    requires
        t5_ok(frames@, fw, fh, bpp, pal_view(palette)),
    ensures
        res.0@ == t5_block(frames@, fw, fh, bpp, pal_view(palette)),
        res.1@ == t5_info(frames@, fw, fh, bpp, pal_view(palette)),
{
    let ghost pal = pal_view(palette);
    let n = frames.len();
    let mut frame_datas: Vec<Vec<u8>> = Vec::new();
    let mut max_bw: u8 = 0;
    let mut max_bh: u8 = 0;
    let mut k: usize = 0;
    while k < n
        invariant
            k <= n,
            n == frames.len(),
            t5_ok(frames@, fw, fh, bpp, pal),
            pal == pal_view(palette),
            frame_datas.len() == k,
            forall|j: int| 0 <= j < k ==> (#[trigger] frame_datas[j])@ == pf_data(frames@[j]@, fw, fh, bpp, pal, true),
            max_bw == t5_max_dim(frames@, fw, fh, k as nat, 2),
            max_bh == t5_max_dim(frames@, fw, fh, k as nat, 3),
        decreases n - k,
    {
        assert(frames[k as int].len() <= i32::MAX - 1);
        assert(fw == 0 ==> !has_opaque(frames[k as int]@));
        assert(crop_fits(frames@[k as int]@, fw, frame_bbox_spec(frames@[k as int]@, fw, fh)));
        let (fd, w, h) = encode_own_box(&frames[k], fw, fh, bpp, palette, true);
        frame_datas.push(fd);
        if w > max_bw {
            max_bw = w;
        }
        if h > max_bh {
            max_bh = h;
        }
        k += 1;
    }
    let ghost ds = seqs_of(frame_datas@);
    assert(ds =~= t5_datas(frames@, fw, fh, bpp, pal));
    let mut block: Vec<u8> = Vec::new();
    push_block_head(&mut block, n, 5, bpp, palette);
    push_offsets(&mut block, &frame_datas);
    push_all(&mut block, &frame_datas);
    proof {
        lemma_concat_all_len(ds, n as nat);
    }
    let block_len = block.len();
    let total = sum_lens(&frame_datas);
    let mut info = String::new();
    info.append("PF ");
    push_decimal(&mut info, max_bw as usize);
    info.append("x");
    push_decimal(&mut info, max_bh as usize);
    info.append(" data=");
    push_decimal(&mut info, total);
    info.append("b");
    (block, info)
}

/// Type 6's union-box option for frame `i`: no reference, or an XOR against an
/// earlier frame `r < limit` that is coded on the union box (its flag is not
/// 254), replacing the best only when strictly shorter.
pub open spec fn t6_union_pick(us: Seq<Seq<u8>>, flags: Seq<u8>, i: int, bpp: nat, w: nat, limit: nat) -> (u8, Seq<u8>)
    decreases limit,
{
    if limit == 0 {
        (255u8, eg2_best(us[i], bpp, w).0)
    } else {
        let prev = t6_union_pick(us, flags, i, bpp, w, (limit - 1) as nat);
        if flags[limit - 1] == 254 {
            prev
        } else {
            let cand = eg2_best(xor_seq(us[i], us[limit - 1]), bpp, w).0;
            if cand.len() < prev.1.len() {
                ((limit - 1) as u8, cand)
            } else {
                prev
            }
        }
    }
}

/// Type 6 decisions for the first `i` frames: (flag, data). The flag is 254 for
/// a frame kept on its own box (when that is strictly shorter), else the
/// union-box reference (255 = none).
pub open spec fn t6_steps(frames: Seq<Vec<u8>>, fw: u32, fh: u32, bpp: u8, pal: Option<Seq<u8>>, i: nat) -> Seq<(u8, Seq<u8>)>
    decreases i,
{
    if i == 0 {
        seq![]
    } else {
        let prev = t6_steps(frames, fw, fh, bpp, pal, (i - 1) as nat);
        let flags = Seq::new(prev.len(), |k: int| prev[k].0);
        let us = union_frames(frames, fw, fh, bpp, pal);
        let pf = pf_data(frames[i - 1]@, fw, fh, bpp, pal, false);
        let u = t6_union_pick(us, flags, i - 1, bpp as nat, bbox_spec(frames, fw, fh).2 as nat, (i - 1) as nat);
        prev.push(if pf.len() < u.1.len() { (254u8, pf) } else { u })
    }
}

/// Flag bytes of type 6.
pub open spec fn t6_flags(frames: Seq<Vec<u8>>, fw: u32, fh: u32, bpp: u8, pal: Option<Seq<u8>>) -> Seq<u8> {
    let st = t6_steps(frames, fw, fh, bpp, pal, frames.len());
    Seq::new(st.len(), |k: int| st[k].0)
}

/// Frame data blobs of type 6.
pub open spec fn t6_datas(frames: Seq<Vec<u8>>, fw: u32, fh: u32, bpp: u8, pal: Option<Seq<u8>>) -> Seq<Seq<u8>> {
    let st = t6_steps(frames, fw, fh, bpp, pal, frames.len());
    Seq::new(st.len(), |k: int| st[k].1)
}

/// What type 6 needs: the needs of both the union box and the per-frame boxes.
pub open spec fn t6_ok(frames: Seq<Vec<u8>>, fw: u32, fh: u32, bpp: u8, pal: Option<Seq<u8>>) -> bool {
    &&& frames_scan_ok(frames, fw, fh)
    &&& union_crops_fit(frames, fw, fh)
    &&& frame_crops_fit(frames, fw, fh)
    &&& bpp <= 8
    &&& offsets_fit(t6_datas(frames, fw, fh, bpp, pal))
}

/// Type 6 block: head, union box, flags, offsets, frame data.
pub open spec fn t6_block(frames: Seq<Vec<u8>>, fw: u32, fh: u32, bpp: u8, pal: Option<Seq<u8>>) -> Seq<u8> {
    let b = bbox_spec(frames, fw, fh);
    let ds = t6_datas(frames, fw, fh, bpp, pal);
    block_head(frames.len(), 6, bpp, pal) + seq![b.0, b.1, b.2, b.3] + t6_flags(frames, fw, fh, bpp, pal)
        + offset_table(ds, ds.len()) + concat_all(ds, ds.len())
}

/// Number of entries of `s[..k]` equal to `v`.
pub open spec fn count_eq(s: Seq<u8>, v: u8, k: nat) -> nat
    decreases k,
{
    if k == 0 {
        0
    } else {
        count_eq(s, v, (k - 1) as nat) + if s[k - 1] == v { 1nat } else { 0nat }
    }
}

/// Number of entries of `s[..k]` below `v`.
pub open spec fn count_below(s: Seq<u8>, v: u8, k: nat) -> nat
    decreases k,
{
    if k == 0 {
        0
    } else {
        count_below(s, v, (k - 1) as nat) + if s[k - 1] < v { 1nat } else { 0nat }
    }
}

/// Type 6 summary: "HY {w}x{h} data={total}b pf={own box}/{n} refs={with ref}/{n}".
pub open spec fn t6_info(frames: Seq<Vec<u8>>, fw: u32, fh: u32, bpp: u8, pal: Option<Seq<u8>>) -> Seq<char> {
    let b = bbox_spec(frames, fw, fh);
    let ds = t6_datas(frames, fw, fh, bpp, pal);
    let flags = t6_flags(frames, fw, fh, bpp, pal);
    "HY "@ + decimal(b.2 as nat) + "x"@ + decimal(b.3 as nat) + " data="@ + decimal(total_len(ds, ds.len()))
        + "b pf="@ + decimal(count_eq(flags, 254, flags.len())) + "/"@ + decimal(frames.len()) + " refs="@
        + decimal(count_below(flags, 254, flags.len())) + "/"@ + decimal(frames.len())
}

fn count_matching(s: &Vec<u8>, v: u8, below: bool) -> (c: usize)
    ensures
        c == (if below { count_below(s@, v, s.len() as nat) } else { count_eq(s@, v, s.len() as nat) }),
{
    let mut c: usize = 0;
    let mut k: usize = 0;
    while k < s.len()
        invariant
            k <= s.len(),
            c <= k,
            c == (if below { count_below(s@, v, k as nat) } else { count_eq(s@, v, k as nat) }),
        decreases s.len() - k,
    {
        if (below && s[k] < v) || (!below && s[k] == v) {
            c += 1;
        }
        k += 1;
    }
    c
}

proof fn lemma_t6_steps_len(frames: Seq<Vec<u8>>, fw: u32, fh: u32, bpp: u8, pal: Option<Seq<u8>>, i: nat)
    ensures
        t6_steps(frames, fw, fh, bpp, pal, i).len() == i,
    decreases i,
{
    if i > 0 {
        lemma_t6_steps_len(frames, fw, fh, bpp, pal, (i - 1) as nat);
    }
}

/// Type 6: Hybrid per-frame bbox OR union+ref.
pub fn encode_type6(frames: &[Vec<u8>], fw: u32, fh: u32, bpp: u8, palette: Option<&[u8]>) -> (res: (Vec<u8>, String))
    requires
        t6_ok(frames@, fw, fh, bpp, pal_view(palette)),
    ensures
        res.0@ == t6_block(frames@, fw, fh, bpp, pal_view(palette)),
        res.1@ == t6_info(frames@, fw, fh, bpp, pal_view(palette)),
{
    let ghost pal = pal_view(palette);
    let n = frames.len();
    let (ubx, uby, ubw, ubh) = get_bbox(frames, fw, fh);
    let u_cropped = union_crops(frames, fw, fh, (ubx, uby, ubw, ubh), bpp, palette);
    let ghost us = seqs_of(u_cropped@);
    proof {
        lemma_union_frames_len(frames@, fw, fh, bpp, pal);
        assert(us == union_frames(frames@, fw, fh, bpp, pal));
        assert(us.len() == u_cropped@.len());
        assert(union_frames(frames@, fw, fh, bpp, pal).len() == n);
        assert forall|k: int| 0 <= k < u_cropped.len() implies #[trigger] u_cropped[k].len() == ubw * ubh by {
            assert(us[k] == u_cropped[k]@);
            assert(union_frames(frames@, fw, fh, bpp, pal)[k].len() == ubw * ubh);
        }
    }
    let mut flags: Vec<u8> = Vec::new();
    let mut frame_data: Vec<Vec<u8>> = Vec::new();
    let mut i: usize = 0;
    while i < n
        invariant
            i <= n,
            n == frames.len(),
            n == u_cropped.len(),
            t6_ok(frames@, fw, fh, bpp, pal),
            pal == pal_view(palette),
            us == seqs_of(u_cropped@),
            us == union_frames(frames@, fw, fh, bpp, pal),
            (ubx, uby, ubw, ubh) == bbox_spec(frames@, fw, fh),
            forall|k: int| 0 <= k < u_cropped.len() ==> #[trigger] u_cropped[k].len() == ubw * ubh,
            flags.len() == i,
            frame_data.len() == i,
            t6_steps(frames@, fw, fh, bpp, pal, i as nat).len() == i,
            forall|k: int| 0 <= k < i ==> (flags[k], frame_data[k]@) == #[trigger] t6_steps(frames@, fw, fh, bpp, pal, i as nat)[k],
        decreases n - i,
    {
        assert(frames[i as int].len() <= i32::MAX - 1);
        assert(fw == 0 ==> !has_opaque(frames[i as int]@));
        assert(crop_fits(frames@[i as int]@, fw, frame_bbox_spec(frames@[i as int]@, fw, fh)));
        let (best_pf, _w, _h) = encode_own_box(&frames[i], fw, fh, bpp, palette, false);
        assert(u_cropped[i as int].len() == ubw * ubh);
        assert(u_cropped[i as int].len() > 0 ==> ubw > 0) by (nonlinear_arith)
            requires
                u_cropped[i as int].len() == ubw * ubh,
        ;
        let (best_union_enc, _m, _o) = eg2_encode_frame(u_cropped[i].as_slice(), bpp, ubw as usize, ubh as usize);
        let mut best_ref: u8 = 255;
        let mut best_union = best_union_enc;
        let ghost prev = t6_steps(frames@, fw, fh, bpp, pal, i as nat);
        let ghost fl = Seq::new(prev.len(), |k: int| prev[k].0);
        assert(flags@ =~= fl);
        let mut r: usize = 0;
        while r < i
            invariant
                r <= i,
                i < n,
                n == u_cropped.len(),
                flags.len() == i,
                flags@ == fl,
                us == seqs_of(u_cropped@),
                forall|k: int| 0 <= k < u_cropped.len() ==> #[trigger] u_cropped[k].len() == ubw * ubh,
                bpp <= 8,
                (best_ref, best_union@) == t6_union_pick(us, fl, i as int, bpp as nat, ubw as nat, r as nat),
            decreases i - r,
        {
            if flags[r] == 254 {
                r += 1;
                continue;
            }
            assert(u_cropped[r as int].len() == ubw * ubh);
            let xor_diff = xor_frames(&u_cropped[i], &u_cropped[r]);
            assert(xor_diff.len() > 0 ==> ubw > 0) by (nonlinear_arith)
                requires
                    xor_diff.len() <= ubw * ubh,
            ;
            let (enc, _m2, _o2) = eg2_encode_frame(xor_diff.as_slice(), bpp, ubw as usize, ubh as usize);
            if enc.len() < best_union.len() {
                best_union = enc;
                best_ref = #[verifier::truncate] (r as u8);
            }
            r += 1;
        }
        if best_pf.len() < best_union.len() {
            flags.push(254);
            frame_data.push(best_pf);
        } else {
            flags.push(best_ref);
            frame_data.push(best_union);
        }
        proof {
            lemma_t6_steps_len(frames@, fw, fh, bpp, pal, (i + 1) as nat);
            assert forall|k: int| 0 <= k < i + 1 implies (flags[k], frame_data[k]@) == #[trigger] t6_steps(
                frames@,
                fw,
                fh,
                bpp,
                pal,
                (i + 1) as nat,
            )[k] by {
                if k < i {
                    assert(t6_steps(frames@, fw, fh, bpp, pal, (i + 1) as nat)[k] == prev[k]);
                }
            }
        }
        i += 1;
    }
    let ghost ds = seqs_of(frame_data@);
    assert(ds =~= t6_datas(frames@, fw, fh, bpp, pal));
    assert(flags@ =~= t6_flags(frames@, fw, fh, bpp, pal));
    let mut block: Vec<u8> = Vec::new();
    push_block_head(&mut block, n, 6, bpp, palette);
    block.push(ubx);
    block.push(uby);
    block.push(ubw);
    block.push(ubh);
    let ghost head = block@;
    let mut fl_copy = flags.clone();
    block.append(&mut fl_copy);
    assert(block@ =~= head + flags@);
    push_offsets(&mut block, &frame_data);
    push_all(&mut block, &frame_data);
    proof {
        lemma_concat_all_len(ds, n as nat);
    }
    let block_len = block.len();
    let total = sum_lens(&frame_data);
    let pf_count = count_matching(&flags, 254, false);
    let ref_count = count_matching(&flags, 254, true);
    let mut info = String::new();
    info.append("HY ");
    push_decimal(&mut info, ubw as usize);
    info.append("x");
    push_decimal(&mut info, ubh as usize);
    info.append(" data=");
    push_decimal(&mut info, total);
    info.append("b pf=");
    push_decimal(&mut info, pf_count);
    info.append("/");
    push_decimal(&mut info, n);
    info.append(" refs=");
    push_decimal(&mut info, ref_count);
    info.append("/");
    push_decimal(&mut info, n);
    (block, info)
}


/// Bits per pixel used for an animation: the override, else the fewest that
/// cover its colours.
pub open spec fn effective_bpp(frames: Seq<Vec<u8>>, bpp_override: Option<u8>) -> u8 {
    match bpp_override {
        Some(b) => b,
        None => bpp_for_colors(distinct_colors(frames)),
    }
}

/// Palette used for an animation: none at 4 bpp and above, else the override
/// or one built from the frames.
pub open spec fn effective_palette(frames: Seq<Vec<u8>>, bpp: u8, palette_override: Option<Seq<u8>>) -> Option<Seq<u8>> {
    if bpp < 4 {
        match palette_override {
            Some(p) => Some(p),
            None => Some(build_palette_spec(frames, bpp)),
        }
    } else {
        None
    }
}

/// What every encoding tried for an animation needs.
pub open spec fn animation_ok(frames: Seq<Vec<u8>>, fw: u32, fh: u32, bpp: u8, pal: Option<Seq<u8>>) -> bool {
    &&& t4_ok(frames, fw, fh, bpp, pal)
    &&& t5_ok(frames, fw, fh, bpp, pal)
    &&& t6_ok(frames, fw, fh, bpp, pal)
}

/// Index (0 = type 4, 1 = type 5, 2 = type 6) of the shortest block, the first on ties.
pub open spec fn shortest_of3(l4: nat, l5: nat, l6: nat) -> nat {
    if l4 <= l5 && l4 <= l6 {
        0
    } else if l5 <= l6 {
        1
    } else {
        2
    }
}

/// Tag of candidate `i`.
pub open spec fn type_tag(i: nat) -> Seq<char> {
    if i == 0 {
        "T4"@
    } else if i == 1 {
        "T5"@
    } else {
        "T6"@
    }
}

/// "{tag}={len}b" for one candidate.
pub open spec fn size_note(i: nat, len: nat) -> Seq<char> {
    type_tag(i) + "="@ + decimal(len) + "b"@
}

/// Notes on the two candidates not picked, in type order, separated by a space.
pub open spec fn others_text(lens: Seq<nat>, best: nat) -> Seq<char> {
    if best == 0 {
        size_note(1, lens[1]) + " "@ + size_note(2, lens[2])
    } else if best == 1 {
        size_note(0, lens[0]) + " "@ + size_note(2, lens[2])
    } else {
        size_note(0, lens[0]) + " "@ + size_note(1, lens[1])
    }
}

/// The summary line of an animation:
/// "    {name:12}: {n:2}f, {info} {len}b [{bpp}bpp] {tag} ({others})".
pub open spec fn animation_line(name: Seq<char>, n: nat, info: Seq<char>, len: nat, bpp: u8, best: nat, lens: Seq<nat>) -> Seq<char> {
    "    "@ + pad_right(name, 12) + ": "@ + pad_left(decimal(n), 2) + "f, "@ + info + " "@ + decimal(len) + "b"@
        + " ["@ + decimal(bpp as nat) + "bpp]"@ + " "@ + type_tag(best) + " ("@ + others_text(lens, best) + ")"@
}

/// The block `encode_animation` returns: the shortest of types 4, 5, 6.
pub open spec fn animation_block(frames: Seq<Vec<u8>>, fw: u32, fh: u32, bpp: u8, pal: Option<Seq<u8>>) -> Seq<u8> {
    let b4 = t4_block(frames, fw, fh, bpp, pal);
    let b5 = t5_block(frames, fw, fh, bpp, pal);
    let b6 = t6_block(frames, fw, fh, bpp, pal);
    let best = shortest_of3(b4.len(), b5.len(), b6.len());
    if best == 0 { b4 } else if best == 1 { b5 } else { b6 }
}

/// The summary line `encode_animation` returns.
pub open spec fn animation_info(name: Seq<char>, frames: Seq<Vec<u8>>, fw: u32, fh: u32, bpp: u8, pal: Option<Seq<u8>>) -> Seq<char> {
    let b4 = t4_block(frames, fw, fh, bpp, pal);
    let b5 = t5_block(frames, fw, fh, bpp, pal);
    let b6 = t6_block(frames, fw, fh, bpp, pal);
    let lens = seq![b4.len(), b5.len(), b6.len()];
    let best = shortest_of3(b4.len(), b5.len(), b6.len());
    let info = if best == 0 {
        t4_info(frames, fw, fh, bpp, pal)
    } else if best == 1 {
        t5_info(frames, fw, fh, bpp, pal)
    } else {
        t6_info(frames, fw, fh, bpp, pal)
    };
    animation_line(name, frames.len(), info, lens[best as int], bpp, best, lens)
}

fn push_type_tag(s: &mut String, i: usize)
    requires
        i < 3,
    ensures
        final(s)@ == old(s)@ + type_tag(i as nat),
{
    if i == 0 {
        s.append("T4");
    } else if i == 1 {
        s.append("T5");
    } else {
        s.append("T6");
    }
}

fn push_size_note(s: &mut String, i: usize, len: usize)
    requires
        i < 3,
    ensures
        final(s)@ == old(s)@ + size_note(i as nat, len as nat),
{
    let ghost start = s@;
    push_type_tag(s, i);
    s.append("=");
    push_decimal(s, len);
    s.append("b");
    assert(s@ =~= start + size_note(i as nat, len as nat));
}

fn animation_line_text(
    name: &str,
    n: usize,
    best_info: &String,
    best_len: usize,
    bpp: u8,
    best_idx: usize,
    l4: usize,
    l5: usize,
    l6: usize,
) -> (info: String)
    requires
        best_idx < 3,
    ensures
        info@ == animation_line(name@, n as nat, best_info@, best_len as nat, bpp, best_idx as nat, seq![l4 as nat, l5 as nat, l6 as nat]),
{
    let ghost lens = seq![l4 as nat, l5 as nat, l6 as nat];
    let mut info = String::new();
    info.append("    ");
    info.append(name);
    let name_len = name.unicode_len();
    if name_len < 12 {
        push_spaces(&mut info, 12 - name_len);
    }
    assert(info@ =~= "    "@ + pad_right(name@, 12));
    info.append(": ");
    let ghost before_n = info@;
    if n < 10 {
        push_spaces(&mut info, 1);
    }
    push_decimal(&mut info, n);
    proof {
        lemma_decimal_short(n as nat);
    }
    assert(info@ =~= before_n + pad_left(decimal(n as nat), 2));
    info.append("f, ");
    info.append(best_info.as_str());
    info.append(" ");
    push_decimal(&mut info, best_len);
    info.append("b");
    info.append(" [");
    push_decimal(&mut info, bpp as usize);
    info.append("bpp]");
    info.append(" ");
    push_type_tag(&mut info, best_idx);
    info.append(" (");
    let ghost before_others = info@;
    if best_idx == 0 {
        push_size_note(&mut info, 1, l5);
        info.append(" ");
        push_size_note(&mut info, 2, l6);
    } else if best_idx == 1 {
        push_size_note(&mut info, 0, l4);
        info.append(" ");
        push_size_note(&mut info, 2, l6);
    } else {
        push_size_note(&mut info, 0, l4);
        info.append(" ");
        push_size_note(&mut info, 1, l5);
    }
    assert(info@ =~= before_others + others_text(lens, best_idx as nat));
    info.append(")");
    info
}

/// Try T4/T5/T6 and pick smallest. Returns (block, info_string).
#[verifier::spinoff_prover]
pub fn encode_animation(
    name: &str,
    frames_pixels: &[Vec<u8>],
    fw: u32,
    fh: u32,
    bpp_override: Option<u8>,
    palette_override: Option<&[u8]>,
) -> (res: (Vec<u8>, String))
    requires
        animation_ok(
            frames_pixels@,
            fw,
            fh,
            effective_bpp(frames_pixels@, bpp_override),
            effective_palette(frames_pixels@, effective_bpp(frames_pixels@, bpp_override), pal_view(palette_override)),
        ),
    ensures
        ({
            let bpp = effective_bpp(frames_pixels@, bpp_override);
            let pal = effective_palette(frames_pixels@, bpp, pal_view(palette_override));
            &&& res.0@ == animation_block(frames_pixels@, fw, fh, bpp, pal)
            &&& res.1@ == animation_info(name@, frames_pixels@, fw, fh, bpp, pal)
        }),
{
    let bpp: u8 = match bpp_override {
        Some(b) => b,
        None => min_bpp_for_frames(frames_pixels),
    };
    let built_pal: Vec<u8> = if bpp < 4 && palette_override.is_none() {
        build_palette(frames_pixels, bpp)
    } else {
        Vec::new()
    };
    let palette: Option<&[u8]> = if bpp < 4 {
        match palette_override {
            Some(p) => Some(p),
            None => Some(built_pal.as_slice()),
        }
    } else {
        None
    };
    assert(pal_view(palette) == effective_palette(frames_pixels@, bpp, pal_view(palette_override)));
    let n = frames_pixels.len();
    let (b4, i4) = encode_type4(frames_pixels, fw, fh, bpp, palette);
    let (b5, i5) = encode_type5(frames_pixels, fw, fh, bpp, palette);
    let (b6, i6) = encode_type6(frames_pixels, fw, fh, bpp, palette);
    let l4 = b4.len();
    let l5 = b5.len();
    let l6 = b6.len();
    let best_idx: usize = if l4 <= l5 && l4 <= l6 {
        0
    } else if l5 <= l6 {
        1
    } else {
        2
    };
    let ghost lens = seq![l4 as nat, l5 as nat, l6 as nat];
    let (best_block, best_info) = if best_idx == 0 {
        (b4, i4)
    } else if best_idx == 1 {
        (b5, i5)
    } else {
        (b6, i6)
    };
    let best_len = best_block.len();
    let info = animation_line_text(name, n, &best_info, best_len, bpp, best_idx, l4, l5, l6);
    (best_block, info)
}

/// A number below 10 has one digit; from 10 on at least two.
proof fn lemma_decimal_short(n: nat)
    ensures
        n < 10 ==> decimal(n).len() == 1,
        n >= 10 ==> decimal(n).len() >= 2,
    decreases n,
{
    reveal_strlit("0");
    reveal_strlit("1");
    reveal_strlit("2");
    reveal_strlit("3");
    reveal_strlit("4");
    reveal_strlit("5");
    reveal_strlit("6");
    reveal_strlit("7");
    reveal_strlit("8");
    reveal_strlit("9");
    if n >= 10 {
        lemma_decimal_short(n / 10);
    }
}

/// The block chosen for an animation is no longer than any of the three
/// encodings tried.
pub proof fn animation_block_is_shortest(frames: Seq<Vec<u8>>, fw: u32, fh: u32, bpp: u8, pal: Option<Seq<u8>>)
    ensures
        animation_block(frames, fw, fh, bpp, pal).len() <= t4_block(frames, fw, fh, bpp, pal).len(),
        animation_block(frames, fw, fh, bpp, pal).len() <= t5_block(frames, fw, fh, bpp, pal).len(),
        animation_block(frames, fw, fh, bpp, pal).len() <= t6_block(frames, fw, fh, bpp, pal).len(),
{
}

/// The code type 4 keeps for a frame is never longer than coding the frame
/// without a reference.
pub proof fn t4_pick_no_longer(cs: Seq<Seq<u8>>, i: int, bpp: nat, w: nat, limit: nat)
    ensures
        t4_pick(cs, i, bpp, w, limit).1.0.len() <= eg2_best(cs[i], bpp, w).0.len(),
        t4_pick(cs, i, bpp, w, limit).0 == 255u8 || t4_pick(cs, i, bpp, w, limit).0 < limit,
    decreases limit,
{
    if limit > 0 {
        t4_pick_no_longer(cs, i, bpp, w, (limit - 1) as nat);
    }
}

proof fn lemma_t4_pick_shape(cs: Seq<Seq<u8>>, i: int, bpp: nat, w: nat, limit: nat)
    requires
        limit <= 255,
    ensures
        ({
            let (r, e) = t4_pick(cs, i, bpp, w, limit);
            ||| r == 255 && e == eg2_best(cs[i], bpp, w)
            ||| r < limit && e == eg2_best(xor_seq(cs[i], cs[r as int]), bpp, w)
        }),
    decreases limit,
{
    if limit > 0 {
        lemma_t4_pick_shape(cs, i, bpp, w, (limit - 1) as nat);
    }
}

/// The image type 4 codes for frame `i`: the frame's prepared crop, or its
/// XOR with the crop of the frame it references.
pub open spec fn t4_coded(frames: Seq<Vec<u8>>, fw: u32, fh: u32, bpp: u8, pal: Option<Seq<u8>>, i: int) -> Seq<u8> {
    let cs = union_frames(frames, fw, fh, bpp, pal);
    let r = t4_refs(frames, fw, fh, bpp, pal)[i];
    if r == 255 {
        cs[i]
    } else {
        xor_seq(cs[i], cs[r as int])
    }
}

/// Type 4 data of a frame reads back: its EG-2 stream decodes to the image
/// coded for the frame, and that image is the frame's prepared crop, or,
/// XORed with the crop of the earlier frame it references, gives it; when
/// the coded values fit in `bpp` bits and its zero runs can be read back.
pub proof fn t4_data_restores(frames: Seq<Vec<u8>>, fw: u32, fh: u32, bpp: u8, pal: Option<Seq<u8>>, i: int)
    requires
        1 <= bpp <= 8,
        0 <= i < frames.len(),
        i <= 255,
        forall|q: int|
            0 <= q < t4_coded(frames, fw, fh, bpp, pal, i).len() ==> (#[trigger] t4_coded(frames, fw, fh, bpp, pal, i)[q] as nat)
                < pow2(bpp as nat),
        runs_readable(
            pixel_bits(
                eg2_diff(
                    t4_coded(frames, fw, fh, bpp, pal, i),
                    bbox_spec(frames, fw, fh).2 as nat,
                    eg2_best(t4_coded(frames, fw, fh, bpp, pal, i), bpp as nat, bbox_spec(frames, fw, fh).2 as nat).1,
                ),
                bpp as nat,
            ),
        ),
    ensures
        ({
            let cs = union_frames(frames, fw, fh, bpp, pal);
            let r = t4_refs(frames, fw, fh, bpp, pal)[i];
            let coded = t4_coded(frames, fw, fh, bpp, pal, i);
            &&& eg2_decode(t4_datas(frames, fw, fh, bpp, pal)[i], coded.len(), bpp as nat, bbox_spec(frames, fw, fh).2 as nat)
                == coded
            &&& r == 255 ==> coded == cs[i]
            &&& r != 255 ==> r < i && xor_seq(coded, cs[r as int]) == cs[i]
        }),
{
    let b = bbox_spec(frames, fw, fh);
    let w = b.2 as nat;
    let cs = union_frames(frames, fw, fh, bpp, pal);
    let bp = bpp as nat;
    lemma_union_frames_len(frames, fw, fh, bpp, pal);
    lemma_t4_pick_shape(cs, i, bp, w, i as nat);
    let ch = t4_choices(cs, bp, w);
    assert(ch[i] == t4_pick(cs, i, bp, w, i as nat));
    let r = ch[i].0;
    assert(t4_refs(frames, fw, fh, bpp, pal)[i] == r);
    let coded = t4_coded(frames, fw, fh, bpp, pal, i);
    assert(t4_datas(frames, fw, fh, bpp, pal)[i] == eg2_best(coded, bp, w).0);
    if w > 0 {
        eg2_frame_roundtrip(coded, bp, w);
    } else {
        assert(coded.len() == 0) by {
            assert(b.2 * b.3 == 0) by (nonlinear_arith)
                requires
                    b.2 == 0,
            ;
            assert(cs[i].len() == b.2 * b.3);
        }
        let data = t4_datas(frames, fw, fh, bpp, pal)[i];
        assert(eg2_decode(data, 0, bp, w) =~= coded);
    }
    if r != 255 {
        let y = xor_seq(coded, cs[r as int]);
        assert(cs[r as int].len() == cs[i].len());
        assert forall|q: int| 0 <= q < y.len() implies #[trigger] y[q] == cs[i][q] by {
            let a = cs[i][q];
            let c = cs[r as int][q];
            assert((a ^ c) ^ c == a) by (bit_vector);
        }
        assert(y =~= cs[i]);
    }
}

/// A frame coded on its own box reads back: the data starts with the box,
/// and when the box is coded its EG-2 stream decodes to the prepared crop of
/// the frame to that box; when the crop's values fit in `bpp` bits and its
/// zero runs can be read back.
pub proof fn pf_data_restores(f: Seq<u8>, fw: u32, fh: u32, bpp: u8, pal: Option<Seq<u8>>, need_height: bool)
    requires
        1 <= bpp <= 8,
        forall|q: int|
            0 <= q < prepare(crop_of(f, fw, frame_bbox_spec(f, fw, fh)), bpp, pal).len() ==> (#[trigger] prepare(
                crop_of(f, fw, frame_bbox_spec(f, fw, fh)),
                bpp,
                pal,
            )[q] as nat) < pow2(bpp as nat),
        runs_readable(
            pixel_bits(
                eg2_diff(
                    prepare(crop_of(f, fw, frame_bbox_spec(f, fw, fh)), bpp, pal),
                    frame_bbox_spec(f, fw, fh).2 as nat,
                    eg2_best(
                        prepare(crop_of(f, fw, frame_bbox_spec(f, fw, fh)), bpp, pal),
                        bpp as nat,
                        frame_bbox_spec(f, fw, fh).2 as nat,
                    ).1,
                ),
                bpp as nat,
            ),
        ),
    ensures
        ({
            let bb = frame_bbox_spec(f, fw, fh);
            let d = pf_data(f, fw, fh, bpp, pal, need_height);
            let c = prepare(crop_of(f, fw, bb), bpp, pal);
            &&& bb.2 == 0 || (need_height && bb.3 == 0) ==> d == seq![0u8, 0u8, 0u8, 0u8]
            &&& !(bb.2 == 0 || (need_height && bb.3 == 0)) ==> d.take(4) == seq![bb.0, bb.1, bb.2, bb.3]
                && eg2_decode(d.skip(4), c.len(), bpp as nat, bb.2 as nat) == c
        }),
{
    let bb = frame_bbox_spec(f, fw, fh);
    if !(bb.2 == 0 || (need_height && bb.3 == 0)) {
        let c = prepare(crop_of(f, fw, bb), bpp, pal);
        let d = pf_data(f, fw, fh, bpp, pal, need_height);
        assert(d.take(4) =~= seq![bb.0, bb.1, bb.2, bb.3]);
        assert(d.skip(4) =~= eg2_best(c, bpp as nat, bb.2 as nat).0);
        eg2_frame_roundtrip(c, bpp as nat, bb.2 as nat);
    }
}

proof fn lemma_t6_union_pick_shape(us: Seq<Seq<u8>>, flags: Seq<u8>, i: int, bpp: nat, w: nat, limit: nat)
    requires
        limit <= 254,
    ensures
        ({
            let (r, e) = t6_union_pick(us, flags, i, bpp, w, limit);
            ||| r == 255 && e == eg2_best(us[i], bpp, w).0
            ||| r < limit && flags[r as int] != 254 && e == eg2_best(xor_seq(us[i], us[r as int]), bpp, w).0
        }),
    decreases limit,
{
    if limit > 0 {
        lemma_t6_union_pick_shape(us, flags, i, bpp, w, (limit - 1) as nat);
    }
}

proof fn lemma_t6_steps_prefix(frames: Seq<Vec<u8>>, fw: u32, fh: u32, bpp: u8, pal: Option<Seq<u8>>, n: nat, k: int)
    requires
        0 <= k < n,
    ensures
        t6_steps(frames, fw, fh, bpp, pal, n).len() == n,
        t6_steps(frames, fw, fh, bpp, pal, n)[k] == t6_steps(frames, fw, fh, bpp, pal, (k + 1) as nat)[k],
    decreases n,
{
    if n > k + 1 {
        lemma_t6_steps_prefix(frames, fw, fh, bpp, pal, (n - 1) as nat, k);
    } else {
        lemma_t6_steps_len(frames, fw, fh, bpp, pal, n);
    }
}

/// The image type 6 codes on the union box for frame `i` (flag below 254 or
/// 255): the frame's union crop, or its XOR with the union crop of the frame
/// its flag names.
pub open spec fn t6_coded(frames: Seq<Vec<u8>>, fw: u32, fh: u32, bpp: u8, pal: Option<Seq<u8>>, i: int) -> Seq<u8> {
    let us = union_frames(frames, fw, fh, bpp, pal);
    let r = t6_flags(frames, fw, fh, bpp, pal)[i];
    if r == 255 {
        us[i]
    } else {
        xor_seq(us[i], us[r as int])
    }
}

/// Type 6 data of a frame reads back. Flag 254 marks a frame stored on its
/// own box, as `pf_data` codes it. Any other frame's EG-2 stream decodes to
/// the image coded for it on the union box, which is its union crop (flag
/// 255) or, XORed with the union crop of the earlier frame its flag names,
/// gives it; that frame is itself stored on the union box. The decoding
/// holds when the coded values fit in `bpp` bits and its zero runs can be
/// read back.
pub proof fn t6_data_restores(frames: Seq<Vec<u8>>, fw: u32, fh: u32, bpp: u8, pal: Option<Seq<u8>>, i: int)
    requires
        1 <= bpp <= 8,
        0 <= i < frames.len(),
        i <= 254,
        t6_flags(frames, fw, fh, bpp, pal)[i] != 254 ==> forall|q: int|
            0 <= q < t6_coded(frames, fw, fh, bpp, pal, i).len() ==> (#[trigger] t6_coded(frames, fw, fh, bpp, pal, i)[q] as nat)
                < pow2(bpp as nat),
        t6_flags(frames, fw, fh, bpp, pal)[i] != 254 ==> runs_readable(
            pixel_bits(
                eg2_diff(
                    t6_coded(frames, fw, fh, bpp, pal, i),
                    bbox_spec(frames, fw, fh).2 as nat,
                    eg2_best(t6_coded(frames, fw, fh, bpp, pal, i), bpp as nat, bbox_spec(frames, fw, fh).2 as nat).1,
                ),
                bpp as nat,
            ),
        ),
    ensures
        ({
            let us = union_frames(frames, fw, fh, bpp, pal);
            let flags = t6_flags(frames, fw, fh, bpp, pal);
            let r = flags[i];
            let d = t6_datas(frames, fw, fh, bpp, pal)[i];
            let coded = t6_coded(frames, fw, fh, bpp, pal, i);
            &&& r == 254 ==> d == pf_data(frames[i]@, fw, fh, bpp, pal, false)
            &&& r != 254 ==> eg2_decode(d, coded.len(), bpp as nat, bbox_spec(frames, fw, fh).2 as nat) == coded
            &&& r == 255 ==> coded == us[i]
            &&& r < 254 ==> r < i && flags[r as int] != 254 && xor_seq(coded, us[r as int]) == us[i]
        }),
{
    let n = frames.len();
    let b = bbox_spec(frames, fw, fh);
    let w = b.2 as nat;
    let bp = bpp as nat;
    let us = union_frames(frames, fw, fh, bpp, pal);
    lemma_union_frames_len(frames, fw, fh, bpp, pal);
    let st = t6_steps(frames, fw, fh, bpp, pal, n);
    lemma_t6_steps_prefix(frames, fw, fh, bpp, pal, n, i);
    let prev = t6_steps(frames, fw, fh, bpp, pal, i as nat);
    lemma_t6_steps_len(frames, fw, fh, bpp, pal, i as nat);
    let pflags = Seq::new(prev.len(), |k: int| prev[k].0);
    let pf = pf_data(frames[i]@, fw, fh, bpp, pal, false);
    let u = t6_union_pick(us, pflags, i, bp, w, i as nat);
    assert(st[i] == (if pf.len() < u.1.len() { (254u8, pf) } else { u }));
    lemma_t6_union_pick_shape(us, pflags, i, bp, w, i as nat);
    let flags = t6_flags(frames, fw, fh, bpp, pal);
    let r = flags[i];
    assert(r == st[i].0);
    let d = t6_datas(frames, fw, fh, bpp, pal)[i];
    assert(d == st[i].1);
    if r != 254 {
        assert(st[i] == u);
        let coded = t6_coded(frames, fw, fh, bpp, pal, i);
        assert(d == eg2_best(coded, bp, w).0);
        if w > 0 {
            eg2_frame_roundtrip(coded, bp, w);
        } else {
            assert(coded.len() == 0) by {
                assert(b.2 * b.3 == 0) by (nonlinear_arith)
                    requires
                        b.2 == 0,
                ;
                assert(us[i].len() == b.2 * b.3);
            }
            assert(eg2_decode(d, 0, bp, w) =~= coded);
        }
        if r < 254 {
            let ri = r as int;
            lemma_t6_steps_prefix(frames, fw, fh, bpp, pal, n, ri);
            lemma_t6_steps_prefix(frames, fw, fh, bpp, pal, i as nat, ri);
            assert(pflags[ri] == prev[ri].0);
            assert(flags[ri] == st[ri].0);
            let y = xor_seq(coded, us[ri]);
            assert(us[ri].len() == us[i].len());
            assert forall|q: int| 0 <= q < y.len() implies #[trigger] y[q] == us[i][q] by {
                let a = us[i][q];
                let c = us[ri][q];
                assert((a ^ c) ^ c == a) by (bit_vector);
            }
            assert(y =~= us[i]);
        }
    }
}

proof fn lemma_offset_table_entry(ds: Seq<Seq<u8>>, m: nat, k: int)
    requires
        0 <= k < m,
    ensures
        offset_table(ds, m).len() == 2 * m,
        offset_table(ds, m)[2 * k] == le16(trunc_len_sum(ds, k as nat))[0],
        offset_table(ds, m)[2 * k + 1] == le16(trunc_len_sum(ds, k as nat))[1],
    decreases m,
{
    lemma_offset_table_len(ds, (m - 1) as nat);
    if k < m - 1 {
        lemma_offset_table_entry(ds, (m - 1) as nat, k);
    }
}

proof fn lemma_offset_table_len(ds: Seq<Seq<u8>>, m: nat)
    ensures
        offset_table(ds, m).len() == 2 * m,
    decreases m,
{
    if m > 0 {
        lemma_offset_table_len(ds, (m - 1) as nat);
    }
}

proof fn lemma_trunc_len_sum(ds: Seq<Seq<u8>>, k: nat, m: nat)
    requires
        k <= m,
    ensures
        trunc_len_sum(ds, k) <= trunc_len_sum(ds, m),
        (forall|j: int| 0 <= j < k ==> #[trigger] ds[j].len() < 65536) ==> trunc_len_sum(ds, k) == total_len(ds, k),
    decreases m,
{
    if m > k {
        lemma_trunc_len_sum(ds, k, (m - 1) as nat);
    } else if k > 0 {
        lemma_trunc_len_sum(ds, (k - 1) as nat, (k - 1) as nat);
        if forall|j: int| 0 <= j < k ==> #[trigger] ds[j].len() < 65536 {
            assert(ds[k - 1].len() < 65536);
            vstd::arithmetic::div_mod::lemma_small_mod(ds[k - 1].len(), 65536);
        }
    }
}

proof fn lemma_concat_all_prefix(ds: Seq<Seq<u8>>, k: nat, m: nat)
    requires
        k <= m <= ds.len(),
    ensures
        concat_all(ds, m).len() >= concat_all(ds, k).len(),
        concat_all(ds, m).take(concat_all(ds, k).len() as int) == concat_all(ds, k),
    decreases m,
{
    if m > k {
        lemma_concat_all_prefix(ds, k, (m - 1) as nat);
        let a = concat_all(ds, (m - 1) as nat);
        assert((a + ds[m - 1]).take(concat_all(ds, k).len() as int) =~= a.take(concat_all(ds, k).len() as int));
    } else {
        assert(concat_all(ds, m).take(concat_all(ds, m).len() as int) =~= concat_all(ds, m));
    }
}

/// The offset table of a block locates each frame's data: entry `k` (two
/// bytes, little-endian) is where blob `k` starts in the data area, and blob
/// `k` lies there; when the offsets fit in 16 bits and the blobs before it
/// are shorter than 65536 bytes.
pub proof fn offsets_locate_blobs(ds: Seq<Seq<u8>>, k: int)
    requires
        0 <= k < ds.len(),
        offsets_fit(ds),
        forall|j: int| 0 <= j < k ==> #[trigger] ds[j].len() < 65536,
    ensures
        ({
            let t = offset_table(ds, ds.len());
            let d = concat_all(ds, ds.len());
            let off = t[2 * k] + 256 * t[2 * k + 1];
            &&& t.len() == 2 * ds.len()
            &&& off == total_len(ds, k as nat)
            &&& off + ds[k].len() <= d.len()
            &&& d.subrange(off, off + ds[k].len()) == ds[k]
        }),
{
    let n = ds.len();
    let t = offset_table(ds, n);
    lemma_offset_table_entry(ds, n, k);
    lemma_trunc_len_sum(ds, k as nat, n);
    let v = trunc_len_sum(ds, k as nat);
    assert(v < 65536);
    assert((v % 256) + 256 * ((v / 256) % 256) == v) by {
        vstd::arithmetic::div_mod::lemma_small_mod(v / 256, 256);
        vstd::arithmetic::div_mod::lemma_fundamental_div_mod(v as int, 256);
    }
    lemma_concat_all_len(ds, k as nat);
    lemma_concat_all_prefix(ds, (k + 1) as nat, n);
    let pre = concat_all(ds, (k + 1) as nat);
    let a = concat_all(ds, k as nat);
    assert(pre == a + ds[k]);
    let d = concat_all(ds, n);
    assert(d.subrange(v as int, (v + ds[k].len()) as int) =~= ds[k]) by {
        assert forall|q: int| 0 <= q < ds[k].len() implies #[trigger] d.subrange(v as int, (v + ds[k].len()) as int)[q] == ds[k][q] by {
            assert(d.take(pre.len() as int)[v + q] == pre[v + q]);
        }
    }
}

/// Type 4's choice for a frame is the first shortest option: its stream is no
/// longer than coding the frame alone or against any earlier frame tried; it
/// takes a reference only when that is strictly shorter than coding alone,
/// and then to the lowest frame reaching that length.
pub proof fn t4_pick_first_shortest(cs: Seq<Seq<u8>>, i: int, bpp: nat, w: nat, limit: nat)
    requires
        limit <= 255,
    ensures
        ({
            let p = t4_pick(cs, i, bpp, w, limit);
            &&& p.0 == 255 ==> p.1 == eg2_best(cs[i], bpp, w)
            &&& p.0 != 255 ==> p.1 == eg2_best(xor_seq(cs[i], cs[p.0 as int]), bpp, w)
            &&& p.1.0.len() <= eg2_best(cs[i], bpp, w).0.len()
            &&& forall|k: int| 0 <= k < limit ==> p.1.0.len() <= #[trigger] eg2_best(xor_seq(cs[i], cs[k]), bpp, w).0.len()
            &&& p.0 != 255 ==> p.0 < limit && p.1.0.len() < eg2_best(cs[i], bpp, w).0.len()
            &&& p.0 != 255 ==> forall|k: int| 0 <= k < p.0 ==> p.1.0.len() < #[trigger] eg2_best(xor_seq(cs[i], cs[k]), bpp, w).0.len()
        }),
    decreases limit,
{
    lemma_t4_pick_shape(cs, i, bpp, w, limit);
    if limit > 0 {
        t4_pick_first_shortest(cs, i, bpp, w, (limit - 1) as nat);
    }
}

/// Type 6 stores a frame on its own box exactly when that is strictly shorter
/// than its best union-box coding, where the union-box options are coding it
/// alone or against any earlier frame not stored on its own box (the first
/// shortest of those, no reference on a tie).
pub proof fn t6_choice_rule(frames: Seq<Vec<u8>>, fw: u32, fh: u32, bpp: u8, pal: Option<Seq<u8>>, i: int)
    requires
        0 <= i < frames.len(),
        i <= 254,
    ensures
        ({
            let flags = t6_flags(frames, fw, fh, bpp, pal);
            let d = t6_datas(frames, fw, fh, bpp, pal)[i];
            let pf = pf_data(frames[i]@, fw, fh, bpp, pal, false);
            let u = t6_union_pick(
                union_frames(frames, fw, fh, bpp, pal),
                flags.take(i),
                i,
                bpp as nat,
                bbox_spec(frames, fw, fh).2 as nat,
                i as nat,
            );
            &&& flags.len() == frames.len()
            &&& (flags[i] == 254) == (pf.len() < u.1.len())
            &&& flags[i] == 254 ==> d == pf
            &&& flags[i] != 254 ==> flags[i] == u.0 && d == u.1
        }),
{
    let n = frames.len();
    let st = t6_steps(frames, fw, fh, bpp, pal, n);
    lemma_t6_steps_prefix(frames, fw, fh, bpp, pal, n, i);
    let prev = t6_steps(frames, fw, fh, bpp, pal, i as nat);
    lemma_t6_steps_len(frames, fw, fh, bpp, pal, i as nat);
    let pflags = Seq::new(prev.len(), |k: int| prev[k].0);
    let flags = t6_flags(frames, fw, fh, bpp, pal);
    assert forall|k: int| 0 <= k < i implies #[trigger] pflags[k] == flags.take(i)[k] by {
        lemma_t6_steps_prefix(frames, fw, fh, bpp, pal, n, k);
        lemma_t6_steps_prefix(frames, fw, fh, bpp, pal, i as nat, k);
    }
    assert(pflags =~= flags.take(i));
    let us = union_frames(frames, fw, fh, bpp, pal);
    let u = t6_union_pick(us, pflags, i, bpp as nat, bbox_spec(frames, fw, fh).2 as nat, i as nat);
    let pf = pf_data(frames[i]@, fw, fh, bpp, pal, false);
    assert(st[i] == (if pf.len() < u.1.len() { (254u8, pf) } else { u }));
    lemma_t6_union_pick_shape(us, pflags, i, bpp as nat, bbox_spec(frames, fw, fh).2 as nat, i as nat);
}

} // verus!
