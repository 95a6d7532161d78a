//! Animation encodings on the run-length coders: per-frame boxes (type 1),
//! sequential XOR (type 2) and referenced XOR (type 3).

use vstd::prelude::*;
use vstd::string::*;
use vstd::arithmetic::power2::pow2;
use crate::animation::{
    le16, block_head, concat_all, count_not, crop_fits, crop_of, frame_crops_fit, frames_scan_ok, offset_table,
    offsets_fit, pal_view, prepare, seqs_of, total_len, union_crops_fit, union_frames, xor_seq,
    count_refs, lemma_concat_all_len, lemma_crop_rows_len, lemma_union_frames_len, prepare_frame,
    push_all, push_block_head, push_offsets, sum_lens, union_crops, xor_frames,
};
use crate::frame::{bbox_spec, count_diffs, crop_pixels, frame_bbox_spec, get_bbox, get_frame_bbox, has_opaque};
use crate::rle::{
    apply_changes, changed_pixels, delta_encode_skip, delta_roundtrip, delta_stream, ext_decode, ext_nibble_rle_encode,
    ext_rle_roundtrip, ext_runs, pack_bits, pack_bits_roundtrip, packed_bytes, read_delta, row_delta, row_delta_roundtrip,
    row_delta_spec, row_undelta_at, trim_trailing_zeros, unpacked_bit,
};
use crate::text::{decimal, push_decimal};

verus! {

/// Type 1 data of one frame: its own box, then the extended RLE of the
/// prepared crop; four zero bytes when the box is empty.
pub open spec fn t1_data(f: Seq<u8>, fw: u32, fh: u32, bpp: u8, pal: Option<Seq<u8>>) -> Seq<u8> {
    let bb = frame_bbox_spec(f, fw, fh);
    if bb.2 == 0 || bb.3 == 0 {
        seq![0u8, 0u8, 0u8, 0u8]
    } else {
        seq![bb.0, bb.1, bb.2, bb.3] + ext_runs(prepare(crop_of(f, fw, bb), bpp, pal), bpp)
    }
}

/// Frame data blobs of type 1.
pub open spec fn t1_datas(frames: Seq<Vec<u8>>, fw: u32, fh: u32, bpp: u8, pal: Option<Seq<u8>>) -> Seq<Seq<u8>> {
    Seq::new(frames.len(), |k: int| t1_data(frames[k]@, fw, fh, bpp, pal))
}

/// Whether some frame has a non-empty box of its own.
pub open spec fn some_frame_box(frames: Seq<Vec<u8>>, fw: u32, fh: u32) -> bool {
    exists|k: int| 0 <= k < frames.len() && #[trigger] frame_bbox_spec(frames[k]@, fw, fh).2 != 0
        && frame_bbox_spec(frames[k]@, fw, fh).3 != 0
}

/// What type 1 needs: scannable frames whose boxes can be cut, a bpp the
/// run-length coder takes when there is anything to code, and 16-bit
/// offsets that do not overflow.
pub open spec fn t1_ok(frames: Seq<Vec<u8>>, fw: u32, fh: u32, bpp: u8, pal: Option<Seq<u8>>) -> bool {
    &&& frames_scan_ok(frames, fw, fh)
    &&& frame_crops_fit(frames, fw, fh)
    &&& some_frame_box(frames, fw, fh) ==> 1 <= bpp <= 8
    &&& offsets_fit(t1_datas(frames, fw, fh, bpp, pal))
}

/// Type 1 block: head, offsets, per-frame data.
pub open spec fn t1_block(frames: Seq<Vec<u8>>, fw: u32, fh: u32, bpp: u8, pal: Option<Seq<u8>>) -> Seq<u8> {
    let ds = t1_datas(frames, fw, fh, bpp, pal);
    block_head(frames.len(), 1, bpp, pal) + offset_table(ds, ds.len()) + concat_all(ds, ds.len())
}

/// Type 1: Per-frame independent RLE with per-frame bboxes.
pub fn encode_type1(frames: &[Vec<u8>], fw: u32, fh: u32, bpp: u8, palette: Option<&[u8]>) -> (res: (Vec<u8>, String))
    requires
        t1_ok(frames@, fw, fh, bpp, pal_view(palette)),
    ensures
        res.0@ == t1_block(frames@, fw, fh, bpp, pal_view(palette)),
        res.1@ == "PF"@,
{
    let ghost pal = pal_view(palette);
    let n = frames.len();
    let mut frame_datas: Vec<Vec<u8>> = Vec::new();
    let mut k: usize = 0;
    while k < n
        invariant
            k <= n,
            n == frames.len(),
            t1_ok(frames@, fw, fh, bpp, pal),
            pal == pal_view(palette),
            frame_datas.len() == k,
            forall|j: int| 0 <= j < k ==> (#[trigger] frame_datas[j])@ == t1_data(frames@[j]@, fw, fh, bpp, pal),
        decreases n - k,
    {
        let f = &frames[k];
        assert(f.len() <= i32::MAX - 1);
        assert(fw == 0 ==> !has_opaque(f@));
        let (bx, by, bw, bh) = get_frame_bbox(f.as_slice(), fw, fh);
        if bw == 0 || bh == 0 {
            frame_datas.push(vec![0u8, 0u8, 0u8, 0u8]);
        } else {
            assert(crop_fits(frames@[k as int]@, fw, frame_bbox_spec(frames@[k as int]@, fw, fh)));
            assert(some_frame_box(frames@, fw, fh) && 1 <= bpp <= 8) by {
                assert(frame_bbox_spec(frames@[k as int]@, fw, fh).2 != 0);
            }
            let cropped = crop_pixels(f.as_slice(), fw, bx, by, bw, bh);
            let cropped = prepare_frame(cropped, bpp, palette);
            proof {
                lemma_crop_rows_len(f@, fw as nat, bx as nat, by as nat, bw as nat, bh as nat);
                assert(bh * bw <= 255 * 255) by (nonlinear_arith);
            }
            let mut rle = ext_nibble_rle_encode(cropped.as_slice(), bpp);
            let mut fd: Vec<u8> = vec![bx, by, bw, bh];
            fd.append(&mut rle);
            frame_datas.push(fd);
        }
        k += 1;
    }
    let ghost ds = seqs_of(frame_datas@);
    assert(ds =~= t1_datas(frames@, fw, fh, bpp, pal));
    let mut block: Vec<u8> = Vec::new();
    push_block_head(&mut block, n, 1, bpp, palette);
    push_offsets(&mut block, &frame_datas);
    push_all(&mut block, &frame_datas);
    (block, String::from_str("PF"))
}

/// Frame data blobs of type 2: the first frame coded as it is, each later one
/// as its XOR with the frame before.
pub open spec fn t2_datas(frames: Seq<Vec<u8>>, fw: u32, fh: u32, bpp: u8, pal: Option<Seq<u8>>) -> Seq<Seq<u8>> {
    let cs = union_frames(frames, fw, fh, bpp, pal);
    Seq::new(cs.len(), |i: int| if i == 0 { ext_runs(cs[0], bpp) } else { ext_runs(xor_seq(cs[i], cs[i - 1]), bpp) })
}

/// Whether the animation-wide box is not empty.
pub open spec fn union_box_nonempty(frames: Seq<Vec<u8>>, fw: u32, fh: u32) -> bool {
    bbox_spec(frames, fw, fh).2 > 0 && bbox_spec(frames, fw, fh).3 > 0
}

/// What type 2 needs: at least one frame, scannable frames that can be cut
/// to the animation-wide box, a bpp the run-length coder takes when the box
/// is not empty, and 16-bit offsets that do not overflow.
pub open spec fn t2_ok(frames: Seq<Vec<u8>>, fw: u32, fh: u32, bpp: u8, pal: Option<Seq<u8>>) -> bool {
    &&& frames.len() >= 1
    &&& frames_scan_ok(frames, fw, fh)
    &&& union_crops_fit(frames, fw, fh)
    &&& union_box_nonempty(frames, fw, fh) ==> 1 <= bpp <= 8
    &&& offsets_fit(t2_datas(frames, fw, fh, bpp, pal))
}

/// Type 2 block: head, animation box, offsets, frame data.
pub open spec fn t2_block(frames: Seq<Vec<u8>>, fw: u32, fh: u32, bpp: u8, pal: Option<Seq<u8>>) -> Seq<u8> {
    let b = bbox_spec(frames, fw, fh);
    let ds = t2_datas(frames, fw, fh, bpp, pal);
    block_head(frames.len(), 2, bpp, pal) + seq![b.0, b.1, b.2, b.3] + offset_table(ds, ds.len()) + concat_all(ds, ds.len())
}

/// Type 2 summary: "XR {w}x{h} data={total}b".
pub open spec fn t2_info(frames: Seq<Vec<u8>>, fw: u32, fh: u32, bpp: u8, pal: Option<Seq<u8>>) -> Seq<char> {
    let b = bbox_spec(frames, fw, fh);
    let ds = t2_datas(frames, fw, fh, bpp, pal);
    "XR "@ + decimal(b.2 as nat) + "x"@ + decimal(b.3 as nat) + " data="@ + decimal(total_len(ds, ds.len())) + "b"@
}

/// Type 2: Sequential XOR + RLE (animation-wide bbox).
pub fn encode_type2(frames: &[Vec<u8>], fw: u32, fh: u32, bpp: u8, palette: Option<&[u8]>) -> (res: (Vec<u8>, String))
    requires
        t2_ok(frames@, fw, fh, bpp, pal_view(palette)),
    ensures
        res.0@ == t2_block(frames@, fw, fh, bpp, pal_view(palette)),
        res.1@ == t2_info(frames@, fw, fh, bpp, pal_view(palette)),
{
    let ghost pal = pal_view(palette);
    let n = frames.len();
    let (bx, by, bw, bh) = get_bbox(frames, fw, fh);
    let cropped = union_crops(frames, fw, fh, (bx, by, bw, bh), bpp, palette);
    let ghost cs = seqs_of(cropped@);
    proof {
        lemma_union_frames_len(frames@, fw, fh, bpp, pal);
        assert forall|k: int| 0 <= k < cropped.len() implies #[trigger] cropped[k].len() == bw * bh by {
            assert(cs[k] == cropped[k]@);
        }
        assert(bw * bh <= 255 * 255) by (nonlinear_arith);
        assert(bw * bh > 0 ==> bw > 0 && bh > 0) by (nonlinear_arith);
    }
    let ghost ds_spec = t2_datas(frames@, fw, fh, bpp, pal);
    let mut frame_rles: Vec<Vec<u8>> = Vec::new();
    frame_rles.push(ext_nibble_rle_encode(cropped[0].as_slice(), bpp));
    let mut i: usize = 1;
    while i < n
        invariant
            1 <= i <= n,
            n == frames.len(),
            n == cropped.len(),
            cs == seqs_of(cropped@),
            cs == union_frames(frames@, fw, fh, bpp, pal),
            ds_spec == t2_datas(frames@, fw, fh, bpp, pal),
            bw * bh > 0 ==> 1 <= bpp <= 8,
            bw * bh <= 255 * 255,
            forall|k: int| 0 <= k < cropped.len() ==> #[trigger] cropped[k].len() == bw * bh,
            frame_rles.len() == i,
            forall|k: int| 0 <= k < i ==> (#[trigger] frame_rles[k])@ == ds_spec[k],
        decreases n - i,
    {
        let xor_diff = xor_frames(&cropped[i], &cropped[i - 1]);
        assert(cs[i as int] == cropped[i as int]@ && cs[i - 1] == cropped[i - 1]@);
        assert(cropped[i as int].len() == bw * bh && cropped[i - 1].len() == bw * bh);
        assert(xor_diff.len() == bw * bh);
        frame_rles.push(ext_nibble_rle_encode(xor_diff.as_slice(), bpp));
        i += 1;
    }
    let ghost ds = seqs_of(frame_rles@);
    assert(ds =~= ds_spec);
    let mut block: Vec<u8> = Vec::new();
    push_block_head(&mut block, n, 2, bpp, palette);
    block.push(bx);
    block.push(by);
    block.push(bw);
    block.push(bh);
    push_offsets(&mut block, &frame_rles);
    push_all(&mut block, &frame_rles);
    proof {
        lemma_concat_all_len(ds, n as nat);
    }
    let block_len = block.len();
    let total = sum_lens(&frame_rles);
    let mut info = String::new();
    info.append("XR ");
    push_decimal(&mut info, bw as usize);
    info.append("x");
    push_decimal(&mut info, bh as usize);
    info.append(" data=");
    push_decimal(&mut info, total);
    info.append("b");
    (block, info)
}

/// The values a type 3 code stores for a `w` x `h` image: its row delta, or the image.
pub open spec fn t3_stored(p: Seq<u8>, w: nat, h: nat, rowdelta: bool) -> Seq<u8> {
    if rowdelta {
        row_delta_spec(p, w, h)
    } else {
        p
    }
}

/// Type 3 code of one `w` x `h` frame: optionally row-delta filtered, then
/// bit-packed at 1 bpp or extended-RLE coded otherwise.
pub open spec fn t3_code(p: Seq<u8>, bpp: u8, w: nat, h: nat, rowdelta: bool) -> Seq<u8> {
    let px = t3_stored(p, w, h, rowdelta);
    if bpp == 1 {
        trim_trailing_zeros(packed_bytes(px))
    } else {
        ext_runs(px, bpp)
    }
}

/// Reference and code that type 3 picks for frame `i` among: no reference,
/// or an XOR against each earlier frame `r < limit`; a later option replaces
/// the best only when strictly shorter.
pub open spec fn t3_pick(cs: Seq<Seq<u8>>, i: int, bpp: u8, w: nat, h: nat, rowdelta: bool, limit: nat) -> (u8, Seq<u8>)
    decreases limit,
{
    if limit == 0 {
        (255u8, t3_code(cs[i], bpp, w, h, rowdelta))
    } else {
        let prev = t3_pick(cs, i, bpp, w, h, rowdelta, (limit - 1) as nat);
        let cand = t3_code(xor_seq(cs[i], cs[limit - 1]), bpp, w, h, rowdelta);
        if cand.len() < prev.1.len() {
            ((limit - 1) as u8, cand)
        } else {
            prev
        }
    }
}

/// Type 3's choice for each frame: (reference, code).
pub open spec fn t3_choices(frames: Seq<Vec<u8>>, fw: u32, fh: u32, bpp: u8, pal: Option<Seq<u8>>, rowdelta: bool) -> Seq<(u8, Seq<u8>)> {
    let b = bbox_spec(frames, fw, fh);
    let cs = union_frames(frames, fw, fh, bpp, pal);
    Seq::new(cs.len(), |i: int| t3_pick(cs, i, bpp, b.2 as nat, b.3 as nat, rowdelta, i as nat))
}

/// Frame data blobs of type 3.
pub open spec fn t3_datas(frames: Seq<Vec<u8>>, fw: u32, fh: u32, bpp: u8, pal: Option<Seq<u8>>, rowdelta: bool) -> Seq<Seq<u8>> {
    let ch = t3_choices(frames, fw, fh, bpp, pal, rowdelta);
    Seq::new(ch.len(), |i: int| ch[i].1)
}

/// Reference bytes of type 3 (255 = none).
pub open spec fn t3_refs(frames: Seq<Vec<u8>>, fw: u32, fh: u32, bpp: u8, pal: Option<Seq<u8>>, rowdelta: bool) -> Seq<u8> {
    let ch = t3_choices(frames, fw, fh, bpp, pal, rowdelta);
    Seq::new(ch.len(), |i: int| ch[i].0)
}

/// What type 3 needs: scannable frames that can be cut to the
/// animation-wide box, a bpp the coders take when the box is not empty, and
/// 16-bit offsets that do not overflow.
pub open spec fn t3_ok(frames: Seq<Vec<u8>>, fw: u32, fh: u32, bpp: u8, pal: Option<Seq<u8>>, rowdelta: bool) -> bool {
    &&& frames_scan_ok(frames, fw, fh)
    &&& union_crops_fit(frames, fw, fh)
    &&& union_box_nonempty(frames, fw, fh) ==> 1 <= bpp <= 8
    &&& offsets_fit(t3_datas(frames, fw, fh, bpp, pal, rowdelta))
}

/// The encoding byte of type 3: 3, with bit 7 set for row delta.
pub open spec fn t3_type_byte(rowdelta: bool) -> u8 {
    if rowdelta { 0x83u8 } else { 3u8 }
}

/// Type 3 block: head, animation box, reference bytes, offsets, frame data.
pub open spec fn t3_block(frames: Seq<Vec<u8>>, fw: u32, fh: u32, bpp: u8, pal: Option<Seq<u8>>, rowdelta: bool) -> Seq<u8> {
    let b = bbox_spec(frames, fw, fh);
    let ds = t3_datas(frames, fw, fh, bpp, pal, rowdelta);
    block_head(frames.len(), t3_type_byte(rowdelta), bpp, pal) + seq![b.0, b.1, b.2, b.3]
        + t3_refs(frames, fw, fh, bpp, pal, rowdelta) + offset_table(ds, ds.len()) + concat_all(ds, ds.len())
}

/// Type 3 summary: "{BP|RX}{+RD} {w}x{h} data={total}b refs={with ref}/{n}".
pub open spec fn t3_info(frames: Seq<Vec<u8>>, fw: u32, fh: u32, bpp: u8, pal: Option<Seq<u8>>, rowdelta: bool) -> Seq<char> {
    let b = bbox_spec(frames, fw, fh);
    let ds = t3_datas(frames, fw, fh, bpp, pal, rowdelta);
    let refs = t3_refs(frames, fw, fh, bpp, pal, rowdelta);
    (if bpp == 1 { "BP"@ } else { "RX"@ }) + (if rowdelta { "+RD"@ } else { seq![] }) + " "@ + decimal(b.2 as nat) + "x"@
        + decimal(b.3 as nat) + " data="@ + decimal(total_len(ds, ds.len())) + "b refs="@ + decimal(
        count_not(refs, 255, refs.len()),
    ) + "/"@ + decimal(frames.len())
}

fn t3_encode(p: &Vec<u8>, bpp: u8, bw: u8, bh: u8, rowdelta: bool) -> (out: Vec<u8>)
    requires
        p.len() == bw * bh,
        p.len() > 0 ==> 1 <= bpp <= 8,
    ensures
        out@ == t3_code(p@, bpp, bw as nat, bh as nat, rowdelta),
{
    assert(bh * bw == bw * bh) by (nonlinear_arith);
    let px = if rowdelta {
        row_delta(p.as_slice(), bw as usize, bh as usize)
    } else {
        p.clone()
    };
    assert(px.len() == p.len());
    if bpp == 1 {
        pack_bits(px.as_slice())
    } else {
        assert(px.len() <= 255 * 255) by (nonlinear_arith)
            requires
                px.len() == bw * bh,
        ;
        ext_nibble_rle_encode(px.as_slice(), bpp)
    }
}

fn t3_encode_frame(cs: &Vec<Vec<u8>>, i: usize, bpp: u8, bw: u8, bh: u8, rowdelta: bool) -> (res: (u8, Vec<u8>))
    requires
        i < cs.len(),
        bw * bh > 0 ==> 1 <= bpp <= 8,
        forall|k: int| 0 <= k < cs.len() ==> #[trigger] cs[k].len() == bw * bh,
    ensures
        (res.0, res.1@) == t3_pick(seqs_of(cs@), i as int, bpp, bw as nat, bh as nat, rowdelta, i as nat),
{
    let ghost css = seqs_of(cs@);
    assert(cs[i as int].len() == bw * bh);
    let mut best_enc = t3_encode(&cs[i], bpp, bw, bh, rowdelta);
    let mut best_ref: u8 = 255;
    let mut r: usize = 0;
    while r < i
        invariant
            r <= i,
            i < cs.len(),
            bw * bh > 0 ==> 1 <= bpp <= 8,
            css == seqs_of(cs@),
            forall|k: int| 0 <= k < cs.len() ==> #[trigger] cs[k].len() == bw * bh,
            (best_ref, best_enc@) == t3_pick(css, i as int, bpp, bw as nat, bh as nat, rowdelta, r as nat),
        decreases i - r,
    {
        assert(cs[i as int].len() == bw * bh);
        assert(cs[r as int].len() == bw * bh);
        let xor_diff = xor_frames(&cs[i], &cs[r]);
        let enc = t3_encode(&xor_diff, bpp, bw, bh, rowdelta);
        if enc.len() < best_enc.len() {
            best_enc = enc;
            best_ref = #[verifier::truncate] (r as u8);
        }
        r += 1;
    }
    (best_ref, best_enc)
}

/// Type 3: Referenced XOR + RLE (with optional row-delta).
pub fn encode_type3(frames: &[Vec<u8>], fw: u32, fh: u32, bpp: u8, palette: Option<&[u8]>, use_rowdelta: bool) -> (res: (Vec<u8>, String))
    requires
        t3_ok(frames@, fw, fh, bpp, pal_view(palette), use_rowdelta),
    ensures
        res.0@ == t3_block(frames@, fw, fh, bpp, pal_view(palette), use_rowdelta),
        res.1@ == t3_info(frames@, fw, fh, bpp, pal_view(palette), use_rowdelta),
{
    let ghost pal = pal_view(palette);
    let n = frames.len();
    let (bx, by, bw, bh) = get_bbox(frames, fw, fh);
    let cropped = union_crops(frames, fw, fh, (bx, by, bw, bh), bpp, palette);
    let ghost cs = seqs_of(cropped@);
    proof {
        lemma_union_frames_len(frames@, fw, fh, bpp, pal);
        assert forall|k: int| 0 <= k < cropped.len() implies #[trigger] cropped[k].len() == bw * bh by {
            assert(cs[k] == cropped[k]@);
        }
        assert(bw * bh > 0 ==> bw > 0 && bh > 0) by (nonlinear_arith);
    }
    let ghost ch = t3_choices(frames@, fw, fh, bpp, pal, use_rowdelta);
    let mut refs: Vec<u8> = Vec::new();
    let mut frame_data: Vec<Vec<u8>> = Vec::new();
    let mut i: usize = 0;
    while i < n
        invariant
            i <= n,
            n == frames.len(),
            n == cropped.len(),
            cs == seqs_of(cropped@),
            cs == union_frames(frames@, fw, fh, bpp, pal),
            (bw, bh) == (bbox_spec(frames@, fw, fh).2, bbox_spec(frames@, fw, fh).3),
            ch == t3_choices(frames@, fw, fh, bpp, pal, use_rowdelta),
            bw * bh > 0 ==> 1 <= bpp <= 8,
            forall|k: int| 0 <= k < cropped.len() ==> #[trigger] cropped[k].len() == bw * bh,
            refs.len() == i,
            frame_data.len() == i,
            forall|k: int| 0 <= k < i ==> (refs[k], frame_data[k]@) == #[trigger] ch[k],
        decreases n - i,
    {
        let (r, enc) = t3_encode_frame(&cropped, i, bpp, bw, bh, use_rowdelta);
        refs.push(r);
        frame_data.push(enc);
        i += 1;
    }
    let ghost ds = seqs_of(frame_data@);
    assert(ds =~= t3_datas(frames@, fw, fh, bpp, pal, use_rowdelta));
    assert(refs@ =~= t3_refs(frames@, fw, fh, bpp, pal, use_rowdelta));
    let enc_byte: u8 = if use_rowdelta { 0x83 } else { 3 };
    let mut block: Vec<u8> = Vec::new();
    push_block_head(&mut block, n, enc_byte, bpp, palette);
    block.push(bx);
    block.push(by);
    block.push(bw);
    block.push(bh);
    let mut k: usize = 0;
    while k < n
        invariant
            k <= n,
            refs.len() == n,
            block@ == block_head(n as nat, enc_byte, bpp, pal) + seq![bx, by, bw, bh] + refs@.take(k as int),
        decreases n - k,
    {
        block.push(refs[k]);
        assert(refs@.take(k + 1) =~= refs@.take(k as int).push(refs[k as int]));
        k += 1;
    }
    assert(refs@.take(n as int) =~= refs@);
    push_offsets(&mut block, &frame_data);
    push_all(&mut block, &frame_data);
    proof {
        lemma_concat_all_len(ds, n as nat);
    }
    let block_len = block.len();
    let total = sum_lens(&frame_data);
    let ref_count = count_refs(&refs, 255);
    let mut info = String::new();
    if bpp == 1 {
        info.append("BP");
    } else {
        info.append("RX");
    }
    if use_rowdelta {
        info.append("+RD");
    }
    info.append(" ");
    push_decimal(&mut info, bw as usize);
    info.append("x");
    push_decimal(&mut info, bh as usize);
    info.append(" data=");
    push_decimal(&mut info, total);
    info.append("b refs=");
    push_decimal(&mut info, ref_count);
    info.append("/");
    push_decimal(&mut info, n);
    (block, info)
}

/// The contents of a list of index vectors.
pub open spec fn index_lists(v: Seq<Vec<usize>>) -> Seq<Seq<usize>> {
    Seq::new(v.len(), |k: int| v[k]@)
}

/// Every choice of `k` entries of `items`, keeping their order, listed in
/// lexicographic order of positions.
pub open spec fn combinations_spec(items: Seq<usize>, k: nat) -> Seq<Seq<usize>>
    decreases k, items.len() + 1,
{
    if k == 0 {
        seq![seq![]]
    } else if items.len() < k {
        seq![]
    } else {
        combos_from(items, k, 0)
    }
}

/// The choices of `k` entries of `items` whose first entry is at position `i` or later.
pub open spec fn combos_from(items: Seq<usize>, k: nat, i: nat) -> Seq<Seq<usize>>
    decreases k, items.len() - i,
{
    if k == 0 || i >= items.len() {
        seq![]
    } else {
        combinations_spec(items.skip(i + 1 as int), (k - 1) as nat).map_values(|c: Seq<usize>| seq![items[i as int]] + c)
            + combos_from(items, k, i + 1)
    }
}

/// Every combination has `k` entries, each below `bound` when all items are.
pub proof fn lemma_combinations_shape(items: Seq<usize>, k: nat, bound: nat)
    requires
        forall|j: int| 0 <= j < items.len() ==> items[j] < bound,
    ensures
        forall|c: int| 0 <= c < combinations_spec(items, k).len() ==> (#[trigger] combinations_spec(items, k)[c]).len() == k
            && forall|j: int| 0 <= j < k ==> combinations_spec(items, k)[c][j] < bound,
    decreases k, items.len() + 1,
{
    if k > 0 && items.len() >= k {
        assert(combinations_spec(items, k) == combos_from(items, k, 0));
        lemma_combos_from_shape(items, k, 0, bound);
    }
}

proof fn lemma_combos_from_shape(items: Seq<usize>, k: nat, i: nat, bound: nat)
    requires
        forall|j: int| 0 <= j < items.len() ==> items[j] < bound,
    ensures
        forall|c: int| 0 <= c < combos_from(items, k, i).len() ==> (#[trigger] combos_from(items, k, i)[c]).len() == k
            && forall|j: int| 0 <= j < k ==> combos_from(items, k, i)[c][j] < bound,
    decreases k, items.len() - i,
{
    if k == 0 || i >= items.len() {
    } else {
        let rest = items.skip(i + 1 as int);
        lemma_combinations_shape(rest, (k - 1) as nat, bound);
        lemma_combos_from_shape(items, k, i + 1, bound);
        let head = combinations_spec(rest, (k - 1) as nat).map_values(|c: Seq<usize>| seq![items[i as int]] + c);
        let tail = combos_from(items, k, i + 1);
        assert(combos_from(items, k, i) == head + tail);
        assert forall|c: int| 0 <= c < head.len() + tail.len() implies (#[trigger] (head + tail)[c]).len() == k
            && forall|j: int| 0 <= j < k ==> (head + tail)[c][j] < bound by {
            if c < head.len() {
                let r = combinations_spec(rest, (k - 1) as nat)[c];
                assert(head[c] == seq![items[i as int]] + r);
                assert forall|j: int| 0 <= j < k implies (head + tail)[c][j] < bound by {
                    if j > 0 {
                        assert((head + tail)[c][j] == r[j - 1]);
                    }
                }
            } else {
                assert((head + tail)[c] == tail[c - head.len()]);
            }
        }
    }
}

fn combinations(items: &[usize], k: usize) -> (out: Vec<Vec<usize>>)
    ensures
        index_lists(out@) == combinations_spec(items@, k as nat),
    decreases k, items.len() + 1,
{
    if k == 0 {
        let mut r: Vec<Vec<usize>> = Vec::new();
        r.push(Vec::new());
        assert(index_lists(r@) =~= combinations_spec(items@, k as nat));
        return r;
    }
    if items.len() < k {
        let r: Vec<Vec<usize>> = Vec::new();
        assert(index_lists(r@) =~= combinations_spec(items@, k as nat));
        return r;
    }
    let mut result: Vec<Vec<usize>> = Vec::new();
    let mut i: usize = 0;
    while i < items.len()
        invariant
            i <= items.len(),
            k >= 1,
            index_lists(result@) + combos_from(items@, k as nat, i as nat) == combos_from(items@, k as nat, 0),
        decreases items.len() - i,
    {
        let rest_items = vstd::slice::slice_subrange(items, i + 1, items.len());
        assert(rest_items@ =~= items@.skip(i + 1));
        let rests = combinations(rest_items, k - 1);
        let ghost mapped = combinations_spec(items@.skip(i + 1), (k - 1) as nat).map_values(
            |c: Seq<usize>| seq![items@[i as int]] + c,
        );
        let ghost start = index_lists(result@);
        let mut j: usize = 0;
        while j < rests.len()
            invariant
                j <= rests.len(),
                i < items.len(),
                index_lists(rests@) == combinations_spec(items@.skip(i + 1), (k - 1) as nat),
                mapped.len() == rests.len(),
                mapped == combinations_spec(items@.skip(i + 1), (k - 1) as nat).map_values(
                    |c: Seq<usize>| seq![items@[i as int]] + c,
                ),
                index_lists(result@) == start + mapped.take(j as int),
            decreases rests.len() - j,
        {
            let mut combo: Vec<usize> = Vec::new();
            combo.push(items[i]);
            let mut tail = rests[j].clone();
            assert(tail@ =~= rests@[j as int]@);
            combo.append(&mut tail);
            assert(index_lists(rests@)[j as int] == rests@[j as int]@);
            assert(combo@ =~= mapped[j as int]);
            let ghost before = result@;
            let ghost cv = combo@;
            result.push(combo);
            assert(index_lists(result@) =~= index_lists(before).push(cv));
            assert(mapped.take(j + 1) =~= mapped.take(j as int).push(mapped[j as int]));
            assert(index_lists(result@) =~= start + mapped.take(j + 1));
            j += 1;
        }
        assert(mapped.take(rests.len() as int) =~= mapped);
        assert(combos_from(items@, k as nat, i as nat) == mapped + combos_from(items@, k as nat, (i + 1) as nat));
        assert(index_lists(result@) + combos_from(items@, k as nat, (i + 1) as nat) =~= combos_from(items@, k as nat, 0));
        i += 1;
    }
    assert(combos_from(items@, k as nat, i as nat) =~= seq![]);
    assert(index_lists(result@) =~= combos_from(items@, k as nat, 0));
    result
}

/// The most key frames tried for `n` frames: up to 4 for at most 8 frames,
/// up to 3 for at most 16, else up to 2.
pub open spec fn max_keys(n: nat) -> nat {
    let cap: nat = if n > 16 {
        2
    } else if n <= 8 {
        4
    } else {
        3
    };
    if n < cap { n } else { cap }
}

/// `k` evenly spaced key frames (every `n / k`-th), moved on by `offset`
/// (modulo `n`) when the offset is not zero.
pub open spec fn spaced_keys(n: nat, k: nat, offset: nat) -> Seq<usize> {
    Seq::new(k, |i: int| if offset == 0 { (i * (n / k)) as usize } else { ((i * (n / k) + offset) % (n as int)) as usize })
}

/// Candidate key frame sets of `k` keys for `n` frames: for more than 12
/// frames and at least 3 keys, evenly spaced keys moved on by 0, 1, ... (fewer
/// than 3 and than the spacing); else every choice of `k` frames.
pub open spec fn keys_for(n: nat, k: nat) -> Seq<Seq<usize>> {
    if n > 12 && k >= 3 {
        let step = n / k;
        let m: nat = if step < 3 { step } else { 3 };
        Seq::new(if m >= 1 { m } else { 1 }, |o: int| spaced_keys(n, k, o as nat))
    } else {
        combinations_spec(Seq::new(n, |i: int| i as usize), k)
    }
}

/// Candidates of 1 to `m` keys, by number of keys.
pub open spec fn candidates_upto(n: nat, m: nat) -> Seq<Seq<usize>>
    decreases m,
{
    if m == 0 {
        seq![]
    } else {
        candidates_upto(n, (m - 1) as nat) + keys_for(n, m)
    }
}

/// Every candidate key frame set for `n` frames, in the order tried.
pub open spec fn keyframe_candidates(n: nat) -> Seq<Seq<usize>> {
    candidates_upto(n, max_keys(n))
}

/// A key frame set for `n` frames: at least one key, each a frame index.
pub open spec fn keys_valid(keys: Seq<usize>, n: nat) -> bool {
    &&& keys.len() >= 1
    &&& forall|j: int| 0 <= j < keys.len() ==> keys[j] < n
}

proof fn lemma_keys_for_valid(n: nat, k: nat)
    requires
        1 <= k <= n,
    ensures
        forall|c: int| 0 <= c < keys_for(n, k).len() ==> keys_valid(#[trigger] keys_for(n, k)[c], n),
        k == 1 ==> keys_for(n, k).len() >= 1,
{
    if n > 12 && k >= 3 {
        let step = n / k;
        assert(step >= 1) by (nonlinear_arith)
            requires
                1 <= k <= n,
                step == n / k,
        ;
        assert forall|c: int| 0 <= c < keys_for(n, k).len() implies keys_valid(#[trigger] keys_for(n, k)[c], n) by {
            let keys = keys_for(n, k)[c];
            assert(keys == spaced_keys(n, k, c as nat));
            assert forall|j: int| 0 <= j < keys.len() implies keys[j] < n by {
                assert(j * step <= (k - 1) * step) by (nonlinear_arith)
                    requires
                        0 <= j < k,
                        step >= 1,
                ;
                assert((k - 1) * step + step == k * step) by (nonlinear_arith);
                assert(k * step <= n) by (nonlinear_arith)
                    requires
                        step == n / k,
                        k >= 1,
                ;
                if c == 0 {
                    assert(keys[j] == (j * step) as usize);
                } else {
                    assert(keys[j] == ((j * step + c) % (n as int)) as usize);
                }
            }
        }
    } else {
        let items = Seq::new(n, |i: int| i as usize);
        lemma_combinations_shape(items, k, n);
        if k == 1 {
            assert(combinations_spec(items, 1) == combos_from(items, 1, 0));
            assert(combinations_spec(items.skip(1), 0) == seq![Seq::<usize>::empty()]);
        }
    }
}

proof fn lemma_candidates_upto_valid(n: nat, m: nat)
    requires
        m <= n,
    ensures
        forall|c: int| 0 <= c < candidates_upto(n, m).len() ==> keys_valid(#[trigger] candidates_upto(n, m)[c], n),
        m >= 1 ==> candidates_upto(n, m).len() >= 1,
    decreases m,
{
    if m > 0 {
        lemma_candidates_upto_valid(n, (m - 1) as nat);
        lemma_keys_for_valid(n, m);
        if m == 1 {
            lemma_keys_for_valid(n, 1);
        }
        let a = candidates_upto(n, (m - 1) as nat);
        let b = keys_for(n, m);
        assert forall|c: int| 0 <= c < (a + b).len() implies keys_valid(#[trigger] (a + b)[c], n) by {
            if c < a.len() {
                assert((a + b)[c] == a[c]);
            } else {
                assert((a + b)[c] == b[c - a.len()]);
            }
        }
    }
}

/// Every candidate is a valid key frame set, and there is at least one when
/// there is a frame.
pub proof fn lemma_keyframe_candidates_valid(n: nat)
    ensures
        forall|c: int| 0 <= c < keyframe_candidates(n).len() ==> keys_valid(#[trigger] keyframe_candidates(n)[c], n),
        n >= 1 ==> keyframe_candidates(n).len() >= 1,
{
    lemma_candidates_upto_valid(n, max_keys(n));
}

fn keys_for_exec(n: usize, k: usize) -> (out: Vec<Vec<usize>>)
    requires
        1 <= k <= n,
        n <= usize::MAX - 3,
    ensures
        index_lists(out@) == keys_for(n as nat, k as nat),
{
    if n > 12 && k >= 3 {
        let step = n / k;
        let mut out: Vec<Vec<usize>> = Vec::new();
        let mut base: Vec<usize> = Vec::new();
        let mut i: usize = 0;
        while i < k
            invariant
                i <= k,
                1 <= k <= n,
                n <= usize::MAX - 3,
                step == n / k,
                base@ =~= spaced_keys(n as nat, k as nat, 0).take(i as int),
            decreases k - i,
        {
            assert(i * step <= n) by (nonlinear_arith)
                requires
                    i < k,
                    step == n / k,
                    k >= 1,
            ;
            base.push(i * step);
            i += 1;
        }
        assert(base@ =~= spaced_keys(n as nat, k as nat, 0));
        let ghost count: nat = if step < 3 { if step >= 1 { step as nat } else { 1 } } else { 3 };
        let first = base.clone();
        assert(first@ =~= base@);
        out.push(first);
        let mut offset: usize = 1;
        let top: usize = if step < 3 { step } else { 3 };
        while offset < top
            invariant
                1 <= offset,
                offset <= 3,
                top <= 3,
                top == if step < 3 { step } else { 3 },
                1 <= k <= n,
                n <= usize::MAX - 3,
                step == n / k,
                base@ == spaced_keys(n as nat, k as nat, 0),
                offset <= (if top >= 1 { top } else { 1 }),
                out.len() == offset,
                forall|o: int| 0 <= o < offset ==> (#[trigger] out@[o])@ == spaced_keys(n as nat, k as nat, o as nat),
            decreases top - offset,
        {
            let mut shifted: Vec<usize> = Vec::new();
            let mut i: usize = 0;
            while i < k
                invariant
                    i <= k,
                    1 <= k <= n,
                    n <= usize::MAX - 3,
                    1 <= offset <= 3,
                    step == n / k,
                    base@ == spaced_keys(n as nat, k as nat, 0),
                    shifted@ =~= spaced_keys(n as nat, k as nat, offset as nat).take(i as int),
                decreases k - i,
            {
                assert(i * step <= n) by (nonlinear_arith)
                    requires
                        i < k,
                        step == n / k,
                        k >= 1,
                ;
                assert(base@[i as int] == i * step);
                shifted.push((base[i] + offset) % n);
                i += 1;
            }
            assert(shifted@ =~= spaced_keys(n as nat, k as nat, offset as nat));
            out.push(shifted);
            offset += 1;
        }
        assert(index_lists(out@) =~= keys_for(n as nat, k as nat));
        out
    } else {
        let mut indices: Vec<usize> = Vec::new();
        let mut i: usize = 0;
        while i < n
            invariant
                i <= n,
                indices@ =~= Seq::new(i as nat, |j: int| j as usize),
            decreases n - i,
        {
            indices.push(i);
            i += 1;
        }
        combinations(indices.as_slice(), k)
    }
}

/// Key frame sets to try for `n` frames (type 0).
pub fn pick_keyframe_candidates(n: usize) -> (out: Vec<Vec<usize>>)
    requires
        n <= usize::MAX - 3,
    ensures
        index_lists(out@) == keyframe_candidates(n as nat),
{
    let most: usize = if n > 16 {
        if n < 2 { n } else { 2 }
    } else if n <= 8 {
        if n < 4 { n } else { 4 }
    } else {
        if n < 3 { n } else { 3 }
    };
    let mut candidates: Vec<Vec<usize>> = Vec::new();
    let mut k: usize = 1;
    while k <= most
        invariant
            1 <= k <= most + 1,
            most == max_keys(n as nat),
            most <= n,
            n <= usize::MAX - 3,
            index_lists(candidates@) == candidates_upto(n as nat, (k - 1) as nat),
        decreases most + 1 - k,
    {
        let ghost before = index_lists(candidates@);
        let mut more = keys_for_exec(n, k);
        let ghost added = index_lists(more@);
        candidates.append(&mut more);
        assert(index_lists(candidates@) =~= before + added);
        k += 1;
    }
    candidates
}

/// Index (into `keys`) of the key frame nearest to frame `i` among the
/// first `m` keys: the fewest changed pixels, the earlier key on a tie.
pub open spec fn nearest_key(cs: Seq<Seq<u8>>, keys: Seq<usize>, i: int, m: nat) -> nat
    decreases m,
{
    if m <= 1 {
        0
    } else {
        let prev = nearest_key(cs, keys, i, (m - 1) as nat);
        if changed_pixels(cs[keys[m - 1] as int], cs[i]).len() < changed_pixels(cs[keys[prev as int] as int], cs[i]).len() {
            (m - 1) as nat
        } else {
            prev
        }
    }
}

/// Extended RLE of each key frame.
pub open spec fn key_codes(cs: Seq<Seq<u8>>, keys: Seq<usize>, bpp: u8) -> Seq<Seq<u8>> {
    Seq::new(keys.len(), |j: int| ext_runs(cs[keys[j] as int], bpp))
}

/// Each frame as a delta against its nearest key frame.
pub open spec fn key_deltas(cs: Seq<Seq<u8>>, keys: Seq<usize>) -> Seq<Seq<u8>> {
    Seq::new(cs.len(), |i: int| delta_stream(cs[keys[nearest_key(cs, keys, i, keys.len()) as int] as int], cs[i]))
}

/// The first `k` values as u16 LE pairs.
pub open spec fn le16_table(vals: Seq<nat>, k: nat) -> Seq<u8>
    decreases k,
{
    if k == 0 {
        seq![]
    } else {
        le16_table(vals, (k - 1) as nat) + le16(vals[k - 1])
    }
}

/// Type 0 block for one key frame set: head, key count, animation box, key
/// frame indices, key code lengths, each frame's key, each delta's start in
/// the data, then the key codes and the deltas.
pub open spec fn t0_candidate_block(cs: Seq<Seq<u8>>, b: (u8, u8, u8, u8), bpp: u8, pal: Option<Seq<u8>>, keys: Seq<usize>) -> Seq<u8> {
    let n = cs.len();
    let nk = keys.len();
    let codes = key_codes(cs, keys, bpp);
    let deltas = key_deltas(cs, keys);
    let keys_total = total_len(codes, nk);
    block_head(n, 0, bpp, pal) + seq![nk as u8, b.0, b.1, b.2, b.3] + Seq::new(nk, |j: int| keys[j] as u8)
        + le16_table(Seq::new(nk, |j: int| codes[j].len()), nk)
        + Seq::new(n, |i: int| nearest_key(cs, keys, i, nk) as u8)
        + le16_table(Seq::new(n, |i: int| keys_total + total_len(deltas, i as nat)), n) + concat_all(codes, nk)
        + concat_all(deltas, n)
}

/// The shortest candidate block among the first `m` key frame sets (the
/// earlier on a tie), with its position.
pub open spec fn t0_best(cs: Seq<Seq<u8>>, b: (u8, u8, u8, u8), bpp: u8, pal: Option<Seq<u8>>, cands: Seq<Seq<usize>>, m: nat) -> (Seq<u8>, nat)
    decreases m,
{
    if m <= 1 {
        (t0_candidate_block(cs, b, bpp, pal, cands[0]), 0)
    } else {
        let prev = t0_best(cs, b, bpp, pal, cands, (m - 1) as nat);
        let blk = t0_candidate_block(cs, b, bpp, pal, cands[m - 1]);
        if blk.len() < prev.0.len() {
            (blk, (m - 1) as nat)
        } else {
            prev
        }
    }
}

/// What type 0 needs: at least one frame, scannable frames that can be cut to
/// the animation-wide box, and a bpp the run-length coder takes when the box
/// is not empty.
pub open spec fn t0_ok(frames: Seq<Vec<u8>>, fw: u32, fh: u32, bpp: u8) -> bool {
    &&& 1 <= frames.len() <= usize::MAX - 3
    &&& frames_scan_ok(frames, fw, fh)
    &&& union_crops_fit(frames, fw, fh)
    &&& union_box_nonempty(frames, fw, fh) ==> 1 <= bpp <= 8
}

/// Type 0 block: the shortest over all key frame candidates.
pub open spec fn t0_block(frames: Seq<Vec<u8>>, fw: u32, fh: u32, bpp: u8, pal: Option<Seq<u8>>) -> Seq<u8> {
    let cands = keyframe_candidates(frames.len());
    t0_best(union_frames(frames, fw, fh, bpp, pal), bbox_spec(frames, fw, fh), bpp, pal, cands, cands.len()).0
}

/// Type 0 summary: "KD {keys}k {w}x{h} keys={key code bytes}b" for the chosen key set.
pub open spec fn t0_info(frames: Seq<Vec<u8>>, fw: u32, fh: u32, bpp: u8, pal: Option<Seq<u8>>) -> Seq<char> {
    let cands = keyframe_candidates(frames.len());
    let cs = union_frames(frames, fw, fh, bpp, pal);
    let b = bbox_spec(frames, fw, fh);
    let keys = cands[t0_best(cs, b, bpp, pal, cands, cands.len()).1 as int];
    "KD "@ + decimal(keys.len()) + "k "@ + decimal(b.2 as nat) + "x"@ + decimal(b.3 as nat) + " keys="@ + decimal(
        total_len(key_codes(cs, keys, bpp), keys.len()),
    ) + "b"@
}

fn push_le16(block: &mut Vec<u8>, v: usize)
    ensures
        final(block)@ == old(block)@ + le16(v as nat),
{
    let lo: u8 = #[verifier::truncate] ((v & 0xFF) as u8);
    let hi: u8 = #[verifier::truncate] (((v >> 8usize) & 0xFF) as u8);
    assert((v & 0xFF) as u8 == v % 256 && ((v >> 8usize) & 0xFF) as u8 == (v / 256) % 256) by (bit_vector);
    block.push(lo);
    block.push(hi);
    assert(final(block)@ =~= old(block)@ + le16(v as nat)) by {
        assert(block@ =~= old(block)@ + le16(v as nat));
    }
}

fn push_le16_table(block: &mut Vec<u8>, vals: &Vec<usize>)
    ensures
        final(block)@ == old(block)@ + le16_table(vals@.map_values(|v: usize| v as nat), vals.len() as nat),
{
    let ghost start = block@;
    let ghost nv = vals@.map_values(|v: usize| v as nat);
    let mut k: usize = 0;
    while k < vals.len()
        invariant
            k <= vals.len(),
            nv == vals@.map_values(|v: usize| v as nat),
            block@ == start + le16_table(nv, k as nat),
        decreases vals.len() - k,
    {
        push_le16(block, vals[k]);
        assert(block@ =~= start + le16_table(nv, (k + 1) as nat));
        k += 1;
    }
}

fn push_low_bytes(block: &mut Vec<u8>, vals: &Vec<usize>)
    ensures
        final(block)@ == old(block)@ + Seq::new(vals.len() as nat, |j: int| vals@[j] as u8),
{
    let ghost start = block@;
    let mut k: usize = 0;
    while k < vals.len()
        invariant
            k <= vals.len(),
            block@ == start + Seq::new(k as nat, |j: int| vals@[j] as u8),
        decreases vals.len() - k,
    {
        block.push(#[verifier::truncate] (vals[k] as u8));
        assert(block@ =~= start + Seq::new((k + 1) as nat, |j: int| vals@[j] as u8));
        k += 1;
    }
}

fn nearest_key_exec(cs: &Vec<Vec<u8>>, keys: &Vec<usize>, i: usize) -> (best: usize)
    requires
        i < cs.len(),
        keys_valid(keys@, cs.len() as nat),
    ensures
        best == nearest_key(seqs_of(cs@), keys@, i as int, keys.len() as nat),
        best < keys.len(),
{
    let ghost css = seqs_of(cs@);
    let mut best: usize = 0;
    let mut best_d = count_diffs(cs[keys[0]].as_slice(), cs[i].as_slice());
    let mut ki: usize = 1;
    while ki < keys.len()
        invariant
            1 <= ki <= keys.len(),
            i < cs.len(),
            keys_valid(keys@, cs.len() as nat),
            css == seqs_of(cs@),
            best < ki,
            best == nearest_key(css, keys@, i as int, ki as nat),
            best_d == changed_pixels(css[keys[best as int] as int], css[i as int]).len(),
        decreases keys.len() - ki,
    {
        let d = count_diffs(cs[keys[ki]].as_slice(), cs[i].as_slice());
        if d < best_d {
            best = ki;
            best_d = d;
        }
        ki += 1;
    }
    best
}

fn t0_candidate(cs: &Vec<Vec<u8>>, b: (u8, u8, u8, u8), bpp: u8, palette: Option<&[u8]>, keys: &Vec<usize>) -> (res: (Vec<u8>, usize))
    requires
        cs.len() >= 1,
        keys_valid(keys@, cs.len() as nat),
        forall|k: int| 0 <= k < cs.len() ==> #[trigger] cs[k].len() == b.2 * b.3,
        b.2 * b.3 > 0 ==> 1 <= bpp <= 8,
    ensures
        res.0@ == t0_candidate_block(seqs_of(cs@), b, bpp, pal_view(palette), keys@),
        res.1 == total_len(key_codes(seqs_of(cs@), keys@, bpp), keys.len() as nat),
{
    let ghost css = seqs_of(cs@);
    let n = cs.len();
    let nk = keys.len();
    let ghost codes_spec = key_codes(css, keys@, bpp);
    let ghost deltas_spec = key_deltas(css, keys@);
    proof {
        assert(b.2 * b.3 <= 255 * 255) by (nonlinear_arith);
    }
    let mut assign: Vec<usize> = Vec::new();
    let mut i: usize = 0;
    while i < n
        invariant
            i <= n,
            n == cs.len(),
            nk == keys.len(),
            keys_valid(keys@, cs.len() as nat),
            css == seqs_of(cs@),
            assign.len() == i,
            forall|j: int| 0 <= j < i ==> #[trigger] assign@[j] == nearest_key(css, keys@, j, nk as nat) && assign@[j] < nk,
        decreases n - i,
    {
        let a = nearest_key_exec(cs, keys, i);
        assign.push(a);
        i += 1;
    }
    let mut codes: Vec<Vec<u8>> = Vec::new();
    let mut code_lens: Vec<usize> = Vec::new();
    let mut j: usize = 0;
    while j < nk
        invariant
            j <= nk,
            nk == keys.len(),
            keys_valid(keys@, cs.len() as nat),
            css == seqs_of(cs@),
            codes_spec == key_codes(css, keys@, bpp),
            forall|k: int| 0 <= k < cs.len() ==> #[trigger] cs[k].len() == b.2 * b.3,
            b.2 * b.3 > 0 ==> 1 <= bpp <= 8,
            b.2 * b.3 <= 255 * 255,
            codes.len() == j,
            code_lens.len() == j,
            forall|k: int| 0 <= k < j ==> (#[trigger] codes@[k])@ == codes_spec[k] && code_lens@[k] == codes@[k].len(),
        decreases nk - j,
    {
        assert(cs[keys[j as int] as int].len() == b.2 * b.3);
        let c = ext_nibble_rle_encode(cs[keys[j]].as_slice(), bpp);
        code_lens.push(c.len());
        codes.push(c);
        j += 1;
    }
    assert(seqs_of(codes@) =~= codes_spec);
    let mut data: Vec<u8> = Vec::new();
    push_all(&mut data, &codes);
    proof {
        lemma_concat_all_len(codes_spec, nk as nat);
    }
    let keys_total = data.len();
    let mut starts: Vec<usize> = Vec::new();
    let mut i: usize = 0;
    while i < n
        invariant
            i <= n,
            n == cs.len(),
            nk == keys.len(),
            keys_valid(keys@, cs.len() as nat),
            css == seqs_of(cs@),
            deltas_spec == key_deltas(css, keys@),
            assign.len() == n,
            forall|j: int| 0 <= j < n ==> #[trigger] assign@[j] == nearest_key(css, keys@, j, nk as nat) && assign@[j] < nk,
            keys_total == total_len(codes_spec, nk as nat),
            data@ == concat_all(codes_spec, nk as nat) + concat_all(deltas_spec, i as nat),
            data.len() == keys_total + total_len(deltas_spec, i as nat),
            starts.len() == i,
            forall|j: int| 0 <= j < i ==> #[trigger] starts@[j] == keys_total + total_len(deltas_spec, j as nat),
        decreases n - i,
    {
        starts.push(data.len());
        let base = keys[assign[i]];
        let d = delta_encode_skip(cs[base].as_slice(), cs[i].as_slice());
        assert(d@ == deltas_spec[i as int]);
        let mut d = d;
        data.append(&mut d);
        assert(data@ =~= concat_all(codes_spec, nk as nat) + concat_all(deltas_spec, (i + 1) as nat));
        i += 1;
    }
    let mut block: Vec<u8> = Vec::new();
    push_block_head(&mut block, n, 0, bpp, palette);
    block.push(#[verifier::truncate] (nk as u8));
    block.push(b.0);
    block.push(b.1);
    block.push(b.2);
    block.push(b.3);
    push_low_bytes(&mut block, keys);
    push_le16_table(&mut block, &code_lens);
    push_low_bytes(&mut block, &assign);
    push_le16_table(&mut block, &starts);
    block.append(&mut data);
    proof {
        assert(code_lens@.map_values(|v: usize| v as nat) =~= Seq::new(nk as nat, |j: int| codes_spec[j].len()));
        assert(starts@.map_values(|v: usize| v as nat) =~= Seq::new(
            n as nat,
            |i: int| total_len(codes_spec, nk as nat) + total_len(deltas_spec, i as nat),
        ));
        assert(Seq::new(n as nat, |i: int| assign@[i] as u8) =~= Seq::new(n as nat, |i: int| nearest_key(css, keys@, i, nk as nat) as u8));
    }
    assert(block@ =~= t0_candidate_block(css, b, bpp, pal_view(palette), keys@));
    (block, keys_total)
}

/// Type 0: Keyframe + Delta (animation-wide bbox, combinatorial keyframe search).
pub fn encode_type0(frames: &[Vec<u8>], fw: u32, fh: u32, bpp: u8, palette: Option<&[u8]>) -> (res: (Vec<u8>, String))
    requires
        t0_ok(frames@, fw, fh, bpp),
    ensures
        res.0@ == t0_block(frames@, fw, fh, bpp, pal_view(palette)),
        res.1@ == t0_info(frames@, fw, fh, bpp, pal_view(palette)),
{
    let ghost pal = pal_view(palette);
    let n = frames.len();
    let (bx, by, bw, bh) = get_bbox(frames, fw, fh);
    let b = (bx, by, bw, bh);
    let cropped = union_crops(frames, fw, fh, b, bpp, palette);
    let ghost cs = seqs_of(cropped@);
    assert(cs == union_frames(frames@, fw, fh, bpp, pal));
    assert(cropped.len() == n);
    proof {
        lemma_union_frames_len(frames@, fw, fh, bpp, pal);
        assert forall|k: int| 0 <= k < cropped.len() implies #[trigger] cropped[k].len() == bw * bh by {
            assert(cs[k] == cropped[k]@);
            assert(union_frames(frames@, fw, fh, bpp, pal)[k].len() == bw * bh);
        }
        assert(bw * bh > 0 ==> bw > 0 && bh > 0) by (nonlinear_arith);
        lemma_keyframe_candidates_valid(n as nat);
    }
    let candidates = pick_keyframe_candidates(n);
    let ghost cands = keyframe_candidates(n as nat);
    assert(candidates.len() == cands.len());
    assert(index_lists(candidates@)[0] == candidates@[0]@);
    assert(keys_valid(cands[0], n as nat));
    let (first_block, first_total) = t0_candidate(&cropped, b, bpp, palette, &candidates[0]);
    let mut best_block = first_block;
    let mut best_total = first_total;
    let mut best_idx: usize = 0;
    let mut c: usize = 1;
    while c < candidates.len()
        invariant
            1 <= c <= candidates.len(),
            n == frames.len(),
            n == cropped.len(),
            n >= 1,
            cs == seqs_of(cropped@),
            pal == pal_view(palette),
            cands == keyframe_candidates(n as nat),
            index_lists(candidates@) == cands,
            forall|k: int| 0 <= k < cands.len() ==> keys_valid(#[trigger] cands[k], n as nat),
            b == (bx, by, bw, bh),
            bw * bh > 0 ==> 1 <= bpp <= 8,
            forall|k: int| 0 <= k < cropped.len() ==> #[trigger] cropped[k].len() == bw * bh,
            best_idx < c,
            (best_block@, best_idx as nat) == t0_best(cs, b, bpp, pal, cands, c as nat),
            best_total == total_len(key_codes(cs, cands[best_idx as int], bpp), cands[best_idx as int].len()),
        decreases candidates.len() - c,
    {
        assert(index_lists(candidates@)[c as int] == candidates@[c as int]@);
        assert(keys_valid(cands[c as int], n as nat));
        let (blk, total) = t0_candidate(&cropped, b, bpp, palette, &candidates[c]);
        assert(blk@ == t0_candidate_block(cs, b, bpp, pal, cands[c as int]));
        assert(t0_best(cs, b, bpp, pal, cands, (c + 1) as nat) == (if blk@.len() < t0_best(cs, b, bpp, pal, cands, c as nat).0.len() {
            (blk@, c as nat)
        } else {
            t0_best(cs, b, bpp, pal, cands, c as nat)
        }));
        if blk.len() < best_block.len() {
            best_block = blk;
            best_total = total;
            best_idx = c;
        }
        c += 1;
    }
    let nkeys = candidates[best_idx].len();
    assert(cands[best_idx as int] == candidates@[best_idx as int]@);
    assert(cs == union_frames(frames@, fw, fh, bpp, pal));
    let mut info = String::new();
    info.append("KD ");
    push_decimal(&mut info, nkeys);
    info.append("k ");
    push_decimal(&mut info, bw as usize);
    info.append("x");
    push_decimal(&mut info, bh as usize);
    info.append(" keys=");
    push_decimal(&mut info, best_total);
    info.append("b");
    (best_block, info)
}

/// The code type 3 keeps for a frame is never longer than coding the frame
/// without a reference, and its reference is an earlier frame or none.
pub proof fn t3_pick_no_longer(cs: Seq<Seq<u8>>, i: int, bpp: u8, w: nat, h: nat, rowdelta: bool, limit: nat)
    ensures
        t3_pick(cs, i, bpp, w, h, rowdelta, limit).1.len() <= t3_code(cs[i], bpp, w, h, rowdelta).len(),
        t3_pick(cs, i, bpp, w, h, rowdelta, limit).0 == 255u8 || t3_pick(cs, i, bpp, w, h, rowdelta, limit).0 < limit,
    decreases limit,
{
    if limit > 0 {
        t3_pick_no_longer(cs, i, bpp, w, h, rowdelta, (limit - 1) as nat);
    }
}

/// Type 0 keeps a block no longer than the block of any key frame set tried.
pub proof fn t0_best_is_shortest(cs: Seq<Seq<u8>>, b: (u8, u8, u8, u8), bpp: u8, pal: Option<Seq<u8>>, cands: Seq<Seq<usize>>, m: nat, c: int)
    requires
        0 <= c < m,
    ensures
        t0_best(cs, b, bpp, pal, cands, m).0.len() <= t0_candidate_block(cs, b, bpp, pal, cands[c]).len(),
        t0_best(cs, b, bpp, pal, cands, m).1 < m,
    decreases m,
{
    if m > 1 {
        if c < m - 1 {
            t0_best_is_shortest(cs, b, bpp, pal, cands, (m - 1) as nat, c);
        } else {
            t0_best_is_shortest(cs, b, bpp, pal, cands, (m - 1) as nat, 0);
        }
    }
}

/// Type 2 data restores the frames in turn: frame 0's data decodes to its
/// prepared crop, and each later frame's data decodes to what, XORed with the
/// crop before it, gives its own prepared crop, when the values coded fit in
/// `bpp` bits.
pub proof fn t2_data_restores(frames: Seq<Vec<u8>>, fw: u32, fh: u32, bpp: u8, pal: Option<Seq<u8>>, i: int)
    requires
        1 <= bpp <= 8,
        0 <= i < frames.len(),
        i == 0 ==> forall|q: int|
            0 <= q < union_frames(frames, fw, fh, bpp, pal)[0].len() ==> (#[trigger] union_frames(frames, fw, fh, bpp, pal)[0][q] as nat) < pow2(bpp as nat),
        i > 0 ==> forall|q: int|
            0 <= q < union_frames(frames, fw, fh, bpp, pal)[i].len() ==> (#[trigger] xor_seq(
                union_frames(frames, fw, fh, bpp, pal)[i],
                union_frames(frames, fw, fh, bpp, pal)[i - 1],
            )[q] as nat) < pow2(bpp as nat),
    ensures
        i == 0 ==> ext_decode(t2_datas(frames, fw, fh, bpp, pal)[0], bpp) == union_frames(frames, fw, fh, bpp, pal)[0],
        i > 0 ==> xor_seq(ext_decode(t2_datas(frames, fw, fh, bpp, pal)[i], bpp), union_frames(frames, fw, fh, bpp, pal)[i - 1])
            == union_frames(frames, fw, fh, bpp, pal)[i],
{
    let cs = union_frames(frames, fw, fh, bpp, pal);
    lemma_union_frames_len(frames, fw, fh, bpp, pal);
    if i == 0 {
        ext_rle_roundtrip(cs[0], bpp);
    } else {
        let x = xor_seq(cs[i], cs[i - 1]);
        assert(cs[i].len() == cs[i - 1].len());
        assert forall|q: int| 0 <= q < x.len() implies (#[trigger] x[q] as nat) < pow2(bpp as nat) by {
            assert(x[q] == xor_seq(cs[i], cs[i - 1])[q]);
        }
        ext_rle_roundtrip(x, bpp);
        let y = xor_seq(x, cs[i - 1]);
        assert forall|q: int| 0 <= q < y.len() implies #[trigger] y[q] == cs[i][q] by {
            let a = cs[i][q];
            let b = cs[i - 1][q];
            assert((a ^ b) ^ b == a) by (bit_vector);
        }
        assert(y =~= cs[i]);
    }
}

/// Type 1 data of a frame reads back: it starts with the frame's own box,
/// and when the box is not empty the rest decodes to the prepared crop of
/// the frame to that box, when its values fit in `bpp` bits.
pub proof fn t1_data_restores(f: Seq<u8>, fw: u32, fh: u32, bpp: u8, pal: Option<Seq<u8>>)
    requires
        1 <= bpp <= 8,
        forall|q: int|
            0 <= q < prepare(crop_of(f, fw, frame_bbox_spec(f, fw, fh)), bpp, pal).len() ==> (#[trigger] prepare(
                crop_of(f, fw, frame_bbox_spec(f, fw, fh)),
                bpp,
                pal,
            )[q] as nat) < pow2(bpp as nat),
    ensures
        ({
            let bb = frame_bbox_spec(f, fw, fh);
            let d = t1_data(f, fw, fh, bpp, pal);
            &&& bb.2 == 0 || bb.3 == 0 ==> d == seq![0u8, 0u8, 0u8, 0u8]
            &&& bb.2 != 0 && bb.3 != 0 ==> d.take(4) == seq![bb.0, bb.1, bb.2, bb.3]
                && ext_decode(d.skip(4), bpp) == prepare(crop_of(f, fw, bb), bpp, pal)
        }),
{
    let bb = frame_bbox_spec(f, fw, fh);
    if bb.2 != 0 && bb.3 != 0 {
        let c = prepare(crop_of(f, fw, bb), bpp, pal);
        let d = t1_data(f, fw, fh, bpp, pal);
        assert(d.take(4) =~= seq![bb.0, bb.1, bb.2, bb.3]);
        assert(d.skip(4) =~= ext_runs(c, bpp));
        ext_rle_roundtrip(c, bpp);
    }
}

/// The `w` x `h` image of `n` pixels read back from a type 3 code: unpacked
/// bits at 1 bpp or extended-RLE decoded otherwise, then, with row delta,
/// each row XORed from the top with the restored row above.
pub open spec fn t3_read(data: Seq<u8>, bpp: u8, w: nat, h: nat, rowdelta: bool, n: nat) -> Seq<u8> {
    let px = if bpp == 1 {
        Seq::new(n, |i: int| unpacked_bit(data, i))
    } else {
        ext_decode(data, bpp)
    };
    if rowdelta {
        Seq::new(px.len(), |i: int| row_undelta_at(px, w, h, i))
    } else {
        px
    }
}

/// A type 3 code reads back as the image, when the values it stores (after
/// the row delta, if any) fit in `bpp` bits.
pub proof fn t3_code_roundtrip(p: Seq<u8>, bpp: u8, w: nat, h: nat, rowdelta: bool)
    requires
        1 <= bpp <= 8,
        forall|i: int|
            0 <= i < p.len() ==> (#[trigger] t3_stored(p, w, h, rowdelta)[i] as nat) < pow2(bpp as nat),
    ensures
        t3_read(t3_code(p, bpp, w, h, rowdelta), bpp, w, h, rowdelta, p.len()) == p,
{
    let px = t3_stored(p, w, h, rowdelta);
    assert(px.len() == p.len());
    let data = t3_code(p, bpp, w, h, rowdelta);
    let back = if bpp == 1 { Seq::new(p.len(), |i: int| unpacked_bit(data, i)) } else { ext_decode(data, bpp) };
    if bpp == 1 {
        vstd::arithmetic::power2::lemma2_to64();
        assert forall|i: int| 0 <= i < px.len() implies px[i] <= 1 by {
            assert((px[i] as nat) < pow2(1));
        }
        pack_bits_roundtrip(px);
        assert forall|i: int| 0 <= i < px.len() implies #[trigger] back[i] == px[i] by {
            assert(unpacked_bit(trim_trailing_zeros(packed_bytes(px)), i) == px[i]);
        }
        assert(back =~= px);
    } else {
        ext_rle_roundtrip(px, bpp);
    }
    if rowdelta {
        row_delta_roundtrip(p, w, h);
    }
}

proof fn lemma_t3_pick_shape(cs: Seq<Seq<u8>>, i: int, bpp: u8, w: nat, h: nat, rowdelta: bool, limit: nat)
    requires
        limit <= 255,
    ensures
        ({
            let (r, e) = t3_pick(cs, i, bpp, w, h, rowdelta, limit);
            ||| r == 255 && e == t3_code(cs[i], bpp, w, h, rowdelta)
            ||| r < limit && e == t3_code(xor_seq(cs[i], cs[r as int]), bpp, w, h, rowdelta)
        }),
    decreases limit,
{
    if limit > 0 {
        lemma_t3_pick_shape(cs, i, bpp, w, h, rowdelta, (limit - 1) as nat);
    }
}

/// The image type 3 codes for frame `i`: the frame's prepared crop, or its
/// XOR with the crop of the frame it references.
pub open spec fn t3_coded(frames: Seq<Vec<u8>>, fw: u32, fh: u32, bpp: u8, pal: Option<Seq<u8>>, rowdelta: bool, i: int) -> Seq<u8> {
    let cs = union_frames(frames, fw, fh, bpp, pal);
    let r = t3_refs(frames, fw, fh, bpp, pal, rowdelta)[i];
    if r == 255 {
        cs[i]
    } else {
        xor_seq(cs[i], cs[r as int])
    }
}

/// Type 3 data of a frame reads back: it reads as the image coded for the
/// frame, which is the frame's prepared crop, or, XORed with the crop of the
/// earlier frame it references, gives it; when the values stored (after the
/// row delta, if any) fit in `bpp` bits.
pub proof fn t3_data_restores(frames: Seq<Vec<u8>>, fw: u32, fh: u32, bpp: u8, pal: Option<Seq<u8>>, rowdelta: bool, i: int)
    requires
        1 <= bpp <= 8,
        0 <= i < frames.len(),
        i <= 255,
        forall|q: int|
            0 <= q < t3_coded(frames, fw, fh, bpp, pal, rowdelta, i).len() ==> (#[trigger] t3_stored(
                t3_coded(frames, fw, fh, bpp, pal, rowdelta, i),
                bbox_spec(frames, fw, fh).2 as nat,
                bbox_spec(frames, fw, fh).3 as nat,
                rowdelta,
            )[q] as nat) < pow2(bpp as nat),
    ensures
        ({
            let b = bbox_spec(frames, fw, fh);
            let cs = union_frames(frames, fw, fh, bpp, pal);
            let r = t3_refs(frames, fw, fh, bpp, pal, rowdelta)[i];
            let coded = t3_coded(frames, fw, fh, bpp, pal, rowdelta, i);
            &&& t3_read(t3_datas(frames, fw, fh, bpp, pal, rowdelta)[i], bpp, b.2 as nat, b.3 as nat, rowdelta, coded.len())
                == coded
            &&& r == 255 ==> coded == cs[i]
            &&& r != 255 ==> r < i && xor_seq(coded, cs[r as int]) == cs[i]
        }),
{
    let b = bbox_spec(frames, fw, fh);
    let w = b.2 as nat;
    let h = b.3 as nat;
    let cs = union_frames(frames, fw, fh, bpp, pal);
    lemma_union_frames_len(frames, fw, fh, bpp, pal);
    lemma_t3_pick_shape(cs, i, bpp, w, h, rowdelta, i as nat);
    let ch = t3_choices(frames, fw, fh, bpp, pal, rowdelta);
    assert(ch[i] == t3_pick(cs, i, bpp, w, h, rowdelta, i as nat));
    let r = ch[i].0;
    assert(t3_refs(frames, fw, fh, bpp, pal, rowdelta)[i] == r);
    let coded = t3_coded(frames, fw, fh, bpp, pal, rowdelta, i);
    assert(t3_datas(frames, fw, fh, bpp, pal, rowdelta)[i] == t3_code(coded, bpp, w, h, rowdelta));
    t3_code_roundtrip(coded, bpp, w, h, rowdelta);
    if r != 255 {
        let y = xor_seq(coded, cs[r as int]);
        assert(cs[r as int].len() == cs[i].len());
        assert forall|q: int| 0 <= q < y.len() implies #[trigger] y[q] == cs[i][q] by {
            let a = cs[i][q];
            let c = cs[r as int][q];
            assert((a ^ c) ^ c == a) by (bit_vector);
        }
        assert(y =~= cs[i]);
    }
}

proof fn lemma_nearest_key_range(cs: Seq<Seq<u8>>, keys: Seq<usize>, i: int, m: nat)
    requires
        m >= 1,
    ensures
        nearest_key(cs, keys, i, m) < m,
    decreases m,
{
    if m > 1 {
        lemma_nearest_key_range(cs, keys, i, (m - 1) as nat);
    }
}

/// A type 0 key frame code decodes to the key frame's prepared crop, when
/// its values fit in `bpp` bits.
pub proof fn t0_key_restores(frames: Seq<Vec<u8>>, fw: u32, fh: u32, bpp: u8, pal: Option<Seq<u8>>, keys: Seq<usize>, j: int)
    requires
        1 <= bpp <= 8,
        0 <= j < keys.len(),
        forall|q: int|
            0 <= q < union_frames(frames, fw, fh, bpp, pal)[keys[j] as int].len() ==> (#[trigger] union_frames(
                frames,
                fw,
                fh,
                bpp,
                pal,
            )[keys[j] as int][q] as nat) < pow2(bpp as nat),
    ensures
        ext_decode(key_codes(union_frames(frames, fw, fh, bpp, pal), keys, bpp)[j], bpp) == union_frames(
            frames,
            fw,
            fh,
            bpp,
            pal,
        )[keys[j] as int],
{
    ext_rle_roundtrip(union_frames(frames, fw, fh, bpp, pal)[keys[j] as int], bpp);
}

/// A type 0 frame delta reads back: the key byte of frame `i` names one of
/// the key frames, and applying the frame's delta to that key frame's
/// prepared crop gives the frame's; when the crops are shorter than 65536
/// and the pixels that differ from the key are colours below 16.
pub proof fn t0_delta_restores(frames: Seq<Vec<u8>>, fw: u32, fh: u32, bpp: u8, pal: Option<Seq<u8>>, keys: Seq<usize>, i: int)
    requires
        0 <= i < frames.len(),
        keys.len() >= 1,
        forall|j: int| 0 <= j < keys.len() ==> #[trigger] keys[j] < frames.len(),
        union_frames(frames, fw, fh, bpp, pal)[i].len() < 65536,
        forall|q: int|
            0 <= q < union_frames(frames, fw, fh, bpp, pal)[i].len() && union_frames(frames, fw, fh, bpp, pal)[keys[nearest_key(
                union_frames(frames, fw, fh, bpp, pal),
                keys,
                i,
                keys.len(),
            ) as int] as int][q] != #[trigger] union_frames(frames, fw, fh, bpp, pal)[i][q] ==> union_frames(
                frames,
                fw,
                fh,
                bpp,
                pal,
            )[i][q] < 16,
    ensures
        ({
            let cs = union_frames(frames, fw, fh, bpp, pal);
            let k = nearest_key(cs, keys, i, keys.len());
            &&& k < keys.len()
            &&& apply_changes(cs[keys[k as int] as int], read_delta(key_deltas(cs, keys)[i])) == cs[i]
        }),
{
    let cs = union_frames(frames, fw, fh, bpp, pal);
    lemma_union_frames_len(frames, fw, fh, bpp, pal);
    let k = nearest_key(cs, keys, i, keys.len());
    lemma_nearest_key_range(cs, keys, i, keys.len());
    let base = cs[keys[k as int] as int];
    assert(keys[k as int] < frames.len());
    assert(base.len() == cs[i].len());
    delta_roundtrip(base, cs[i]);
}

/// Type 3's choice for a frame is the first shortest option: its code is no
/// longer than coding the frame alone or against any earlier frame tried; it
/// takes a reference only when that is strictly shorter than coding alone,
/// and then to the lowest frame reaching that length.
pub proof fn t3_pick_first_shortest(cs: Seq<Seq<u8>>, i: int, bpp: u8, w: nat, h: nat, rowdelta: bool, limit: nat)
    requires
        limit <= 255,
    ensures
        ({
            let p = t3_pick(cs, i, bpp, w, h, rowdelta, limit);
            &&& p.0 == 255 ==> p.1 == t3_code(cs[i], bpp, w, h, rowdelta)
            &&& p.0 != 255 ==> p.1 == t3_code(xor_seq(cs[i], cs[p.0 as int]), bpp, w, h, rowdelta)
            &&& p.1.len() <= t3_code(cs[i], bpp, w, h, rowdelta).len()
            &&& forall|k: int| 0 <= k < limit ==> p.1.len() <= #[trigger] t3_code(xor_seq(cs[i], cs[k]), bpp, w, h, rowdelta).len()
            &&& p.0 != 255 ==> p.0 < limit && p.1.len() < t3_code(cs[i], bpp, w, h, rowdelta).len()
            &&& p.0 != 255 ==> forall|k: int| 0 <= k < p.0 ==> p.1.len() < #[trigger] t3_code(xor_seq(cs[i], cs[k]), bpp, w, h, rowdelta).len()
        }),
    decreases limit,
{
    lemma_t3_pick_shape(cs, i, bpp, w, h, rowdelta, limit);
    if limit > 0 {
        t3_pick_first_shortest(cs, i, bpp, w, h, rowdelta, (limit - 1) as nat);
    }
}

/// The key frame a type 0 frame is coded against changes the fewest pixels,
/// the earliest such key on a tie.
pub proof fn nearest_key_first_fewest(cs: Seq<Seq<u8>>, keys: Seq<usize>, i: int, m: nat)
    requires
        m >= 1,
    ensures
        ({
            let k = nearest_key(cs, keys, i, m);
            let ch = |j: int| changed_pixels(cs[keys[j] as int], cs[i]).len();
            &&& k < m
            &&& forall|j: int| 0 <= j < m ==> ch(k as int) <= #[trigger] changed_pixels(cs[keys[j] as int], cs[i]).len()
            &&& forall|j: int| 0 <= j < k ==> ch(k as int) < #[trigger] changed_pixels(cs[keys[j] as int], cs[i]).len()
        }),
    decreases m,
{
    if m > 1 {
        nearest_key_first_fewest(cs, keys, i, (m - 1) as nat);
    }
}

/// Type 0 keeps the first shortest of the candidate blocks: no earlier
/// candidate is as short, and no candidate is shorter.
pub proof fn t0_best_first_shortest(cs: Seq<Seq<u8>>, b: (u8, u8, u8, u8), bpp: u8, pal: Option<Seq<u8>>, cands: Seq<Seq<usize>>, m: nat)
    requires
        m >= 1,
    ensures
        ({
            let (blk, k) = t0_best(cs, b, bpp, pal, cands, m);
            &&& k < m
            &&& blk == t0_candidate_block(cs, b, bpp, pal, cands[k as int])
            &&& forall|c: int| 0 <= c < m ==> blk.len() <= #[trigger] t0_candidate_block(cs, b, bpp, pal, cands[c]).len()
            &&& forall|c: int| 0 <= c < k ==> blk.len() < #[trigger] t0_candidate_block(cs, b, bpp, pal, cands[c]).len()
        }),
    decreases m,
{
    if m > 1 {
        t0_best_first_shortest(cs, b, bpp, pal, cands, (m - 1) as nat);
    }
}

} // verus!
