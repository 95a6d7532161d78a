//! Frame helpers: colour matching, bounding boxes, cropping, palettes.

use vstd::prelude::*;
use vstd::arithmetic::power2::pow2;
use crate::config::{TRANS, P8_COLORS, p8_rgb, p8_palette_rgb};
use crate::rle::changed_pixels;

verus! {

/// Squared RGB distance from `(r, g, b)` to PICO-8 colour `i`.
pub open spec fn p8_dist(r: u8, g: u8, b: u8, i: int) -> int {
    let (pr, pg, pb) = p8_rgb(i);
    (r - pr) * (r - pr) + (g - pg) * (g - pg) + (b - pb) * (b - pb)
}

/// `c` is the PICO-8 colour nearest to `(r, g, b)` other than the transparent
/// one, the lowest such index on a tie.
pub open spec fn is_nearest_p8(r: u8, g: u8, b: u8, c: u8) -> bool {
    &&& c < 16
    &&& c != TRANS
    &&& forall|j: int| 0 <= j < 16 && j != TRANS ==> p8_dist(r, g, b, j) >= p8_dist(r, g, b, c as int)
    &&& forall|j: int| 0 <= j < c && j != TRANS ==> p8_dist(r, g, b, j) > p8_dist(r, g, b, c as int)
}

/// The PICO-8 colour nearest to `(r, g, b)` (see `is_nearest_p8`).
pub open spec fn nearest_p8_spec(r: u8, g: u8, b: u8) -> u8 {
    choose|c: u8| is_nearest_p8(r, g, b, c)
}

/// At most one colour is the nearest, so `nearest_p8_spec` names it.
pub proof fn lemma_nearest_p8_unique(r: u8, g: u8, b: u8, c: u8)
    requires
        is_nearest_p8(r, g, b, c),
    ensures
        nearest_p8_spec(r, g, b) == c,
{
    let d = nearest_p8_spec(r, g, b);
    assert(is_nearest_p8(r, g, b, d));
    if d < c {
        assert(p8_dist(r, g, b, d as int) > p8_dist(r, g, b, c as int));
    } else if c < d {
        assert(p8_dist(r, g, b, c as int) > p8_dist(r, g, b, d as int));
    }
}

/// Find nearest PICO-8 color (excluding transparent).
pub fn nearest_p8(r: u8, g: u8, b: u8) -> (best: u8)
    ensures
        best < 16,
        best != TRANS,
        forall|j: int| 0 <= j < 16 && j != TRANS ==> p8_dist(r, g, b, j) >= p8_dist(r, g, b, best as int),
        forall|j: int| 0 <= j < best && j != TRANS ==> p8_dist(r, g, b, j) > p8_dist(r, g, b, best as int),
        best == nearest_p8_spec(r, g, b),
{
    let mut best_i: u8 = 0;
    let mut best_d: u32 = u32::MAX;
    let mut i: usize = 0;
    while i < P8_COLORS
        invariant
            i <= 16,
            best_i < 16,
            i > 0 ==> best_i != TRANS && best_i < i && best_d as int == p8_dist(r, g, b, best_i as int),
            i == 0 ==> best_d == u32::MAX && best_i == 0,
            forall|j: int| 0 <= j < i && j != TRANS ==> p8_dist(r, g, b, j) >= best_d,
            forall|j: int| 0 <= j < best_i && j != TRANS ==> p8_dist(r, g, b, j) > best_d,
        decreases 16 - i,
    {
        if i as u8 == TRANS {
            i += 1;
            continue;
        }
        let (pr, pg, pb) = p8_palette_rgb(i);
        let dr: i32 = r as i32 - pr as i32;
        let dg: i32 = g as i32 - pg as i32;
        let db: i32 = b as i32 - pb as i32;
        assert(0 <= dr * dr <= 65025 && 0 <= dg * dg <= 65025 && 0 <= db * db <= 65025) by (nonlinear_arith)
            requires
                -255 <= dr <= 255,
                -255 <= dg <= 255,
                -255 <= db <= 255,
        ;
        let d: u32 = (dr * dr + dg * dg + db * db) as u32;
        assert(d as int == p8_dist(r, g, b, i as int));
        if d < best_d {
            best_d = d;
            best_i = i as u8;
        }
        i += 1;
    }
    proof {
        lemma_nearest_p8_unique(r, g, b, best_i);
    }
    best_i
}

/// Count pixels that differ between two frames.
pub fn count_diffs(a: &[u8], b: &[u8]) -> (n: usize)
    ensures
        n == changed_pixels(a@, b@).len(),
{
    let n: usize = if a.len() <= b.len() { a.len() } else { b.len() };
    let mut count: usize = 0;
    let mut i: usize = 0;
    while i < n
        invariant
            i <= n,
            n <= a.len(),
            n <= b.len(),
            count <= i,
            count == crate::rle::diff_entries(a@, b@, i as nat).len(),
        decreases n - i,
    {
        if a[i] != b[i] {
            count += 1;
        }
        i += 1;
    }
    count
}

/// Byte `j` of a packed palette: entry `2j` in the high nibble, entry `2j + 1` (or 0) in the low one.
pub open spec fn palette_pair_byte(pal: Seq<u8>, j: int) -> u8 {
    let lo = pal[2 * j] & 0xFu8;
    let hi: u8 = if 2 * j + 1 < pal.len() { pal[2 * j + 1] & 0xFu8 } else { 0 };
    ((lo << 4u8) | hi) as u8
}

/// Palette entries packed two to a byte.
pub open spec fn packed_palette(pal: Seq<u8>) -> Seq<u8> {
    Seq::new(((pal.len() + 1) / 2) as nat, |j: int| palette_pair_byte(pal, j))
}

/// Pack palette entries as nibbles into bytes.
pub fn pack_palette(palette: &[u8]) -> (data: Vec<u8>)
    ensures
        data@ == packed_palette(palette@),
{
    let mut data: Vec<u8> = Vec::new();
    let mut i: usize = 0;
    while i < palette.len()
        invariant
            i <= palette.len(),
            i < palette.len() ==> i == 2 * data.len(),
            i == palette.len() ==> data.len() == (palette.len() + 1) / 2,
            forall|j: int| 0 <= j < data.len() ==> data[j] == #[trigger] palette_pair_byte(palette@, j),
        decreases palette.len() - i,
    {
        let lo = palette[i] & 0xF;
        let hi: u8 = if i + 1 < palette.len() { palette[i + 1] & 0xF } else { 0 };
        let ghost j = data.len();
        assert(palette_pair_byte(palette@, j as int) == (lo << 4u8) | hi);
        data.push((lo << 4u8) | hi);
        i = if palette.len() - i > 2 { i + 2 } else { palette.len() };
    }
    assert(data@ =~= Seq::new(((palette.len() + 1) / 2) as nat, |j: int| palette_pair_byte(palette@, j)));
    data
}

/// Index of the first entry of `pal`, from position `k` on, equal to `p`.
pub open spec fn first_index_from(pal: Seq<u8>, p: u8, k: nat) -> Option<nat>
    decreases pal.len() - k,
{
    if k >= pal.len() {
        None
    } else if pal[k as int] == p {
        Some(k)
    } else {
        first_index_from(pal, p, k + 1)
    }
}

/// Palette index of colour `p`: its first position in `pal`, or 0 when absent
/// (truncated to a byte).
pub open spec fn quantize_one(pal: Seq<u8>, p: u8) -> u8 {
    match first_index_from(pal, p, 0) {
        Some(k) => k as u8,
        None => 0,
    }
}

pub proof fn lemma_first_index_from(pal: Seq<u8>, p: u8, k: nat)
    ensures
        first_index_from(pal, p, k) matches Some(j) ==> k <= j < pal.len() && pal[j as int] == p,
        first_index_from(pal, p, k) is None ==> forall|j: int| k <= j < pal.len() ==> pal[j] != p,
    decreases pal.len() - k,
{
    if k < pal.len() && pal[k as int] != p {
        lemma_first_index_from(pal, p, k + 1);
    }
}

fn palette_position(palette: &[u8], p: u8) -> (r: Option<usize>)
    ensures
        match first_index_from(palette@, p, 0) {
            Some(k) => r == Some(k as usize),
            None => r is None,
        },
{
    let mut k: usize = 0;
    while k < palette.len()
        invariant
            k <= palette.len(),
            first_index_from(palette@, p, 0) == first_index_from(palette@, p, k as nat),
        decreases palette.len() - k,
    {
        if palette[k] == p {
            return Some(k);
        }
        k += 1;
    }
    None
}

/// Every pixel of `p` mapped to its palette index.
pub open spec fn quantized(p: Seq<u8>, pal: Seq<u8>) -> Seq<u8> {
    Seq::new(p.len(), |i: int| quantize_one(pal, p[i]))
}

/// Map P8 color indices to palette indices.
pub fn quantize_pixels(pixels: &[u8], palette: &[u8]) -> (out: Vec<u8>)
    ensures
        out@ == quantized(pixels@, palette@),
{
    let mut out: Vec<u8> = Vec::new();
    let plen: usize = palette.len();
    let mut i: usize = 0;
    while i < pixels.len()
        invariant
            plen == palette@.len(),
            i <= pixels.len(),
            out.len() == i,
            forall|j: int| 0 <= j < i ==> out[j] == #[trigger] quantize_one(palette@, pixels[j]),
        decreases pixels.len() - i,
    {
        let q: u8 = match palette_position(palette, pixels[i]) {
            Some(k) => #[verifier::truncate] (k as u8),
            None => 0,
        };
        proof {
            match first_index_from(palette@, pixels[i as int], 0) {
                Some(k) => {
                    lemma_first_index_from(palette@, pixels[i as int], 0);
                    assert((k as usize) as nat == k);
                },
                None => {},
            }
        }
        out.push(q);
        i += 1;
    }
    assert(out@ =~= Seq::new(pixels.len() as nat, |i: int| quantize_one(palette@, pixels[i])));
    out
}


/// Rows `0..k` of the `bw`-wide crop at `(bx, by)` of a `fw`-wide frame, row after row.
pub open spec fn crop_rows(f: Seq<u8>, fw: nat, bx: nat, by: nat, bw: nat, k: nat) -> Seq<u8>
    decreases k,
{
    if k == 0 {
        seq![]
    } else {
        let start = (by + k - 1) * fw + bx;
        crop_rows(f, fw, bx, by, bw, (k - 1) as nat) + Seq::new(bw, |i: int| f[start + i])
    }
}

/// Crop pixels from frame at (bx, by) with size (bw, bh).
pub fn crop_pixels(f: &[u8], fw: u32, bx: u8, by: u8, bw: u8, bh: u8) -> (cropped: Vec<u8>)
    requires
        by + bh <= 255,
        bh > 0 ==> bx + bw <= 255,
        bh > 0 && bw > 0 ==> (by + bh - 1) * fw + bx + bw <= f.len(),
    ensures
        cropped@ == crop_rows(f@, fw as nat, bx as nat, by as nat, bw as nat, bh as nat),
{
    let mut cropped: Vec<u8> = Vec::new();
    let y_end: u8 = by + bh;
    let mut y: u8 = by;
    while y < y_end
        invariant
            by <= y <= y_end,
            y_end == by + bh,
            bh > 0 ==> bx + bw <= 255,
            bh > 0 && bw > 0 ==> (by + bh - 1) * fw + bx + bw <= f.len(),
            cropped@ == crop_rows(f@, fw as nat, bx as nat, by as nat, bw as nat, (y - by) as nat),
        decreases y_end - y,
    {
        let x_end: u8 = bx + bw;
        let ghost start = y * fw + bx;
        let ghost before = cropped@;
        assert(cropped@ =~= before + Seq::new(0, |i: int| f@[start + i]));
        if bw > 0 {
            assert(y * fw + bx + bw <= (by + bh - 1) * fw + bx + bw) by (nonlinear_arith)
                requires
                    y <= by + bh - 1,
            ;
        }
        let mut x: u8 = bx;
        while x < x_end
            invariant
                bx <= x <= x_end,
                x_end == bx + bw,
                by <= y < y_end,
                start == y * fw + bx,
                bw > 0 ==> start + bw <= f.len(),
                cropped@ == before + Seq::new((x - bx) as nat, |i: int| f@[start + i]),
            decreases x_end - x,
        {
            let idx: usize = y as usize * fw as usize + x as usize;
            cropped.push(f[idx]);
            assert(cropped@ =~= before + Seq::new((x + 1 - bx) as nat, |i: int| f@[start + i]));
            x += 1;
        }
        assert((by + (y + 1 - by) - 1) * fw + bx == start);
        y += 1;
    }
    cropped
}

/// Running extent `(min_x, min_y, max_x, max_y)` after widening it with the
/// opaque pixels among the first `n` of `f`, pixel `i` sitting at `(i % fw, i / fw)`.
pub open spec fn frame_extent(f: Seq<u8>, fw: int, e: (int, int, int, int), n: nat) -> (int, int, int, int)
    decreases n,
{
    if n == 0 {
        e
    } else {
        let prev = frame_extent(f, fw, e, (n - 1) as nat);
        if f[n - 1] != TRANS {
            let x = (n - 1) % fw;
            let y = (n - 1) / fw;
            (
                if x < prev.0 { x } else { prev.0 },
                if y < prev.1 { y } else { prev.1 },
                if x > prev.2 { x } else { prev.2 },
                if y > prev.3 { y } else { prev.3 },
            )
        } else {
            prev
        }
    }
}

/// The extent widened by every frame of `frames[..k]` in turn.
pub open spec fn frames_extent(frames: Seq<Vec<u8>>, fw: int, e: (int, int, int, int), k: nat) -> (int, int, int, int)
    decreases k,
{
    if k == 0 {
        e
    } else {
        let prev = frames_extent(frames, fw, e, (k - 1) as nat);
        frame_extent(frames[k - 1]@, fw, prev, frames[k - 1]@.len())
    }
}

/// Whether `f` holds a non-transparent pixel.
pub open spec fn has_opaque(f: Seq<u8>) -> bool {
    exists|i: int| 0 <= i < f.len() && f[i] != TRANS
}

/// Bounds that keep an extent's i32 arithmetic exact for a `fw`-wide image.
pub open spec fn extent_ok(e: (i32, i32, i32, i32), fw: u32, fh: u32) -> bool {
    &&& -1 <= e.0 <= i32::MAX - 1
    &&& (fw > 0 ==> 0 <= e.0)
    &&& (fw == 0 ==> e.0 == -1)
    &&& -1 <= e.2
    &&& e.2 <= (if fw > 0 { fw - 1 } else { 0 })
    &&& -1 <= e.1
    &&& e.1 <= i32::MAX - 1
    &&& -1 <= e.3 <= i32::MAX - 2
}

proof fn lemma_extent_bbox_no_overflow(e: (i32, i32, i32, i32), fw: u32, fh: u32)
    requires
        extent_ok(e, fw, fh),
        fw <= i32::MAX,
    ensures
        i32::MIN <= e.2 - e.0 + 1 <= i32::MAX,
        i32::MIN <= e.3 - e.1 + 1 <= i32::MAX,
{
}

pub(crate) fn extend_extent(f: &[u8], fw: u32, fh: u32, e: (i32, i32, i32, i32)) -> (r: (i32, i32, i32, i32))
    requires
        fw <= i32::MAX,
        f.len() <= i32::MAX - 1,
        extent_ok(e, fw, fh),
        fw == 0 ==> !has_opaque(f@),
    ensures
        extent_ok(r, fw, fh),
        (r.0 as int, r.1 as int, r.2 as int, r.3 as int) == frame_extent(
            f@,
            fw as int,
            (e.0 as int, e.1 as int, e.2 as int, e.3 as int),
            f.len() as nat,
        ),
{
    let ghost e0 = (e.0 as int, e.1 as int, e.2 as int, e.3 as int);
    let (mut min_x, mut min_y, mut max_x, mut max_y) = e;
    let mut idx: usize = 0;
    while idx < f.len()
        invariant
            idx <= f.len(),
            fw <= i32::MAX,
            f.len() <= i32::MAX - 1,
            fw == 0 ==> !has_opaque(f@),
            extent_ok((min_x, min_y, max_x, max_y), fw, fh),
            (min_x as int, min_y as int, max_x as int, max_y as int) == frame_extent(f@, fw as int, e0, idx as nat),
        decreases f.len() - idx,
    {
        let c = f[idx];
        if c != TRANS {
            assert(fw > 0);
            let fwi: i32 = fw as i32;
            let ii: i32 = idx as i32;
            let x: i32 = ii % fwi;
            let y: i32 = ii / fwi;
            proof {
                vstd::arithmetic::div_mod::lemma_fundamental_div_mod(ii as int, fwi as int);
                vstd::arithmetic::div_mod::lemma_mod_pos_bound(ii as int, fwi as int);
                vstd::arithmetic::div_mod::lemma_div_pos_is_pos(ii as int, fwi as int);
            }
            assert(0 <= x < fw && 0 <= y <= ii) by (nonlinear_arith)
                requires
                    fwi > 0,
                    ii >= 0,
                    ii == fwi * y + x,
                    0 <= x < fwi,
                    y >= 0,
                    fwi == fw,
            ;
            if x < min_x {
                min_x = x;
            }
            if y < min_y {
                min_y = y;
            }
            if x > max_x {
                max_x = x;
            }
            if y > max_y {
                max_y = y;
            }
        }
        idx += 1;
    }
    (min_x, min_y, max_x, max_y)
}

/// The animation-wide bounding box `(x, y, w, h)` of the non-transparent
/// pixels of all frames: all zero when there is none, else the fields of
/// their extent truncated to bytes.
pub open spec fn bbox_spec(frames: Seq<Vec<u8>>, fw: u32, fh: u32) -> (u8, u8, u8, u8) {
    let e = frames_extent(frames, fw as int, (fw - 1, fh - 1, -1, -1), frames.len());
    if e.2 < 0 {
        (0, 0, 0, 0)
    } else {
        (e.0 as u8, e.1 as u8, (e.2 - e.0 + 1) as u8, (e.3 - e.1 + 1) as u8)
    }
}

/// Get animation-wide bounding box (all non-transparent pixels across all frames).
pub fn get_bbox(frames: &[Vec<u8>], fw: u32, fh: u32) -> (r: (u8, u8, u8, u8))
    requires
        fw <= i32::MAX,
        fh <= i32::MAX,
        forall|k: int| 0 <= k < frames.len() ==> #[trigger] frames[k].len() <= i32::MAX - 1,
        fw == 0 ==> forall|k: int| 0 <= k < frames.len() ==> !has_opaque(#[trigger] frames[k]@),
    ensures
        r == bbox_spec(frames@, fw, fh),
{
    let mut e: (i32, i32, i32, i32) = (fw as i32 - 1, fh as i32 - 1, -1, -1);
    let mut k: usize = 0;
    while k < frames.len()
        invariant
            k <= frames.len(),
            fw <= i32::MAX,
            fh <= i32::MAX,
            forall|j: int| 0 <= j < frames.len() ==> #[trigger] frames[j].len() <= i32::MAX - 1,
            fw == 0 ==> forall|j: int| 0 <= j < frames.len() ==> !has_opaque(#[trigger] frames[j]@),
            extent_ok(e, fw, fh),
            (e.0 as int, e.1 as int, e.2 as int, e.3 as int) == frames_extent(
                frames@,
                fw as int,
                (fw - 1, fh - 1, -1, -1),
                k as nat,
            ),
        decreases frames.len() - k,
    {
        assert(frames[k as int].len() <= i32::MAX - 1);
        assert(fw == 0 ==> !has_opaque(frames[k as int]@));
        e = extend_extent(frames[k].as_slice(), fw, fh, e);
        k += 1;
    }
    proof {
        lemma_extent_bbox_no_overflow(e, fw, fh);
    }
    let (min_x, min_y, max_x, max_y) = e;
    if max_x < 0 {
        return (0, 0, 0, 0);
    }
    (
        #[verifier::truncate] (min_x as u8),
        #[verifier::truncate] (min_y as u8),
        #[verifier::truncate] ((max_x - min_x + 1) as u8),
        #[verifier::truncate] ((max_y - min_y + 1) as u8),
    )
}

/// One frame's bounding box `(x, y, w, h)`: all zero when the frame is fully
/// transparent, else the fields of its extent truncated to bytes.
pub open spec fn frame_bbox_spec(f: Seq<u8>, fw: u32, fh: u32) -> (u8, u8, u8, u8) {
    let e = frame_extent(f, fw as int, (fw - 1, fh - 1, -1, -1), f.len());
    if e.2 < 0 {
        (0, 0, 0, 0)
    } else {
        (e.0 as u8, e.1 as u8, (e.2 - e.0 + 1) as u8, (e.3 - e.1 + 1) as u8)
    }
}

/// Get per-frame bounding box.
pub fn get_frame_bbox(f: &[u8], fw: u32, fh: u32) -> (r: (u8, u8, u8, u8))
    requires
        fw <= i32::MAX,
        fh <= i32::MAX,
        f.len() <= i32::MAX - 1,
        fw == 0 ==> !has_opaque(f@),
    ensures
        r == frame_bbox_spec(f@, fw, fh),
{
    let e = extend_extent(f, fw, fh, (fw as i32 - 1, fh as i32 - 1, -1, -1));
    let (min_x, min_y, max_x, max_y) = e;
    if max_x < 0 {
        return (0, 0, 0, 0);
    }
    proof {
        lemma_extent_bbox_no_overflow(e, fw, fh);
    }
    (
        #[verifier::truncate] (min_x as u8),
        #[verifier::truncate] (min_y as u8),
        #[verifier::truncate] ((max_x - min_x + 1) as u8),
        #[verifier::truncate] ((max_y - min_y + 1) as u8),
    )
}


/// Whether colour `c` appears in any of the frames.
pub open spec fn color_used(frames: Seq<Vec<u8>>, c: u8) -> bool {
    exists|k: int, i: int| 0 <= k < frames.len() && 0 <= i < frames[k]@.len() && #[trigger] frames[k]@[i] == c
}

/// Number of distinct colours below `m` that appear in the frames.
pub open spec fn num_used(frames: Seq<Vec<u8>>, m: nat) -> nat
    decreases m,
{
    if m == 0 {
        0
    } else {
        num_used(frames, (m - 1) as nat) + if color_used(frames, (m - 1) as u8) { 1nat } else { 0nat }
    }
}

/// Number of distinct colours in the frames.
pub open spec fn distinct_colors(frames: Seq<Vec<u8>>) -> nat {
    num_used(frames, 256)
}

/// Colour-presence table of the frames: entry `c` is true iff colour `c` appears.
/// It stands in for a hash set of colours and a sort: vstd specifies neither the
/// order in which a `HashSet` is walked nor slice sorting, and reading the table
/// in order gives the colours sorted.
fn colors_present(frames: &[Vec<u8>]) -> (used: Vec<bool>)
    ensures
        used.len() == 256,
        forall|c: int| 0 <= c < 256 ==> #[trigger] used[c] == color_used(frames@, c as u8),
{
    let mut used: Vec<bool> = vec![false; 256];
    let mut k: usize = 0;
    while k < frames.len()
        invariant
            k <= frames.len(),
            used.len() == 256,
            forall|c: int| 0 <= c < 256 ==> #[trigger] used[c] == exists|kk: int, i: int|
                0 <= kk < k && 0 <= i < frames@[kk]@.len() && #[trigger] frames@[kk]@[i] == c as u8,
        decreases frames.len() - k,
    {
        let f = &frames[k];
        let mut i: usize = 0;
        while i < f.len()
            invariant
                k < frames.len(),
                f == frames@[k as int],
                i <= f.len(),
                used.len() == 256,
                forall|c: int| 0 <= c < 256 ==> #[trigger] used[c] == ((exists|kk: int, j: int|
                    0 <= kk < k && 0 <= j < frames@[kk]@.len() && #[trigger] frames@[kk]@[j] == c as u8)
                    || exists|j: int| 0 <= j < i && #[trigger] f@[j] == c as u8),
            decreases f.len() - i,
        {
            let c = f[i];
            used.set(c as usize, true);
            assert forall|d: int| 0 <= d < 256 implies #[trigger] used[d] == ((exists|kk: int, j: int|
                0 <= kk < k && 0 <= j < frames@[kk]@.len() && #[trigger] frames@[kk]@[j] == d as u8)
                || exists|j: int| 0 <= j < i + 1 && #[trigger] f@[j] == d as u8) by {
                if d == c as int {
                    assert(f@[i as int] == d as u8);
                }
            }
            i += 1;
        }
        assert forall|c: int| 0 <= c < 256 implies #[trigger] used[c] == exists|kk: int, j: int|
            0 <= kk < k + 1 && 0 <= j < frames@[kk]@.len() && #[trigger] frames@[kk]@[j] == c as u8 by {
            if exists|kk: int, j: int| 0 <= kk < k + 1 && 0 <= j < frames@[kk]@.len() && #[trigger] frames@[kk]@[j] == c as u8 {
                let (kk, j) = choose|kk: int, j: int| 0 <= kk < k + 1 && 0 <= j < frames@[kk]@.len() && #[trigger] frames@[kk]@[j] == c as u8;
                if kk == k {
                    assert(f@[j] == c as u8);
                }
            }
        }
        k += 1;
    }
    used
}

fn count_present(used: &Vec<bool>, Ghost(frames): Ghost<Seq<Vec<u8>>>) -> (n: usize)
    requires
        used.len() == 256,
        forall|c: int| 0 <= c < 256 ==> #[trigger] used[c] == color_used(frames, c as u8),
    ensures
        n == distinct_colors(frames),
{
    let mut n: usize = 0;
    let mut c: usize = 0;
    while c < 256
        invariant
            c <= 256,
            n <= c,
            used.len() == 256,
            forall|d: int| 0 <= d < 256 ==> #[trigger] used[d] == color_used(frames, d as u8),
            n == num_used(frames, c as nat),
        decreases 256 - c,
    {
        if used[c] {
            n += 1;
        }
        c += 1;
    }
    n
}

/// Bits per pixel enough for `n` colours: 1 up to 2, 2 up to 4, 3 up to 8, else 4.
pub open spec fn bpp_for_colors(n: nat) -> u8 {
    if n <= 2 {
        1
    } else if n <= 4 {
        2
    } else if n <= 8 {
        3
    } else {
        4
    }
}

/// Determine minimum bpp needed to represent all colors in frames.
pub fn min_bpp_for_frames(frames: &[Vec<u8>]) -> (bpp: u8)
    ensures
        bpp == bpp_for_colors(distinct_colors(frames@)),
{
    let used = colors_present(frames);
    let n = count_present(&used, Ghost(frames@));
    if n <= 2 {
        1
    } else if n <= 4 {
        2
    } else if n <= 8 {
        3
    } else {
        4
    }
}

/// The colours below `m` other than `TRANS` that appear in the frames, ascending.
pub open spec fn sorted_used(frames: Seq<Vec<u8>>, m: nat) -> Seq<u8>
    decreases m,
{
    if m == 0 {
        seq![]
    } else {
        let c = (m - 1) as u8;
        sorted_used(frames, (m - 1) as nat) + if color_used(frames, c) && c != TRANS {
            seq![c]
        } else {
            seq![]
        }
    }
}

/// The colours of the frames in palette order: `TRANS` first when it appears,
/// then the others ascending.
pub open spec fn palette_colors(frames: Seq<Vec<u8>>) -> Seq<u8> {
    (if color_used(frames, TRANS) { seq![TRANS] } else { seq![] }) + sorted_used(frames, 256)
}

/// A palette of exactly `2^bpp` entries: the palette colours, cut to size or padded with 0.
pub open spec fn build_palette_spec(frames: Seq<Vec<u8>>, bpp: u8) -> Seq<u8> {
    let full = palette_colors(frames);
    let size = pow2(bpp as nat);
    if full.len() >= size {
        full.take(size as int)
    } else {
        full + Seq::new((size - full.len()) as nat, |i: int| 0u8)
    }
}

/// Build minimal palette of size 2^bpp. TRANS at index 0.
pub fn build_palette(frames: &[Vec<u8>], bpp: u8) -> (pal: Vec<u8>)
    requires
        (bpp as nat) < usize::BITS,
    ensures
        pal@ == build_palette_spec(frames@, bpp),
{
    let used = colors_present(frames);
    let mut pal: Vec<u8> = Vec::new();
    if used[TRANS as usize] {
        pal.push(TRANS);
    }
    let ghost head = pal@;
    let mut c: usize = 0;
    while c < 256
        invariant
            c <= 256,
            used.len() == 256,
            forall|d: int| 0 <= d < 256 ==> #[trigger] used[d] == color_used(frames@, d as u8),
            pal@ == head + sorted_used(frames@, c as nat),
            pal.len() <= c + 1,
        decreases 256 - c,
    {
        if used[c] && c != TRANS as usize {
            pal.push(c as u8);
        }
        assert(pal@ =~= head + sorted_used(frames@, (c + 1) as nat));
        c += 1;
    }
    assert(pal@ =~= palette_colors(frames@));
    let ghost full = pal@;
    proof {
        vstd::bits::lemma_usize_pow2_no_overflow(bpp as nat);
        vstd::bits::lemma_usize_shl_is_mul(1, bpp as usize);
    }
    let size: usize = 1usize << bpp;
    while pal.len() < size
        invariant
            pal.len() <= (if full.len() >= size { full.len() } else { size as nat }),
            pal@ == full + Seq::new((pal.len() - full.len()) as nat, |i: int| 0u8),
            pal.len() >= full.len(),
        decreases size - pal.len(),
    {
        pal.push(0);
        assert(pal@ =~= full + Seq::new((pal.len() - full.len()) as nat, |i: int| 0u8));
    }
    pal.truncate(size);
    assert(pal@ =~= build_palette_spec(frames@, bpp));
    pal
}

/// Whether a pixel of colour `c` counts toward the anchor: opaque and, when a
/// body colour is given, equal to it.
pub open spec fn anchor_pixel(c: u8, body_color: Option<u8>) -> bool {
    c != TRANS && match body_color {
        Some(bc) => c == bc,
        None => true,
    }
}

/// Least and greatest column `(i as u32) % fw` of the counted pixels among the first `n` of `f`.
pub open spec fn anchor_span(f: Seq<u8>, fw: nat, body_color: Option<u8>, n: nat) -> Option<(nat, nat)>
    decreases n,
{
    if n == 0 {
        None
    } else {
        let prev = anchor_span(f, fw, body_color, (n - 1) as nat);
        if anchor_pixel(f[n - 1], body_color) {
            let x = ((n - 1) as nat) % fw;
            match prev {
                None => Some((x, x)),
                Some((lo, hi)) => Some((if x < lo { x } else { lo }, if x > hi { x } else { hi })),
            }
        } else {
            prev
        }
    }
}

/// A frame's anchor: the midpoint of its counted columns, or `fw / 2` when it
/// has none, truncated to a byte.
pub open spec fn anchor_of(f: Seq<u8>, fw: nat, body_color: Option<u8>) -> u8 {
    match anchor_span(f, fw, body_color, f.len()) {
        None => (fw / 2) as u8,
        Some((lo, hi)) => ((lo + hi) / 2) as u8,
    }
}

fn frame_anchor(f: &Vec<u8>, fw: u32, body_color: Option<u8>) -> (a: u8)
    requires
        f.len() <= u32::MAX + 1,
        fw <= 0x8000_0000,
        fw == 0 ==> forall|i: int| 0 <= i < f.len() ==> !anchor_pixel(#[trigger] f@[i], body_color),
    ensures
        a == anchor_of(f@, fw as nat, body_color),
{
    let mut span: Option<(u32, u32)> = None;
    let mut idx: usize = 0;
    while idx < f.len()
        invariant
            idx <= f.len(),
            f.len() <= u32::MAX + 1,
            fw <= 0x8000_0000,
            fw == 0 ==> forall|i: int| 0 <= i < f.len() ==> !anchor_pixel(#[trigger] f@[i], body_color),
            match anchor_span(f@, fw as nat, body_color, idx as nat) {
                None => span is None,
                Some((lo, hi)) => span == Some((lo as u32, hi as u32)) && lo < fw && hi < fw,
            },
        decreases f.len() - idx,
    {
        let c = f[idx];
        let counted = c != TRANS && match body_color {
            Some(bc) => c == bc,
            None => true,
        };
        if counted {
            assert(anchor_pixel(f@[idx as int], body_color));
            let x: u32 = (idx as u32) % fw;
            span = match span {
                None => Some((x, x)),
                Some((lo, hi)) => Some((if x < lo { x } else { lo }, if x > hi { x } else { hi })),
            };
        }
        idx += 1;
    }
    match span {
        None => (fw / 2) as u8,
        Some((lo, hi)) => #[verifier::truncate] (((lo + hi) / 2) as u8),
    }
}

/// Compute per-frame horizontal centers of non-transparent body pixels.
pub fn compute_anchors(frames: &[Vec<u8>], fw: u32, body_color: Option<u8>) -> (anchors: Vec<u8>)
    requires
        fw <= 0x8000_0000,
        forall|k: int| 0 <= k < frames.len() ==> #[trigger] frames[k].len() <= u32::MAX + 1,
        fw == 0 ==> forall|k: int, i: int| 0 <= k < frames.len() && 0 <= i < frames[k].len()
            ==> !anchor_pixel(#[trigger] frames[k]@[i], body_color),
    ensures
        anchors@ == Seq::new(frames.len() as nat, |k: int| anchor_of(frames@[k]@, fw as nat, body_color)),
{
    let mut anchors: Vec<u8> = Vec::new();
    let mut k: usize = 0;
    while k < frames.len()
        invariant
            k <= frames.len(),
            anchors.len() == k,
            fw <= 0x8000_0000,
            forall|j: int| 0 <= j < frames.len() ==> #[trigger] frames[j].len() <= u32::MAX + 1,
            fw == 0 ==> forall|j: int, i: int| 0 <= j < frames.len() && 0 <= i < frames[j].len()
                ==> !anchor_pixel(#[trigger] frames[j]@[i], body_color),
            forall|j: int| 0 <= j < k ==> anchors[j] == #[trigger] anchor_of(frames@[j]@, fw as nat, body_color),
        decreases frames.len() - k,
    {
        assert(frames[k as int].len() <= u32::MAX + 1);
        let a = frame_anchor(&frames[k], fw, body_color);
        anchors.push(a);
        k += 1;
    }
    assert(anchors@ =~= Seq::new(frames.len() as nat, |k: int| anchor_of(frames@[k]@, fw as nat, body_color)));
    anchors
}

proof fn lemma_frame_extent_covers(f: Seq<u8>, fw: int, e: (int, int, int, int), n: nat, ymax: int)
    requires
        fw > 0,
        n <= f.len(),
        0 <= e.0,
        0 <= e.1,
        e.2 < fw,
        e.3 <= ymax,
        n <= fw * (ymax + 1),
    ensures
        ({
            let r = frame_extent(f, fw, e, n);
            &&& 0 <= r.0 <= e.0
            &&& 0 <= r.1 <= e.1
            &&& e.2 <= r.2 < fw
            &&& e.3 <= r.3 <= ymax
            &&& forall|i: int| 0 <= i < n && f[i] != TRANS ==> r.0 <= #[trigger] (i % fw) <= r.2 && r.1 <= i / fw <= r.3
        }),
    decreases n,
{
    if n > 0 {
        lemma_frame_extent_covers(f, fw, e, (n - 1) as nat, ymax);
        let i = n - 1;
        vstd::arithmetic::div_mod::lemma_mod_pos_bound(i, fw);
        vstd::arithmetic::div_mod::lemma_div_pos_is_pos(i, fw);
        lemma_row_below(i, fw, ymax + 1);
    }
}

proof fn lemma_frames_extent_covers(frames: Seq<Vec<u8>>, fw: int, e: (int, int, int, int), k: nat, ymax: int)
    requires
        fw > 0,
        k <= frames.len(),
        0 <= e.0,
        0 <= e.1,
        e.2 < fw,
        e.3 <= ymax,
        forall|j: int| 0 <= j < frames.len() ==> #[trigger] frames[j]@.len() <= fw * (ymax + 1),
    ensures
        ({
            let r = frames_extent(frames, fw, e, k);
            &&& 0 <= r.0 <= e.0
            &&& 0 <= r.1 <= e.1
            &&& e.2 <= r.2 < fw
            &&& e.3 <= r.3 <= ymax
            &&& forall|j: int, i: int| 0 <= j < k && 0 <= i < frames[j]@.len() && #[trigger] frames[j]@[i] != TRANS ==> r.0 <= i % fw <= r.2
                && r.1 <= i / fw <= r.3
        }),
    decreases k,
{
    if k > 0 {
        lemma_frames_extent_covers(frames, fw, e, (k - 1) as nat, ymax);
        let prev = frames_extent(frames, fw, e, (k - 1) as nat);
        let f = frames[k - 1]@;
        assert(f.len() <= fw * (ymax + 1));
        lemma_frame_extent_covers(f, fw, prev, f.len(), ymax);
    }
}

proof fn lemma_row_below(i: int, fw: int, fh: int)
    requires
        fw > 0,
        0 <= i < fw * fh,
    ensures
        i / fw <= fh - 1,
{
    vstd::arithmetic::div_mod::lemma_fundamental_div_mod(i, fw);
    vstd::arithmetic::div_mod::lemma_mod_pos_bound(i, fw);
    assert(i / fw <= fh - 1) by (nonlinear_arith)
        requires
            i == fw * (i / fw) + i % fw,
            0 <= i % fw,
            i < fw * fh,
            fw > 0,
    ;
}

/// The animation-wide box holds every non-transparent pixel of every frame
/// (for frames of at most 255 x 255 pixels); it is empty only when there is none.
pub proof fn bbox_covers_opaque(frames: Seq<Vec<u8>>, fw: u32, fh: u32, k: int, i: int)
    requires
        1 <= fw <= 255,
        fh <= 255,
        forall|j: int| 0 <= j < frames.len() ==> #[trigger] frames[j]@.len() <= fw * fh,
        0 <= k < frames.len(),
        0 <= i < frames[k]@.len(),
        frames[k]@[i] != TRANS,
    ensures
        ({
            let bb = bbox_spec(frames, fw, fh);
            &&& bb.0 <= i % (fw as int) < bb.0 + bb.2
            &&& bb.1 <= i / (fw as int) < bb.1 + bb.3
        }),
{
    let fwi = fw as int;
    assert(frames[k]@.len() <= fw * fh);
    assert(fh >= 1) by (nonlinear_arith)
        requires
            0 <= i < frames[k]@.len(),
            frames[k]@.len() <= fw * fh,
    ;
    assert forall|j: int| 0 <= j < frames.len() implies #[trigger] frames[j]@.len() <= fwi * ((fh - 1) + 1) by {
        assert(frames[j]@.len() <= fw * fh);
    }
    let e0 = (fwi - 1, fh - 1, -1int, -1int);
    lemma_frames_extent_covers(frames, fwi, e0, frames.len(), fh - 1);
    let e = frames_extent(frames, fwi, e0, frames.len());
    assert(frames[k]@[i] != TRANS);
    assert(e.0 <= i % fwi <= e.2 && e.1 <= i / fwi <= e.3);
}

/// A frame's own box holds every one of its non-transparent pixels (for
/// frames of at most 255 x 255 pixels).
pub proof fn frame_bbox_covers_opaque(f: Seq<u8>, fw: u32, fh: u32, i: int)
    requires
        1 <= fw <= 255,
        fh <= 255,
        f.len() <= fw * fh,
        0 <= i < f.len(),
        f[i] != TRANS,
    ensures
        ({
            let bb = frame_bbox_spec(f, fw, fh);
            &&& bb.0 <= i % (fw as int) < bb.0 + bb.2
            &&& bb.1 <= i / (fw as int) < bb.1 + bb.3
        }),
{
    let fwi = fw as int;
    assert(fh >= 1) by (nonlinear_arith)
        requires
            0 <= i < f.len(),
            f.len() <= fw * fh,
    ;
    let e0 = (fwi - 1, fh - 1, -1int, -1int);
    lemma_frame_extent_covers_from(f, fwi, e0, f.len(), fh - 1);
    let e = frame_extent(f, fwi, e0, f.len());
    assert(e.0 <= i % fwi <= e.2 && e.1 <= i / fwi <= e.3);
}

proof fn lemma_frame_extent_covers_from(f: Seq<u8>, fw: int, e: (int, int, int, int), n: nat, ymax: int)
    requires
        fw > 0,
        n <= f.len(),
        0 <= e.0 < fw,
        0 <= e.1 <= ymax,
        -1 <= e.2 < fw,
        -1 <= e.3 <= ymax,
        n <= fw * (ymax + 1),
    ensures
        ({
            let r = frame_extent(f, fw, e, n);
            &&& 0 <= r.0 <= e.0
            &&& 0 <= r.1 <= e.1
            &&& e.2 <= r.2 < fw
            &&& e.3 <= r.3 <= ymax
            &&& forall|i: int| 0 <= i < n && f[i] != TRANS ==> r.0 <= #[trigger] (i % fw) <= r.2 && r.1 <= i / fw <= r.3
        }),
    decreases n,
{
    if n > 0 {
        lemma_frame_extent_covers_from(f, fw, e, (n - 1) as nat, ymax);
        let i = n - 1;
        vstd::arithmetic::div_mod::lemma_mod_pos_bound(i, fw);
        vstd::arithmetic::div_mod::lemma_div_pos_is_pos(i, fw);
        lemma_row_below(i, fw, ymax + 1);
    }
}

proof fn lemma_crop_rows_at(f: Seq<u8>, fw: nat, bx: nat, by: nat, bw: nat, k: nat, r: nat, c: nat)
    requires
        r < k,
        c < bw,
    ensures
        crop_rows(f, fw, bx, by, bw, k).len() == k * bw,
        crop_rows(f, fw, bx, by, bw, k)[(r * bw + c) as int] == f[((by + r) * fw + bx + c) as int],
    decreases k,
{
    let prev = crop_rows(f, fw, bx, by, bw, (k - 1) as nat);
    if k > 1 {
        lemma_crop_rows_len_f(f, fw, bx, by, bw, (k - 1) as nat);
    } else {
        assert(prev.len() == 0);
    }
    assert(k * bw == (k - 1) * bw + bw) by (nonlinear_arith);
    if r < k - 1 {
        lemma_crop_rows_at(f, fw, bx, by, bw, (k - 1) as nat, r, c);
        assert(r * bw + c < (k - 1) * bw) by (nonlinear_arith)
            requires
                r < k - 1,
                c < bw,
        ;
    } else {
        assert(r * bw + c == (k - 1) * bw + c);
    }
}

proof fn lemma_crop_rows_len_f(f: Seq<u8>, fw: nat, bx: nat, by: nat, bw: nat, k: nat)
    ensures
        crop_rows(f, fw, bx, by, bw, k).len() == k * bw,
    decreases k,
{
    if k > 0 {
        lemma_crop_rows_len_f(f, fw, bx, by, bw, (k - 1) as nat);
        assert(k * bw == (k - 1) * bw + bw) by (nonlinear_arith);
    } else {
        assert(0 * bw == 0);
    }
}

/// Cropping keeps the pixels of the box: row `r`, column `c` of the crop is
/// the frame's pixel at `(bx + c, by + r)`.
pub proof fn crop_keeps_box(f: Seq<u8>, fw: nat, bx: nat, by: nat, bw: nat, bh: nat, r: nat, c: nat)
    requires
        r < bh,
        c < bw,
    ensures
        crop_rows(f, fw, bx, by, bw, bh)[(r * bw + c) as int] == f[((by + r) * fw + bx + c) as int],
{
    lemma_crop_rows_at(f, fw, bx, by, bw, bh, r, c);
}

proof fn lemma_sorted_used(frames: Seq<Vec<u8>>, m: nat)
    requires
        m <= 256,
    ensures
        forall|c: u8| c < m && c != TRANS && color_used(frames, c) ==> #[trigger] sorted_used(frames, m).contains(c),
        sorted_used(frames, m).len() + (if TRANS < m && color_used(frames, TRANS) { 1nat } else { 0nat }) == num_used(frames, m),
    decreases m,
{
    if m > 0 {
        lemma_sorted_used(frames, (m - 1) as nat);
        let prev = sorted_used(frames, (m - 1) as nat);
        let c0 = (m - 1) as u8;
        assert forall|c: u8| c < m && c != TRANS && color_used(frames, c) implies #[trigger] sorted_used(frames, m).contains(c) by {
            if c < m - 1 {
                assert(prev.contains(c));
                let j = choose|j: int| 0 <= j < prev.len() && prev[j] == c;
                assert(sorted_used(frames, m)[j] == c);
            } else {
                assert(c == c0);
                assert(sorted_used(frames, m)[prev.len() as int] == c);
            }
        }
    }
}

/// Building a palette and indexing pixels through it loses nothing when the
/// palette has room for every colour: each pixel's index points back at its
/// colour.
pub proof fn palette_roundtrip(frames: Seq<Vec<u8>>, bpp: u8, k: int, i: int)
    requires
        bpp <= 8,
        distinct_colors(frames) <= pow2(bpp as nat),
        0 <= k < frames.len(),
        0 <= i < frames[k]@.len(),
    ensures
        ({
            let pal = build_palette_spec(frames, bpp);
            let q = quantize_one(pal, frames[k]@[i]);
            q < pal.len() && pal[q as int] == frames[k]@[i]
        }),
{
    let c = frames[k]@[i];
    let pal = build_palette_spec(frames, bpp);
    let full = palette_colors(frames);
    let size = pow2(bpp as nat);
    assert(color_used(frames, c));
    lemma_sorted_used(frames, 256);
    assert(full.len() == distinct_colors(frames));
    assert(full.contains(c)) by {
        if c == TRANS {
            assert(full[0] == TRANS);
        } else {
            assert(sorted_used(frames, 256).contains(c));
            let j = choose|j: int| 0 <= j < sorted_used(frames, 256).len() && sorted_used(frames, 256)[j] == c;
            let off: int = if color_used(frames, TRANS) { 1 } else { 0 };
            assert(full[off + j] == c);
        }
    }
    let j = choose|j: int| 0 <= j < full.len() && full[j] == c;
    assert(pal[j] == c);
    vstd::arithmetic::power2::lemma2_to64();
    if bpp < 8 {
        vstd::arithmetic::power2::lemma_pow2_strictly_increases(bpp as nat, 8);
    }
    assert(pal.len() == size && size <= 256);
    lemma_first_index_from(pal, c, 0);
    match first_index_from(pal, c, 0) {
        Some(q) => {
            assert(q < 256);
        },
        None => {
            assert(pal[j] != c);
        },
    }
}

/// The bpp picked for some frames gives room for all their colours, when
/// there are at most 16.
pub proof fn min_bpp_fits(frames: Seq<Vec<u8>>)
    requires
        distinct_colors(frames) <= 16,
    ensures
        distinct_colors(frames) <= pow2(bpp_for_colors(distinct_colors(frames)) as nat),
{
    vstd::arithmetic::power2::lemma2_to64();
}

/// Entry `j` of a palette read back from its packed bytes: the high nibble
/// of byte `j / 2` for even `j`, the low nibble for odd `j`.
pub open spec fn unpacked_entry(data: Seq<u8>, j: int) -> u8 {
    if j % 2 == 0 {
        (data[j / 2] >> 4u8) & 0xFu8
    } else {
        data[j / 2] & 0xFu8
    }
}

proof fn lemma_nibble_pair(lo: u8, hi: u8)
    by (bit_vector)
    requires
        hi < 16,
    ensures
        ((((lo & 0xF) << 4u8) | hi) >> 4u8) & 0xF == lo & 0xF,
        (((lo & 0xF) << 4u8) | hi) & 0xF == hi,
{
}

/// Packing a palette two entries to a byte loses nothing of entries below 16:
/// each one reads back from its nibble.
pub proof fn palette_nibbles_roundtrip(pal: Seq<u8>, j: int)
    requires
        0 <= j < pal.len(),
        pal[j] < 16,
    ensures
        unpacked_entry(packed_palette(pal), j) == pal[j],
{
    let i = j / 2;
    let lo = pal[2 * i];
    let hi: u8 = if 2 * i + 1 < pal.len() { pal[2 * i + 1] & 0xFu8 } else { 0 };
    assert(hi < 16) by {
        if 2 * i + 1 < pal.len() {
            let x = pal[2 * i + 1];
            assert(x & 0xFu8 < 16) by (bit_vector);
        }
    }
    lemma_nibble_pair(lo, hi);
    assert(packed_palette(pal)[i] == palette_pair_byte(pal, i));
    let x = pal[j];
    assert(x < 16 ==> x & 0xFu8 == x) by (bit_vector);
}

proof fn lemma_frame_extent_clear(f: Seq<u8>, fw: int, e: (int, int, int, int), n: nat)
    requires
        n <= f.len(),
        !has_opaque(f),
    ensures
        frame_extent(f, fw, e, n) == e,
    decreases n,
{
    if n > 0 {
        lemma_frame_extent_clear(f, fw, e, (n - 1) as nat);
        assert(f[n - 1] == TRANS);
    }
}

proof fn lemma_frames_extent_clear(frames: Seq<Vec<u8>>, fw: int, e: (int, int, int, int), k: nat)
    requires
        k <= frames.len(),
        forall|j: int| 0 <= j < frames.len() ==> !has_opaque(#[trigger] frames[j]@),
    ensures
        frames_extent(frames, fw, e, k) == e,
    decreases k,
{
    if k > 0 {
        lemma_frames_extent_clear(frames, fw, e, (k - 1) as nat);
        assert(!has_opaque(frames[k - 1]@));
        lemma_frame_extent_clear(frames[k - 1]@, fw, e, frames[k - 1]@.len());
    }
}

/// Fully transparent frames have an empty animation-wide box.
pub proof fn bbox_empty_without_opaque(frames: Seq<Vec<u8>>, fw: u32, fh: u32)
    requires
        forall|j: int| 0 <= j < frames.len() ==> !has_opaque(#[trigger] frames[j]@),
    ensures
        bbox_spec(frames, fw, fh) == (0u8, 0u8, 0u8, 0u8),
{
    lemma_frames_extent_clear(frames, fw as int, (fw - 1, fh - 1, -1, -1), frames.len());
}

/// The bpp picked for some frames is the least that gives every colour an
/// index: at most 16 colours fit in `2^bpp` entries and would not fit in
/// `2^(bpp - 1)`; more than 16 colours get 4 bpp, the most a palette takes.
pub proof fn min_bpp_is_least(frames: Seq<Vec<u8>>)
    ensures
        ({
            let n = distinct_colors(frames);
            let b = bpp_for_colors(n);
            &&& 1 <= b <= 4
            &&& n <= 16 ==> n <= pow2(b as nat)
            &&& b > 1 ==> n > pow2((b - 1) as nat)
            &&& n > 16 ==> b == 4
        }),
{
    vstd::arithmetic::power2::lemma2_to64();
}

/// Whether pixel `c` counts towards a frame's anchor: not transparent, and of
/// the body colour when one is given.
pub open spec fn counted_for_anchor(c: u8, body_color: Option<u8>) -> bool {
    &&& c != TRANS
    &&& (body_color matches Some(bc) ==> c == bc)
}

proof fn lemma_anchor_span(f: Seq<u8>, fw: nat, body_color: Option<u8>, n: nat)
    requires
        n <= f.len(),
        fw > 0,
    ensures
        anchor_span(f, fw, body_color, n) is None <==> forall|i: int| 0 <= i < n ==> !counted_for_anchor(#[trigger] f[i], body_color),
        anchor_span(f, fw, body_color, n) matches Some((lo, hi)) ==> {
            &&& forall|i: int| 0 <= i < n && counted_for_anchor(#[trigger] f[i], body_color) ==> lo <= i % (fw as int) <= hi
            &&& exists|i: int| 0 <= i < n && counted_for_anchor(#[trigger] f[i], body_color) && i % (fw as int) == lo
            &&& exists|i: int| 0 <= i < n && counted_for_anchor(#[trigger] f[i], body_color) && i % (fw as int) == hi
        },
    decreases n,
{
    if n > 0 {
        lemma_anchor_span(f, fw, body_color, (n - 1) as nat);
        let j = n - 1;
        assert(anchor_pixel(f[j], body_color) == counted_for_anchor(f[j], body_color));
        let x = ((n - 1) as nat) % fw;
        assert(x == j % (fw as int));
        match anchor_span(f, fw, body_color, (n - 1) as nat) {
            None => {
                if counted_for_anchor(f[j], body_color) {
                    assert(counted_for_anchor(f[j], body_color) && j % (fw as int) == x);
                }
            },
            Some((lo, hi)) => {
                let a = choose|i: int| 0 <= i < n - 1 && counted_for_anchor(#[trigger] f[i], body_color) && i % (fw as int) == lo;
                let b = choose|i: int| 0 <= i < n - 1 && counted_for_anchor(#[trigger] f[i], body_color) && i % (fw as int) == hi;
                assert(counted_for_anchor(f[a], body_color));
                assert(counted_for_anchor(f[b], body_color));
            },
        }
    }
}

/// A frame's anchor is the middle of its counted columns: with `lo` and `hi`
/// the least and greatest column of a counted pixel (one that is not
/// transparent, and of the body colour when one is given), the anchor is
/// `(lo + hi) / 2`; with no counted pixel it is `fw / 2` (each truncated to
/// a byte).
#[verifier::spinoff_prover]
pub proof fn anchor_is_middle_of_counted(f: Seq<u8>, fw: nat, body_color: Option<u8>)
    requires
        fw > 0,
    ensures
        (forall|i: int| 0 <= i < f.len() ==> !counted_for_anchor(#[trigger] f[i], body_color)) ==> anchor_of(f, fw, body_color)
            == (fw / 2) as u8,
        (exists|i: int| 0 <= i < f.len() && counted_for_anchor(#[trigger] f[i], body_color)) ==> exists|a: int, b: int|
            #![trigger f[a], f[b]]
            {
                &&& 0 <= a < f.len() && counted_for_anchor(f[a], body_color)
                &&& 0 <= b < f.len() && counted_for_anchor(f[b], body_color)
                &&& (forall|i: int|
                    0 <= i < f.len() && counted_for_anchor(#[trigger] f[i], body_color) ==> a % (fw as int) <= i % (fw as int) <= b
                        % (fw as int))
                &&& anchor_of(f, fw, body_color) == ((a % (fw as int) + b % (fw as int)) / 2) as u8
            },
{
    lemma_anchor_span(f, fw, body_color, f.len());
    let fi = fw as int;
    match anchor_span(f, fw, body_color, f.len()) {
        None => {
            assert(forall|i: int| 0 <= i < f.len() ==> !counted_for_anchor(#[trigger] f[i], body_color));
        },
        Some((lo, hi)) => {
            let a = choose|i: int| 0 <= i < f.len() && counted_for_anchor(#[trigger] f[i], body_color) && i % fi == lo;
            let b = choose|i: int| 0 <= i < f.len() && counted_for_anchor(#[trigger] f[i], body_color) && i % fi == hi;
            assert(counted_for_anchor(f[a], body_color) && counted_for_anchor(f[b], body_color));
            assert(anchor_of(f, fw, body_color) == ((lo + hi) / 2) as u8);
            assert(forall|i: int|
                0 <= i < f.len() && counted_for_anchor(#[trigger] f[i], body_color) ==> a % fi <= i % fi <= b % fi);
            assert(anchor_of(f, fw, body_color) == ((a % fi + b % fi) / 2) as u8);
        },
    }
}

/// Index of the nearest non-transparent colour among the first `k` (the lowest
/// on a tie), -1 when there is none.
spec fn nearest_among(r: u8, g: u8, b: u8, k: nat) -> int
    decreases k,
{
    if k == 0 {
        -1
    } else {
        let p = nearest_among(r, g, b, (k - 1) as nat);
        let j = k - 1;
        if j == TRANS as int {
            p
        } else if p < 0 || p8_dist(r, g, b, j) < p8_dist(r, g, b, p) {
            j
        } else {
            p
        }
    }
}

proof fn lemma_nearest_among(r: u8, g: u8, b: u8, k: nat)
    requires
        k <= 16,
    ensures
        ({
            let p = nearest_among(r, g, b, k);
            &&& p < k
            &&& k > TRANS as int + 1 ==> p >= 0
            &&& p < 0 ==> forall|j: int| 0 <= j < k && j != TRANS as int ==> #[trigger] p8_dist(r, g, b, j) < 0
            &&& p >= 0 ==> p != TRANS as int
            &&& p >= 0 ==> forall|j: int| 0 <= j < k && j != TRANS as int ==> p8_dist(r, g, b, j) >= p8_dist(r, g, b, p)
            &&& p >= 0 ==> forall|j: int| 0 <= j < p && j != TRANS as int ==> p8_dist(r, g, b, j) > p8_dist(r, g, b, p)
        }),
    decreases k,
{
    assert forall|j: int| #[trigger] p8_dist(r, g, b, j) >= 0 by {
        let (pr, pg, pb) = p8_rgb(j);
        let dr: int = r - pr;
        let dg: int = g - pg;
        let db: int = b - pb;
        assert(dr * dr >= 0 && dg * dg >= 0 && db * db >= 0) by (nonlinear_arith);
    }
    if k > 0 {
        lemma_nearest_among(r, g, b, (k - 1) as nat);
    }
}

/// Every colour has a nearest non-transparent PICO-8 colour, so
/// `nearest_p8_spec` names one, and it is not the transparent index.
pub proof fn lemma_nearest_p8_exists(r: u8, g: u8, b: u8)
    ensures
        is_nearest_p8(r, g, b, nearest_p8_spec(r, g, b)),
        nearest_p8_spec(r, g, b) != TRANS,
        nearest_p8_spec(r, g, b) < 16,
{
    lemma_nearest_among(r, g, b, 16);
    let p = nearest_among(r, g, b, 16);
    assert(p >= 0);
    assert(is_nearest_p8(r, g, b, p as u8));
}

} // verus!
