//! Cutting frames and glyphs out of a decoded sprite sheet.
//!
//! A sheet is held as plain RGBA bytes. Opaque pixels become the nearest
//! PICO-8 colour, transparent ones the transparent colour.

use vstd::prelude::*;
use vstd::string::StringSliceAdditionalSpecFns;
use crate::config::TRANS;
use crate::frame::{nearest_p8, nearest_p8_spec, is_nearest_p8, lemma_nearest_p8_exists};

verus! {

/// A decoded image: `width` x `height` pixels of four bytes (red, green,
/// blue, alpha), row by row.
pub struct RgbaImage {
    pub width: u32,
    pub height: u32,
    pub data: Vec<u8>,
}

impl RgbaImage {
    /// The pixel bytes are exactly `width * height * 4`.
    pub open spec fn wf(&self) -> bool {
        self.data.len() == self.width * self.height * 4
    }

    /// Channel `c` (0 red, 1 green, 2 blue, 3 alpha) of pixel `(x, y)`.
    pub open spec fn channel(&self, x: int, y: int, c: int) -> u8 {
        self.data@[(y * self.width + x) * 4 + c]
    }

    /// The PICO-8 colour nearest to the RGB of pixel `(x, y)`.
    pub open spec fn p8_color(&self, x: int, y: int) -> u8 {
        nearest_p8_spec(self.channel(x, y, 0), self.channel(x, y, 1), self.channel(x, y, 2))
    }
}

fn channel_at(img: &RgbaImage, x: u32, y: u32, c: usize) -> (v: u8)
    requires
        img.wf(),
        x < img.width,
        y < img.height,
        c < 4,
    ensures
        v == img.channel(x as int, y as int, c as int),
{
    proof {
        lemma_pixel_index(img.width as int, img.height as int, x as int, y as int, c as int);
    }
    let idx = ((y as usize) * (img.width as usize) + (x as usize)) * 4 + c;
    img.data[idx]
}

proof fn lemma_pixel_index(w: int, h: int, x: int, y: int, c: int)
    requires
        0 <= x < w,
        0 <= y < h,
        0 <= c < 4,
    ensures
        0 <= (y * w + x) * 4 + c < w * h * 4,
        y * w + x < w * h,
{
    assert(y * w + x < w * h) by (nonlinear_arith)
        requires
            0 <= x < w,
            0 <= y < h,
    ;
    assert(0 <= (y * w + x) * 4 + c < w * h * 4) by (nonlinear_arith)
        requires
            0 <= x < w,
            0 <= y < h,
            0 <= c < 4,
            y * w + x < w * h,
    ;
}

fn p8_color_at(img: &RgbaImage, x: u32, y: u32) -> (v: u8)
    requires
        img.wf(),
        x < img.width,
        y < img.height,
    ensures
        v == img.p8_color(x as int, y as int),
{
    let r = channel_at(img, x, y, 0);
    let g = channel_at(img, x, y, 1);
    let b = channel_at(img, x, y, 2);
    nearest_p8(r, g, b)
}

/// Number of frames cut from a vertical strip: `nframes`, else as many whole
/// cells as the image is tall.
pub open spec fn strip_frame_count(img: RgbaImage, cell_h: u32, nframes: Option<u32>) -> nat {
    match nframes {
        Some(n) => n as nat,
        None => (img.height / cell_h) as nat,
    }
}

/// What cutting a vertical strip needs: a cell height to count frames by
/// when no count is given; for any frame, a cell size that fits a u32 and
/// frame tops that do; and, when cells are not empty, cells that lie inside
/// the image.
pub open spec fn strip_ok(img: RgbaImage, cell_w: u32, cell_h: u32, nframes: Option<u32>) -> bool {
    let nf = strip_frame_count(img, cell_h, nframes);
    &&& img.wf()
    &&& nframes is None ==> cell_h > 0
    &&& nf > 0 ==> cell_w * cell_h <= u32::MAX && (nf - 1) * cell_h <= u32::MAX
    &&& nf > 0 && cell_w > 0 && cell_h > 0 ==> cell_w <= img.width && nf * cell_h <= img.height
}

/// Pixel `k` (row by row) of frame `f` of a vertical strip: transparent where
/// alpha is 0, else the nearest colour.
pub open spec fn strip_pixel(img: RgbaImage, cell_w: u32, cell_h: u32, f: int, k: int) -> u8 {
    let x = k % (cell_w as int);
    let y = f * cell_h + k / (cell_w as int);
    if img.channel(x, y, 3) == 0 {
        TRANS
    } else {
        img.p8_color(x, y)
    }
}

/// The frames of a vertical strip of `cell_w` x `cell_h` cells.
pub open spec fn strip_frames(img: RgbaImage, cell_w: u32, cell_h: u32, nframes: Option<u32>) -> Seq<Seq<u8>> {
    Seq::new(
        strip_frame_count(img, cell_h, nframes),
        |f: int| Seq::new((cell_w * cell_h) as nat, |k: int| strip_pixel(img, cell_w, cell_h, f, k)),
    )
}

/// The contents of a list of frames.
pub open spec fn frame_list(v: Seq<Vec<u8>>) -> Seq<Seq<u8>> {
    Seq::new(v.len(), |k: int| v[k]@)
}

proof fn lemma_row_major(w: int, y: int, x: int)
    requires
        w > 0,
        0 <= x < w,
        y >= 0,
    ensures
        (y * w + x) % w == x,
        (y * w + x) / w == y,
{
    vstd::arithmetic::div_mod::lemma_fundamental_div_mod_converse(y * w + x, w, y, x);
}

/// Cut the frames of a vertical strip of `cell_w` x `cell_h` cells.
pub fn cut_frames(img: &RgbaImage, cell_w: u32, cell_h: u32, nframes: Option<u32>) -> (frames: Vec<Vec<u8>>)
    requires
        strip_ok(*img, cell_w, cell_h, nframes),
    ensures
        frame_list(frames@) == strip_frames(*img, cell_w, cell_h, nframes),
{
    let nf: u32 = match nframes {
        Some(n) => n,
        None => img.height / cell_h,
    };
    let ghost spec = strip_frames(*img, cell_w, cell_h, nframes);
    let mut frames: Vec<Vec<u8>> = Vec::new();
    let mut f: u32 = 0;
    while f < nf
        invariant
            f <= nf,
            nf == strip_frame_count(*img, cell_h, nframes),
            strip_ok(*img, cell_w, cell_h, nframes),
            spec == strip_frames(*img, cell_w, cell_h, nframes),
            frames.len() == f,
            forall|j: int| 0 <= j < f ==> (#[trigger] frames@[j])@ == spec[j],
        decreases nf - f,
    {
        assert(f * cell_h <= (nf - 1) * cell_h) by (nonlinear_arith)
            requires
                f < nf,
        ;
        let y0: u32 = f * cell_h;
        let mut pixels: Vec<u8> = Vec::new();
        let mut y: u32 = 0;
        while y < cell_h
            invariant
                y <= cell_h,
                f < nf,
                nf == strip_frame_count(*img, cell_h, nframes),
                strip_ok(*img, cell_w, cell_h, nframes),
                y0 == f * cell_h,
                pixels.len() == y * cell_w,
                forall|k: int| 0 <= k < pixels.len() ==> #[trigger] pixels@[k] == strip_pixel(*img, cell_w, cell_h, f as int, k),
            decreases cell_h - y,
        {
            let mut x: u32 = 0;
            while x < cell_w
                invariant
                    x <= cell_w,
                    y < cell_h,
                    f < nf,
                    nf == strip_frame_count(*img, cell_h, nframes),
                    strip_ok(*img, cell_w, cell_h, nframes),
                    y0 == f * cell_h,
                    pixels.len() == y * cell_w + x,
                    forall|k: int| 0 <= k < pixels.len() ==> #[trigger] pixels@[k] == strip_pixel(*img, cell_w, cell_h, f as int, k),
                decreases cell_w - x,
            {
                assert(y0 + y < img.height && y0 + y + 1 <= nf * cell_h) by (nonlinear_arith)
                    requires
                        f < nf,
                        y < cell_h,
                        y0 == f * cell_h,
                        nf * cell_h <= img.height,
                ;
                proof {
                    lemma_row_major(cell_w as int, y as int, x as int);
                }
                let a = channel_at(img, x, y0 + y, 3);
                if a == 0 {
                    pixels.push(TRANS);
                } else {
                    let c = p8_color_at(img, x, y0 + y);
                    pixels.push(c);
                }
                assert(y * cell_w + x + 1 == y * cell_w + (x + 1));
                x += 1;
            }
            assert((y + 1) * cell_w == y * cell_w + cell_w) by (nonlinear_arith);
            y += 1;
        }
        assert(cell_h * cell_w == cell_w * cell_h) by (nonlinear_arith);
        assert(pixels@ =~= spec[f as int]);
        frames.push(pixels);
        f += 1;
    }
    assert(frame_list(frames@) =~= spec);
    frames
}

/// Number of frames cut from a horizontal strip: `nframes`, else as many
/// whole source frames as the image is wide.
pub open spec fn horiz_frame_count(img: RgbaImage, src_fw: u32, nframes: Option<u32>) -> nat {
    match nframes {
        Some(n) => n as nat,
        None => (img.width / src_fw) as nat,
    }
}

/// Rows copied from each source frame: those that both frames have.
pub open spec fn horiz_rows(src_fh: u32, cell_h: u32) -> nat {
    if src_fh < cell_h { src_fh as nat } else { cell_h as nat }
}

/// Columns copied from each source frame: those that land inside the cell
/// once shifted right by `pad_x`.
pub open spec fn horiz_cols(src_fw: u32, cell_w: u32, pad_x: u32) -> nat {
    if pad_x < cell_w {
        if src_fw < cell_w - pad_x { src_fw as nat } else { (cell_w - pad_x) as nat }
    } else {
        0
    }
}

/// What cutting a horizontal strip needs: a source width to count frames by
/// when no count is given; for any frame, a cell size and frame offsets that
/// fit a u32, shifted columns that do too, and copied pixels that lie inside
/// the image.
pub open spec fn horiz_ok(img: RgbaImage, src_fw: u32, src_fh: u32, cell_w: u32, cell_h: u32, nframes: Option<u32>, pad_x: u32) -> bool {
    let nf = horiz_frame_count(img, src_fw, nframes);
    let rows = horiz_rows(src_fh, cell_h);
    let cols = horiz_cols(src_fw, cell_w, pad_x);
    &&& img.wf()
    &&& nframes is None ==> src_fw > 0
    &&& nf > 0 ==> cell_w * cell_h <= u32::MAX && (nf - 1) * src_fw <= u32::MAX
    &&& nf > 0 && rows > 0 && src_fw > 0 ==> src_fw - 1 + pad_x <= u32::MAX
    &&& nf > 0 && rows > 0 && cols > 0 ==> (nf - 1) * src_fw + cols <= img.width && rows <= img.height
}

/// Pixel `(c, r)` of cell `f` of a horizontal strip: the source pixel
/// `pad_x` columns to the left, transparent where its alpha is below 128 or
/// where nothing is copied.
pub open spec fn horiz_pixel(img: RgbaImage, src_fw: u32, src_fh: u32, cell_w: u32, cell_h: u32, pad_x: u32, f: int, r: int, c: int) -> u8 {
    if r < horiz_rows(src_fh, cell_h) && pad_x <= c < pad_x + horiz_cols(src_fw, cell_w, pad_x) {
        let sx = f * src_fw + c - pad_x;
        if img.channel(sx, r, 3) < 128 {
            TRANS
        } else {
            img.p8_color(sx, r)
        }
    } else {
        TRANS
    }
}

/// The cells of a horizontal strip of `src_fw` x `src_fh` frames, each copied
/// into a `cell_w` x `cell_h` cell shifted right by `pad_x`.
pub open spec fn horiz_frames(img: RgbaImage, src_fw: u32, src_fh: u32, cell_w: u32, cell_h: u32, nframes: Option<u32>, pad_x: u32) -> Seq<Seq<u8>> {
    Seq::new(
        horiz_frame_count(img, src_fw, nframes),
        |f: int| Seq::new(
            (cell_w * cell_h) as nat,
            |k: int| horiz_pixel(img, src_fw, src_fh, cell_w, cell_h, pad_x, f, k / (cell_w as int), k % (cell_w as int)),
        ),
    )
}

/// Cut the frames of a horizontal strip into cells, shifted right by `pad_x`.
pub fn cut_horiz_frames(
    img: &RgbaImage,
    src_fw: u32,
    src_fh: u32,
    cell_w: u32,
    cell_h: u32,
    nframes: Option<u32>,
    pad_x: u32,
) -> (frames: Vec<Vec<u8>>)
    requires
        horiz_ok(*img, src_fw, src_fh, cell_w, cell_h, nframes, pad_x),
    ensures
        frame_list(frames@) == horiz_frames(*img, src_fw, src_fh, cell_w, cell_h, nframes, pad_x),
{
    let nf: u32 = match nframes {
        Some(n) => n,
        None => img.width / src_fw,
    };
    let rows: u32 = if src_fh < cell_h { src_fh } else { cell_h };
    let ghost cols = horiz_cols(src_fw, cell_w, pad_x);
    let ghost spec = horiz_frames(*img, src_fw, src_fh, cell_w, cell_h, nframes, pad_x);
    let mut frames: Vec<Vec<u8>> = Vec::new();
    let mut f: u32 = 0;
    while f < nf
        invariant
            f <= nf,
            nf == horiz_frame_count(*img, src_fw, nframes),
            rows == horiz_rows(src_fh, cell_h),
            cols == horiz_cols(src_fw, cell_w, pad_x),
            horiz_ok(*img, src_fw, src_fh, cell_w, cell_h, nframes, pad_x),
            spec == horiz_frames(*img, src_fw, src_fh, cell_w, cell_h, nframes, pad_x),
            frames.len() == f,
            forall|j: int| 0 <= j < f ==> (#[trigger] frames@[j])@ == spec[j],
        decreases nf - f,
    {
        assert(f * src_fw <= (nf - 1) * src_fw) by (nonlinear_arith)
            requires
                f < nf,
        ;
        let x0: u32 = f * src_fw;
        let mut pixels: Vec<u8> = vec![TRANS; (cell_w * cell_h) as usize];
        assert forall|r: int, c: int| 0 <= r < cell_h && 0 <= c < cell_w implies #[trigger] pixels@[r * cell_w + c] == TRANS by {
            lemma_cell_index(cell_w as int, cell_h as int, r, c);
        }
        let mut y: u32 = 0;
        while y < rows
            invariant
                y <= rows,
                f < nf,
                nf == horiz_frame_count(*img, src_fw, nframes),
                rows == horiz_rows(src_fh, cell_h),
                cols == horiz_cols(src_fw, cell_w, pad_x),
                horiz_ok(*img, src_fw, src_fh, cell_w, cell_h, nframes, pad_x),
                x0 == f * src_fw,
                pixels.len() == cell_w * cell_h,
                forall|r: int, c: int| 0 <= r < cell_h && 0 <= c < cell_w ==> #[trigger] pixels@[r * cell_w + c] == if r < y {
                    horiz_pixel(*img, src_fw, src_fh, cell_w, cell_h, pad_x, f as int, r, c)
                } else {
                    TRANS
                },
            decreases rows - y,
        {
            let mut x: u32 = 0;
            while x < src_fw
                invariant
                    x <= src_fw,
                    y < rows,
                    f < nf,
                    nf == horiz_frame_count(*img, src_fw, nframes),
                    rows == horiz_rows(src_fh, cell_h),
                    cols == horiz_cols(src_fw, cell_w, pad_x),
                    horiz_ok(*img, src_fw, src_fh, cell_w, cell_h, nframes, pad_x),
                    x0 == f * src_fw,
                    pixels.len() == cell_w * cell_h,
                    forall|r: int, c: int| 0 <= r < cell_h && 0 <= c < cell_w ==> #[trigger] pixels@[r * cell_w + c] == if r < y
                        || (r == y && c < pad_x + x) {
                        horiz_pixel(*img, src_fw, src_fh, cell_w, cell_h, pad_x, f as int, r, c)
                    } else {
                        TRANS
                    },
                decreases src_fw - x,
            {
                let dx = x + pad_x;
                if dx < cell_w {
                    assert(x < cols);
                    assert(x0 + x < img.width) by (nonlinear_arith)
                        requires
                            f < nf,
                            x0 == f * src_fw,
                            x < cols,
                            (nf - 1) * src_fw + cols <= img.width,
                    ;
                    assert(y < img.height);
                    let a = channel_at(img, x0 + x, y, 3);
                    let v: u8 = if a < 128 {
                        TRANS
                    } else {
                        p8_color_at(img, x0 + x, y)
                    };
                    proof {
                        lemma_cell_index(cell_w as int, cell_h as int, y as int, dx as int);
                    }
                    let idx = (y * cell_w + dx) as usize;
                    let ghost before = pixels@;
                    pixels.set(idx, v);
                    assert forall|r: int, c: int| 0 <= r < cell_h && 0 <= c < cell_w implies #[trigger] pixels@[r * cell_w + c]
                        == if r < y || (r == y && c < pad_x + x + 1) {
                        horiz_pixel(*img, src_fw, src_fh, cell_w, cell_h, pad_x, f as int, r, c)
                    } else {
                        TRANS
                    } by {
                        lemma_cell_index(cell_w as int, cell_h as int, r, c);
                        lemma_cell_distinct(cell_w as int, r, c, y as int, dx as int);
                        if r != y || c != dx {
                            assert(pixels@[r * cell_w + c] == before[r * cell_w + c]);
                        }
                    }
                } else {
                    assert forall|r: int, c: int| 0 <= r < cell_h && 0 <= c < cell_w implies #[trigger] pixels@[r * cell_w + c]
                        == if r < y || (r == y && c < pad_x + x + 1) {
                        horiz_pixel(*img, src_fw, src_fh, cell_w, cell_h, pad_x, f as int, r, c)
                    } else {
                        TRANS
                    } by {}
                }
                x += 1;
            }
            assert forall|r: int, c: int| 0 <= r < cell_h && 0 <= c < cell_w implies #[trigger] pixels@[r * cell_w + c]
                == if r < y + 1 {
                horiz_pixel(*img, src_fw, src_fh, cell_w, cell_h, pad_x, f as int, r, c)
            } else {
                TRANS
            } by {}
            y += 1;
        }
        assert forall|k: int| 0 <= k < pixels.len() implies #[trigger] pixels@[k] == spec[f as int][k] by {
            lemma_cell_split(cell_w as int, cell_h as int, k);
            let r = k / (cell_w as int);
            let c = k % (cell_w as int);
            assert(pixels@[r * cell_w + c] == pixels@[k]);
        }
        assert(pixels@ =~= spec[f as int]);
        frames.push(pixels);
        f += 1;
    }
    assert(frame_list(frames@) =~= spec);
    frames
}

proof fn lemma_cell_index(w: int, h: int, r: int, c: int)
    requires
        0 <= r < h,
        0 <= c < w,
    ensures
        0 <= r * w + c < w * h,
{
    assert(0 <= r * w + c < w * h) by (nonlinear_arith)
        requires
            0 <= r < h,
            0 <= c < w,
    ;
}

proof fn lemma_cell_distinct(w: int, r1: int, c1: int, r2: int, c2: int)
    requires
        0 <= r1,
        0 <= c1 < w,
        0 <= r2,
        0 <= c2 < w,
    ensures
        (r1 * w + c1 == r2 * w + c2) <==> (r1 == r2 && c1 == c2),
{
    lemma_row_major(w, r1, c1);
    lemma_row_major(w, r2, c2);
}

proof fn lemma_cell_split(w: int, h: int, k: int)
    requires
        h >= 0,
        0 <= k < w * h,
    ensures
        w > 0,
        0 <= k / w < h,
        0 <= k % w < w,
        k == (k / w) * w + k % w,
{
    if w <= 0 {
        assert(w * h <= 0) by (nonlinear_arith)
            requires
                w <= 0,
                h >= 0,
        ;
    }
    vstd::arithmetic::div_mod::lemma_fundamental_div_mod(k, w);
    vstd::arithmetic::div_mod::lemma_mod_pos_bound(k, w);
    vstd::arithmetic::div_mod::lemma_div_pos_is_pos(k, w);
    assert(k / w < h) by (nonlinear_arith)
        requires
            w > 0,
            k == w * (k / w) + k % w,
            0 <= k % w,
            k < w * h,
    ;
    assert((k / w) * w == w * (k / w)) by (nonlinear_arith);
}

/// Number of characters in UTF-8 bytes: the bytes that start one.
pub open spec fn char_count(b: Seq<u8>) -> nat
    decreases b.len(),
{
    if b.len() == 0 {
        0
    } else {
        char_count(b.drop_last()) + if b.last() < 0x80 || b.last() >= 0xC0 { 1nat } else { 0nat }
    }
}

/// Number of glyphs of a font sheet for the characters with bytes `chars`.
pub open spec fn glyph_count(chars: Seq<u8>) -> u32 {
    char_count(chars) as u32
}

/// Whether pixel `(x, y)` is drawn in a font sheet: its red is at least `threshold`.
pub open spec fn font_bright(img: RgbaImage, x: int, y: int, threshold: u8) -> bool {
    img.channel(x, y, 0) >= threshold
}

/// The largest column of the first `k` pixels (row by row) of the glyph cell
/// at column `ox` that is drawn, 0 if none is.
pub open spec fn glyph_max_x(img: RgbaImage, ox: int, cell_w: int, threshold: u8, k: nat) -> int
    decreases k,
{
    if k == 0 {
        0
    } else {
        let prev = glyph_max_x(img, ox, cell_w, threshold, (k - 1) as nat);
        let x = (k - 1) % cell_w;
        let y = (k - 1) / cell_w;
        if font_bright(img, ox + x, y, threshold) && x > prev { x } else { prev }
    }
}

/// What cutting a font sheet needs: at least one character, a cell size that
/// fits a u32, and an advance for each glyph that does too.
pub open spec fn font_ok(img: RgbaImage, chars: Seq<u8>, threshold: u8) -> bool {
    let n = glyph_count(chars);
    let cell_w = img.width / n;
    &&& img.wf()
    &&& n >= 1
    &&& cell_w * img.height <= u32::MAX
    &&& forall|i: int| 0 <= i < n ==> #[trigger] glyph_max_x(img, i * cell_w, cell_w as int, threshold, (cell_w * img.height) as nat) + 2 <= u32::MAX
}

/// Glyph `i` of a font sheet: colour 7 where drawn, transparent elsewhere.
pub open spec fn font_glyph(img: RgbaImage, cell_w: u32, threshold: u8, i: int) -> Seq<u8> {
    Seq::new(
        (cell_w * img.height) as nat,
        |k: int| if font_bright(img, i * cell_w + k % (cell_w as int), k / (cell_w as int), threshold) { 7u8 } else { TRANS },
    )
}

/// The advance of glyph `i`: two past its last drawn column, at most 255.
pub open spec fn font_advance(img: RgbaImage, cell_w: u32, threshold: u8, i: int) -> u8 {
    let m = glyph_max_x(img, i * cell_w, cell_w as int, threshold, (cell_w * img.height) as nat) + 2;
    if m < 255 { m as u8 } else { 255u8 }
}

fn count_chars(chars: &str) -> (n: u32)
    ensures
        n == glyph_count(chars.spec_bytes()),
{
    let b = chars.as_bytes();
    let mut count: usize = 0;
    let mut i: usize = 0;
    while i < b.len()
        invariant
            i <= b.len(),
            b@ == chars.spec_bytes(),
            count <= i,
            count == char_count(b@.take(i as int)),
        decreases b.len() - i,
    {
        assert(b@.take(i + 1).drop_last() =~= b@.take(i as int));
        if b[i] < 0x80 || b[i] >= 0xC0 {
            count += 1;
        }
        i += 1;
    }
    assert(b@.take(b.len() as int) =~= b@);
    #[verifier::truncate] (count as u32)
}

/// Cut a font sheet into one glyph per character of `chars`; also gives the
/// cell size and each glyph's advance.
pub fn cut_font(img: &RgbaImage, chars: &str, threshold: u8) -> (res: (Vec<Vec<u8>>, u32, u32, Vec<u8>))
    requires
        font_ok(*img, chars.spec_bytes(), threshold),
    ensures
        res.1 == img.width / glyph_count(chars.spec_bytes()),
        res.2 == img.height,
        frame_list(res.0@) == Seq::new(glyph_count(chars.spec_bytes()) as nat, |i: int| font_glyph(*img, res.1, threshold, i)),
        res.3@ == Seq::new(glyph_count(chars.spec_bytes()) as nat, |i: int| font_advance(*img, res.1, threshold, i)),
{
    let n = count_chars(chars);
    let cell_w = img.width / n;
    let cell_h = img.height;
    let ghost t = chars.spec_bytes();
    let mut frames: Vec<Vec<u8>> = Vec::new();
    let mut advances: Vec<u8> = Vec::new();
    let mut i: u32 = 0;
    while i < n
        invariant
            i <= n,
            n == glyph_count(t),
            cell_w == img.width / n,
            cell_h == img.height,
            font_ok(*img, t, threshold),
            frames.len() == i,
            advances.len() == i,
            forall|j: int| 0 <= j < i ==> (#[trigger] frames@[j])@ == font_glyph(*img, cell_w, threshold, j),
            forall|j: int| 0 <= j < i ==> #[trigger] advances@[j] == font_advance(*img, cell_w, threshold, j),
        decreases n - i,
    {
        assert(i * cell_w + cell_w <= img.width) by (nonlinear_arith)
            requires
                i < n,
                cell_w == img.width / n,
                n >= 1,
        ;
        let ox: u32 = i * cell_w;
        let mut pixels: Vec<u8> = Vec::new();
        let mut max_x: u32 = 0;
        let mut y: u32 = 0;
        while y < cell_h
            invariant
                y <= cell_h,
                i < n,
                cell_h == img.height,
                img.wf(),
                ox == i * cell_w,
                ox + cell_w <= img.width,
                cell_w * cell_h <= u32::MAX,
                pixels.len() == y * cell_w,
                forall|k: int| 0 <= k < pixels.len() ==> #[trigger] pixels@[k] == font_glyph(*img, cell_w, threshold, i as int)[k],
                max_x == glyph_max_x(*img, ox as int, cell_w as int, threshold, pixels.len() as nat),
            decreases cell_h - y,
        {
            let mut x: u32 = 0;
            while x < cell_w
                invariant
                    x <= cell_w,
                    y < cell_h,
                    i < n,
                    cell_h == img.height,
                    img.wf(),
                    ox == i * cell_w,
                    ox + cell_w <= img.width,
                    cell_w * cell_h <= u32::MAX,
                    pixels.len() == y * cell_w + x,
                    forall|k: int| 0 <= k < pixels.len() ==> #[trigger] pixels@[k] == font_glyph(*img, cell_w, threshold, i as int)[k],
                    max_x == glyph_max_x(*img, ox as int, cell_w as int, threshold, pixels.len() as nat),
                decreases cell_w - x,
            {
                proof {
                    lemma_row_major(cell_w as int, y as int, x as int);
                    lemma_cell_index(cell_w as int, cell_h as int, y as int, x as int);
                }
                let red = channel_at(img, ox + x, y, 0);
                if red >= threshold {
                    pixels.push(7);
                    if x > max_x {
                        max_x = x;
                    }
                } else {
                    pixels.push(TRANS);
                }
                assert(y * cell_w + x + 1 == y * cell_w + (x + 1));
                x += 1;
            }
            assert((y + 1) * cell_w == y * cell_w + cell_w) by (nonlinear_arith);
            y += 1;
        }
        assert(cell_h * cell_w == cell_w * cell_h) by (nonlinear_arith);
        assert(pixels@ =~= font_glyph(*img, cell_w, threshold, i as int));
        assert(max_x + 2 <= u32::MAX) by {
            assert(glyph_max_x(*img, i * cell_w, cell_w as int, threshold, (cell_w * img.height) as nat) + 2 <= u32::MAX);
        }
        let m = max_x + 2;
        let adv: u8 = if m < 255 { m as u8 } else { 255 };
        frames.push(pixels);
        advances.push(adv);
        i += 1;
    }
    assert(frame_list(frames@) =~= Seq::new(n as nat, |i: int| font_glyph(*img, cell_w, threshold, i)));
    assert(advances@ =~= Seq::new(n as nat, |i: int| font_advance(*img, cell_w, threshold, i)));
    (frames, cell_w, cell_h, advances)
}

/// An extent `(min x, min y, max x, max y)` widened to take in `(x, y)`.
pub open spec fn widen(e: (int, int, int, int), x: int, y: int) -> (int, int, int, int) {
    (
        if x < e.0 { x } else { e.0 },
        if y < e.1 { y } else { e.1 },
        if x > e.2 { x } else { e.2 },
        if y > e.3 { y } else { e.3 },
    )
}

/// The extent `e` widened by the opaque pixels among the first `n` of row `y`
/// of the cell whose top is `y0`.
pub open spec fn scan_row(img: RgbaImage, y0: int, y: int, n: nat, e: (int, int, int, int)) -> (int, int, int, int)
    decreases n,
{
    if n == 0 {
        e
    } else {
        let p = scan_row(img, y0, y, (n - 1) as nat, e);
        if img.channel(n - 1, y0 + y, 3) > 0 { widen(p, n - 1, y) } else { p }
    }
}

/// The extent `e` widened by the opaque pixels of the first `m` rows (each
/// `w` wide) of the cell whose top is `y0`.
pub open spec fn scan_rows(img: RgbaImage, y0: int, w: nat, m: nat, e: (int, int, int, int)) -> (int, int, int, int)
    decreases m,
{
    if m == 0 {
        e
    } else {
        scan_row(img, y0, m - 1, w, scan_rows(img, y0, w, (m - 1) as nat, e))
    }
}

/// Extent of the opaque pixels of the `w` x `h` cell whose top is `y0`,
/// relative to the cell; its max x is negative when there are none.
pub open spec fn content_box(img: RgbaImage, y0: int, w: u32, h: u32) -> (int, int, int, int) {
    scan_rows(img, y0, w as nat, h as nat, (w as int, h as int, -1, -1))
}

/// Pixel `(dx, dy)` of the copied area: the source pixel at `(src_x0 + dx,
/// y0 + src_y0 + dy)` where it lies in the cell and is opaque, else transparent.
pub open spec fn boss_pixel(
    img: RgbaImage,
    y0: int,
    src_fw: u32,
    src_fh: u32,
    crop_w: int,
    crop_h: int,
    src_x0: int,
    src_y0: int,
    dx: int,
    dy: int,
) -> u8 {
    if 0 <= dx < crop_w && 0 <= dy < crop_h {
        let sx = src_x0 + dx;
        let sy = y0 + src_y0 + dy;
        if 0 <= sx < src_fw && y0 <= sy < y0 + src_fh && img.channel(sx, sy, 3) > 0 {
            img.p8_color(sx, sy)
        } else {
            TRANS
        }
    } else {
        TRANS
    }
}

/// The cell whose top is `y0` fitted into a `tw` x `th` frame: its content,
/// cropped to the frame around the content's horizontal centre and its
/// bottom, is placed centred horizontally and on the frame's bottom row.
pub open spec fn boss_frame(img: RgbaImage, y0: int, src_fw: u32, src_fh: u32, tw: u32, th: u32) -> Seq<u8> {
    let e = content_box(img, y0, src_fw, src_fh);
    let n = (tw * th) as nat;
    if e.2 < 0 {
        Seq::new(n, |k: int| TRANS)
    } else {
        let cw = e.2 - e.0 + 1;
        let ch = e.3 - e.1 + 1;
        let crop_w = if cw < tw { cw } else { tw as int };
        let crop_h = if ch < th { ch } else { th as int };
        let dst_x = (tw - crop_w) / 2;
        let dst_y = th - crop_h;
        let src_x0 = e.0 + cw / 2 - crop_w / 2;
        let src_y0 = e.1 + ch - crop_h;
        Seq::new(
            n,
            |k: int| boss_pixel(img, y0, src_fw, src_fh, crop_w, crop_h, src_x0, src_y0, k % (tw as int) - dst_x, k / (tw as int) - dst_y),
        )
    }
}

fn content_box_exec(img: &RgbaImage, y0: u32, src_fw: u32, src_fh: u32) -> (e: (i32, i32, i32, i32))
    requires
        img.wf(),
        src_fw <= img.width,
        y0 + src_fh <= img.height,
        src_fw <= i32::MAX,
        src_fh <= i32::MAX,
    ensures
        (e.0 as int, e.1 as int, e.2 as int, e.3 as int) == content_box(*img, y0 as int, src_fw, src_fh),
        0 <= e.0 <= src_fw,
        0 <= e.1 <= src_fh,
        -1 <= e.2 < src_fw,
        -1 <= e.3 < src_fh,
        e.2 >= 0 ==> e.0 <= e.2 && e.1 <= e.3 && e.3 >= 0,
{
    let mut min_x: i32 = src_fw as i32;
    let mut min_y: i32 = src_fh as i32;
    let mut max_x: i32 = -1;
    let mut max_y: i32 = -1;
    let ghost e0 = (src_fw as int, src_fh as int, -1int, -1int);
    let mut y: u32 = 0;
    while y < src_fh
        invariant
            y <= src_fh,
            img.wf(),
            src_fw <= img.width,
            y0 + src_fh <= img.height,
            src_fw <= i32::MAX,
            src_fh <= i32::MAX,
            0 <= min_x <= src_fw,
            0 <= min_y <= src_fh,
            -1 <= max_x < src_fw,
            -1 <= max_y < y,
            max_x >= 0 ==> min_x <= max_x && min_y <= max_y && max_y >= 0,
            (min_x as int, min_y as int, max_x as int, max_y as int) == scan_rows(*img, y0 as int, src_fw as nat, y as nat, e0),
        decreases src_fh - y,
    {
        let mut x: u32 = 0;
        while x < src_fw
            invariant
                x <= src_fw,
                y < src_fh,
                img.wf(),
                src_fw <= img.width,
                y0 + src_fh <= img.height,
                src_fw <= i32::MAX,
                src_fh <= i32::MAX,
                0 <= min_x <= src_fw,
                0 <= min_y <= src_fh,
                -1 <= max_x < src_fw,
                -1 <= max_y <= y,
                max_x >= 0 ==> min_x <= max_x && min_y <= max_y && max_y >= 0,
                (min_x as int, min_y as int, max_x as int, max_y as int) == scan_row(
                    *img,
                    y0 as int,
                    y as int,
                    x as nat,
                    scan_rows(*img, y0 as int, src_fw as nat, y as nat, e0),
                ),
            decreases src_fw - x,
        {
            let a = channel_at(img, x, y0 + y, 3);
            if a > 0 {
                let xi = x as i32;
                let yi = y as i32;
                if xi < min_x {
                    min_x = xi;
                }
                if xi > max_x {
                    max_x = xi;
                }
                if yi < min_y {
                    min_y = yi;
                }
                if yi > max_y {
                    max_y = yi;
                }
            }
            x += 1;
        }
        y += 1;
    }
    (min_x, min_y, max_x, max_y)
}

fn boss_frame_exec(img: &RgbaImage, y0: u32, src_fw: u32, src_fh: u32, tw: u32, th: u32) -> (pixels: Vec<u8>)
    requires
        img.wf(),
        src_fw <= img.width,
        y0 + src_fh <= img.height,
        img.height <= i32::MAX,
        src_fw <= i32::MAX,
        src_fh <= i32::MAX,
        tw * th <= u32::MAX,
    ensures
        pixels@ == boss_frame(*img, y0 as int, src_fw, src_fh, tw, th),
{
    let ghost spec = boss_frame(*img, y0 as int, src_fw, src_fh, tw, th);
    let (min_x, min_y, max_x, max_y) = content_box_exec(img, y0, src_fw, src_fh);
    let mut pixels: Vec<u8> = vec![TRANS; (tw * th) as usize];
    if max_x < 0 {
        assert(pixels@ =~= spec);
        return pixels;
    }
    let content_w: u32 = (max_x - min_x + 1) as u32;
    let content_h: u32 = (max_y - min_y + 1) as u32;
    let crop_w: u32 = if content_w < tw { content_w } else { tw };
    let crop_h: u32 = if content_h < th { content_h } else { th };
    let dst_x: u32 = (tw - crop_w) / 2;
    let dst_y: u32 = th - crop_h;
    let src_cx: i32 = min_x + content_w as i32 / 2;
    let src_x0: i32 = src_cx - crop_w as i32 / 2;
    let src_y0: i32 = min_y + content_h as i32 - crop_h as i32;
    let ghost bp = |c: int, r: int| boss_pixel(
        *img,
        y0 as int,
        src_fw,
        src_fh,
        crop_w as int,
        crop_h as int,
        src_x0 as int,
        src_y0 as int,
        c - dst_x,
        r - dst_y,
    );
    assert forall|r: int, c: int| 0 <= r < th && 0 <= c < tw implies #[trigger] pixels@[r * tw + c] == TRANS by {
        lemma_cell_index(tw as int, th as int, r, c);
    }
    let mut dy: u32 = 0;
    while dy < crop_h
        invariant
            dy <= crop_h,
            crop_h <= th,
            crop_w <= tw,
            dst_x + crop_w <= tw,
            dst_y + crop_h == th,
            0 <= src_x0,
            src_x0 + crop_w <= src_fw,
            0 <= src_y0,
            src_y0 + crop_h <= src_fh,
            img.wf(),
            src_fw <= img.width,
            y0 + src_fh <= img.height,
            img.height <= i32::MAX,
            src_fw <= i32::MAX,
            tw * th <= u32::MAX,
            pixels.len() == tw * th,
            bp == (|c: int, r: int| boss_pixel(
                *img,
                y0 as int,
                src_fw,
                src_fh,
                crop_w as int,
                crop_h as int,
                src_x0 as int,
                src_y0 as int,
                c - dst_x,
                r - dst_y,
            )),
            forall|r: int, c: int| 0 <= r < th && 0 <= c < tw ==> #[trigger] pixels@[r * tw + c] == if r < dst_y + dy {
                bp(c, r)
            } else {
                TRANS
            },
        decreases crop_h - dy,
    {
        let mut dx: u32 = 0;
        while dx < crop_w
            invariant
                dx <= crop_w,
                dy < crop_h,
                crop_h <= th,
                crop_w <= tw,
                dst_x + crop_w <= tw,
                dst_y + crop_h == th,
                0 <= src_x0,
                src_x0 + crop_w <= src_fw,
                0 <= src_y0,
                src_y0 + crop_h <= src_fh,
                img.wf(),
                src_fw <= img.width,
                y0 + src_fh <= img.height,
                img.height <= i32::MAX,
                src_fw <= i32::MAX,
                tw * th <= u32::MAX,
                pixels.len() == tw * th,
                bp == (|c: int, r: int| boss_pixel(
                    *img,
                    y0 as int,
                    src_fw,
                    src_fh,
                    crop_w as int,
                    crop_h as int,
                    src_x0 as int,
                    src_y0 as int,
                    c - dst_x,
                    r - dst_y,
                )),
                forall|r: int, c: int| 0 <= r < th && 0 <= c < tw ==> #[trigger] pixels@[r * tw + c] == if r < dst_y + dy
                    || (r == dst_y + dy && c < dst_x + dx) {
                    bp(c, r)
                } else {
                    TRANS
                },
            decreases crop_w - dx,
        {
            let sx: i32 = src_x0 + dx as i32;
            let sy: i32 = y0 as i32 + src_y0 + dy as i32;
            let r: u32 = dst_y + dy;
            let c: u32 = dst_x + dx;
            proof {
                lemma_cell_index(tw as int, th as int, r as int, c as int);
            }
            let idx = (r * tw + c) as usize;
            let ghost before = pixels@;
            if sx >= 0 && (sx as u32) < src_fw && sy >= y0 as i32 && sy < (y0 + src_fh) as i32 {
                let a = channel_at(img, sx as u32, sy as u32, 3);
                if a > 0 {
                    let v = p8_color_at(img, sx as u32, sy as u32);
                    pixels.set(idx, v);
                }
            }
            assert forall|rr: int, cc: int| 0 <= rr < th && 0 <= cc < tw implies #[trigger] pixels@[rr * tw + cc] == if rr
                < dst_y + dy || (rr == dst_y + dy && cc < dst_x + dx + 1) {
                bp(cc, rr)
            } else {
                TRANS
            } by {
                lemma_cell_index(tw as int, th as int, rr, cc);
                lemma_cell_distinct(tw as int, rr, cc, r as int, c as int);
                if rr != r || cc != c {
                    assert(pixels@[rr * tw + cc] == before[rr * tw + cc]);
                }
            }
            dx += 1;
        }
        assert forall|rr: int, cc: int| 0 <= rr < th && 0 <= cc < tw implies #[trigger] pixels@[rr * tw + cc] == if rr
            < dst_y + dy + 1 {
            bp(cc, rr)
        } else {
            TRANS
        } by {
            if rr == dst_y + dy && cc >= dst_x + crop_w {
                assert(bp(cc, rr) == TRANS);
            }
        }
        dy += 1;
    }
    assert forall|k: int| 0 <= k < pixels.len() implies #[trigger] pixels@[k] == spec[k] by {
        lemma_cell_split(tw as int, th as int, k);
        let r = k / (tw as int);
        let c = k % (tw as int);
        assert(pixels@[r * tw + c] == pixels@[k]);
        if r < dst_y {
            assert(bp(c, r) == TRANS);
        }
    }
    assert(pixels@ =~= spec);
    pixels
}

/// The frame indices to cut: `frame_select`, else every whole cell.
pub open spec fn boss_indices(img: RgbaImage, src_fh: u32, frame_select: Option<Seq<usize>>) -> Seq<usize> {
    match frame_select {
        Some(sel) => sel,
        None => Seq::new((img.height / src_fh) as nat, |i: int| i as usize),
    }
}

/// Whether some index to cut names a whole cell of the image.
pub open spec fn boss_any(img: RgbaImage, src_fh: u32, frame_select: Option<Seq<usize>>) -> bool {
    let idx = boss_indices(img, src_fh, frame_select);
    exists|k: int| 0 <= k < idx.len() && #[trigger] idx[k] < img.height / src_fh
}

/// What fitting cells into frames needs: a cell height, sizes that keep
/// positions in i32, and, when some cell is cut, a frame size that fits a
/// u32 and cells no wider than the image.
pub open spec fn boss_ok(img: RgbaImage, src_fw: u32, src_fh: u32, target_w: u32, target_h: u32, frame_select: Option<Seq<usize>>) -> bool {
    &&& img.wf()
    &&& src_fh > 0
    &&& src_fw <= i32::MAX
    &&& img.height <= i32::MAX
    &&& boss_any(img, src_fh, frame_select) ==> target_w * target_h <= u32::MAX && src_fw <= img.width
}

/// The frames for the first `k` indices of `idx`, skipping indices past the last whole cell.
pub open spec fn boss_frames_upto(img: RgbaImage, src_fw: u32, src_fh: u32, tw: u32, th: u32, idx: Seq<usize>, k: nat) -> Seq<Seq<u8>>
    decreases k,
{
    if k == 0 {
        seq![]
    } else {
        let prev = boss_frames_upto(img, src_fw, src_fh, tw, th, idx, (k - 1) as nat);
        if idx[k - 1] < img.height / src_fh {
            prev.push(boss_frame(img, idx[k - 1] * src_fh, src_fw, src_fh, tw, th))
        } else {
            prev
        }
    }
}

/// Frames cut from a vertical strip of `src_fw` x `src_fh` cells (the
/// selected ones, or all), each fitted into a `target_w` x `target_h` frame.
pub open spec fn boss_frames(img: RgbaImage, src_fw: u32, src_fh: u32, tw: u32, th: u32, frame_select: Option<Seq<usize>>) -> Seq<Seq<u8>> {
    let idx = boss_indices(img, src_fh, frame_select);
    boss_frames_upto(img, src_fw, src_fh, tw, th, idx, idx.len())
}

/// The selection as a sequence.
pub open spec fn selection_view(frame_select: Option<&[usize]>) -> Option<Seq<usize>> {
    match frame_select {
        Some(s) => Some(s@),
        None => None,
    }
}

/// Cut cells from a vertical strip and fit each one's content into a target
/// frame, centred horizontally and standing on the bottom row.
pub fn cut_frames_boss(
    img: &RgbaImage,
    src_fw: u32,
    src_fh: u32,
    target_w: u32,
    target_h: u32,
    frame_select: Option<&[usize]>,
) -> (frames: Vec<Vec<u8>>)
    requires
        boss_ok(*img, src_fw, src_fh, target_w, target_h, selection_view(frame_select)),
    ensures
        frame_list(frames@) == boss_frames(*img, src_fw, src_fh, target_w, target_h, selection_view(frame_select)),
{
    let total_frames: u32 = img.height / src_fh;
    let ghost sel = selection_view(frame_select);
    let indices: Vec<usize> = match frame_select {
        Some(fs) => vstd::slice::slice_to_vec(fs),
        None => {
            let mut v: Vec<usize> = Vec::new();
            let mut i: u32 = 0;
            while i < total_frames
                invariant
                    i <= total_frames,
                    v@ =~= Seq::new(i as nat, |j: int| j as usize),
                decreases total_frames - i,
            {
                v.push(i as usize);
                i += 1;
            }
            v
        },
    };
    let ghost idx = boss_indices(*img, src_fh, sel);
    assert(indices@ =~= idx);
    let mut frames: Vec<Vec<u8>> = Vec::new();
    let mut k: usize = 0;
    while k < indices.len()
        invariant
            k <= indices.len(),
            indices@ == idx,
            idx == boss_indices(*img, src_fh, sel),
            boss_ok(*img, src_fw, src_fh, target_w, target_h, sel),
            total_frames == img.height / src_fh,
            frame_list(frames@) == boss_frames_upto(*img, src_fw, src_fh, target_w, target_h, idx, k as nat),
        decreases indices.len() - k,
    {
        let fi = indices[k];
        let ghost before = frame_list(frames@);
        if fi < total_frames as usize {
            assert(boss_any(*img, src_fh, sel));
            assert((fi + 1) * src_fh <= total_frames * src_fh) by (nonlinear_arith)
                requires
                    fi < total_frames,
            ;
            assert(total_frames * src_fh <= img.height) by (nonlinear_arith)
                requires
                    total_frames == img.height / src_fh,
                    src_fh > 0,
            ;
            assert((fi + 1) * src_fh == fi * src_fh + src_fh) by (nonlinear_arith);
            let y0: u32 = (fi as u32) * src_fh;
            let f = boss_frame_exec(img, y0, src_fw, src_fh, target_w, target_h);
            let ghost fv = f@;
            frames.push(f);
            assert(frame_list(frames@) =~= before.push(fv));
        }
        k += 1;
    }
    frames
}

/// Whether extent `r` takes in extent `e`.
pub open spec fn extent_within(e: (int, int, int, int), r: (int, int, int, int)) -> bool {
    r.0 <= e.0 && r.1 <= e.1 && r.2 >= e.2 && r.3 >= e.3
}

proof fn lemma_scan_row_covers(img: RgbaImage, y0: int, y: int, n: nat, e: (int, int, int, int))
    ensures
        extent_within(e, scan_row(img, y0, y, n, e)),
        forall|x: int|
            0 <= x < n && #[trigger] img.channel(x, y0 + y, 3) > 0 ==> {
                let r = scan_row(img, y0, y, n, e);
                r.0 <= x <= r.2 && r.1 <= y <= r.3
            },
    decreases n,
{
    if n > 0 {
        lemma_scan_row_covers(img, y0, y, (n - 1) as nat, e);
    }
}

proof fn lemma_scan_rows_covers(img: RgbaImage, y0: int, w: nat, m: nat, e: (int, int, int, int))
    ensures
        extent_within(e, scan_rows(img, y0, w, m, e)),
        forall|x: int, y: int|
            0 <= x < w && 0 <= y < m && #[trigger] img.channel(x, y0 + y, 3) > 0 ==> {
                let r = scan_rows(img, y0, w, m, e);
                r.0 <= x <= r.2 && r.1 <= y <= r.3
            },
    decreases m,
{
    if m > 0 {
        let prev = scan_rows(img, y0, w, (m - 1) as nat, e);
        lemma_scan_rows_covers(img, y0, w, (m - 1) as nat, e);
        lemma_scan_row_covers(img, y0, m - 1, w, prev);
    }
}

/// Boss frames stand on the ground, centred: when the content of a cell fits
/// the target frame, each opaque pixel of the cell lands at its place in the
/// content, the content's left edge at half the spare width and its bottom
/// row on the frame's bottom row.
pub proof fn boss_bottom_center(img: RgbaImage, y0: int, src_fw: u32, src_fh: u32, tw: u32, th: u32, x: int, y: int)
    requires
        0 <= x < src_fw,
        0 <= y < src_fh,
        img.channel(x, y0 + y, 3) > 0,
        content_box(img, y0, src_fw, src_fh).2 - content_box(img, y0, src_fw, src_fh).0 + 1 <= tw,
        content_box(img, y0, src_fw, src_fh).3 - content_box(img, y0, src_fw, src_fh).1 + 1 <= th,
    ensures
        ({
            let e = content_box(img, y0, src_fw, src_fh);
            let cw = e.2 - e.0 + 1;
            let ch = e.3 - e.1 + 1;
            let row = th - ch + (y - e.1);
            let col = (tw - cw) / 2 + (x - e.0);
            &&& e.0 <= x <= e.2 && e.1 <= y <= e.3
            &&& 0 <= row < th && 0 <= col < tw
            &&& th - ch + (e.3 - e.1) == th - 1
            &&& boss_frame(img, y0, src_fw, src_fh, tw, th)[row * tw + col] == img.p8_color(x, y0 + y)
        }),
{
    let e = content_box(img, y0, src_fw, src_fh);
    lemma_scan_rows_covers(img, y0, src_fw as nat, src_fh as nat, (src_fw as int, src_fh as int, -1, -1));
    assert(e.0 <= x <= e.2 && e.1 <= y <= e.3);
    let cw = e.2 - e.0 + 1;
    let ch = e.3 - e.1 + 1;
    let row = th - ch + (y - e.1);
    let col = (tw - cw) / 2 + (x - e.0);
    let w = tw as int;
    let k = row * w + col;
    assert(0 <= row < th);
    assert(0 <= col < tw);
    assert(0 <= k < tw * th && k % w == col && k / w == row) by {
        vstd::arithmetic::div_mod::lemma_fundamental_div_mod_converse(k, w, row, col);
        assert(row * w + col < th * w) by (nonlinear_arith)
            requires
                0 <= row < th,
                0 <= col < w,
        ;
        assert(0 <= row * w) by (nonlinear_arith)
            requires
                0 <= row,
                0 <= w,
        ;
        assert(th * w == tw * th) by (nonlinear_arith)
            requires
                w == tw,
        ;
    }
}

proof fn lemma_cell_pos(w: int, h: int, y: int, x: int)
    requires
        0 <= x < w,
        0 <= y < h,
    ensures
        (y * w + x) % w == x,
        (y * w + x) / w == y,
        0 <= y * w + x < w * h,
{
    vstd::arithmetic::div_mod::lemma_fundamental_div_mod_converse(y * w + x, w, y, x);
    assert(0 <= y * w + x < w * h) by (nonlinear_arith)
        requires
            0 <= x < w,
            0 <= y < h,
    ;
}

/// Cutting a vertical strip keeps each pixel's colour: pixel `(x, y)` of frame
/// `f` is transparent exactly when the source pixel `(x, f * cell_h + y)` has
/// alpha 0, and otherwise is the PICO-8 colour nearest to its RGB.
pub proof fn strip_pixels_follow_alpha(img: RgbaImage, cell_w: u32, cell_h: u32, nframes: Option<u32>, f: int, x: int, y: int)
    requires
        0 <= f < strip_frame_count(img, cell_h, nframes),
        0 <= x < cell_w,
        0 <= y < cell_h,
    ensures
        ({
            let p = strip_frames(img, cell_w, cell_h, nframes)[f][y * cell_w + x];
            let sy = f * cell_h + y;
            &&& (p == TRANS) == (img.channel(x, sy, 3) == 0)
            &&& img.channel(x, sy, 3) != 0 ==> is_nearest_p8(img.channel(x, sy, 0), img.channel(x, sy, 1), img.channel(x, sy, 2), p)
        }),
{
    let sy = f * cell_h + y;
    lemma_cell_pos(cell_w as int, cell_h as int, y, x);
    assert(cell_w * cell_h == (cell_w * cell_h) as nat);
    lemma_nearest_p8_exists(img.channel(x, sy, 0), img.channel(x, sy, 1), img.channel(x, sy, 2));
}

/// Cutting a horizontal strip keeps each copied pixel's colour: pixel `(x, y)`
/// of cell `f` is copied from source pixel `(f * src_fw + x - pad_x, y)` when
/// `y` is a row of the source frame and `x - pad_x` one of its columns; it is
/// then transparent exactly when that pixel's alpha is below 128 and
/// otherwise the PICO-8 colour nearest to its RGB. Every other pixel is
/// transparent.
pub proof fn horiz_pixels_follow_alpha(
    img: RgbaImage,
    src_fw: u32,
    src_fh: u32,
    cell_w: u32,
    cell_h: u32,
    nframes: Option<u32>,
    pad_x: u32,
    f: int,
    x: int,
    y: int,
)
    requires
        0 <= f < horiz_frame_count(img, src_fw, nframes),
        0 <= x < cell_w,
        0 <= y < cell_h,
    ensures
        ({
            let p = horiz_frames(img, src_fw, src_fh, cell_w, cell_h, nframes, pad_x)[f][y * cell_w + x];
            let sx = f * src_fw + x - pad_x;
            let copied = y < src_fh && pad_x <= x && x - pad_x < src_fw;
            &&& !copied ==> p == TRANS
            &&& copied ==> (p == TRANS) == (img.channel(sx, y, 3) < 128)
            &&& copied && img.channel(sx, y, 3) >= 128 ==> is_nearest_p8(
                img.channel(sx, y, 0),
                img.channel(sx, y, 1),
                img.channel(sx, y, 2),
                p,
            )
        }),
{
    let sx = f * src_fw + x - pad_x;
    lemma_cell_pos(cell_w as int, cell_h as int, y, x);
    lemma_nearest_p8_exists(img.channel(sx, y, 0), img.channel(sx, y, 1), img.channel(sx, y, 2));
}

/// Whether pixel `j` (row by row) of the `cw`-wide glyph cell at column `ox` is drawn.
spec fn glyph_drawn(img: RgbaImage, ox: int, cw: int, threshold: u8, j: int) -> bool {
    font_bright(img, ox + j % cw, j / cw, threshold)
}

proof fn lemma_glyph_max_x(img: RgbaImage, ox: int, cw: int, threshold: u8, k: nat)
    requires
        cw > 0,
    ensures
        ({
            let g = glyph_max_x(img, ox, cw, threshold, k);
            &&& 0 <= g < cw
            &&& forall|j: int| 0 <= j < k && #[trigger] glyph_drawn(img, ox, cw, threshold, j) ==> j % cw <= g
            &&& (exists|j: int| 0 <= j < k && #[trigger] glyph_drawn(img, ox, cw, threshold, j) && j % cw == g) || (g == 0
                && forall|j: int| 0 <= j < k ==> !#[trigger] glyph_drawn(img, ox, cw, threshold, j))
        }),
    decreases k,
{
    if k > 0 {
        lemma_glyph_max_x(img, ox, cw, threshold, (k - 1) as nat);
        let j = k - 1;
        assert(glyph_drawn(img, ox, cw, threshold, j) == font_bright(img, ox + j % cw, j / cw, threshold));
        vstd::arithmetic::div_mod::lemma_mod_pos_bound(j, cw);
    }
}

/// A glyph's advance is two past its rightmost drawn column (at most 255):
/// with `m` the greatest column, within the glyph's cell, of a pixel whose red
/// reaches the threshold (0 when none does), the advance is `min(m + 2, 255)`.
pub proof fn font_advance_is_rightmost(img: RgbaImage, cell_w: u32, threshold: u8, i: int)
    requires
        cell_w > 0,
    ensures
        ({
            let adv = font_advance(img, cell_w, threshold, i) as int;
            let ox = i * cell_w;
            &&& forall|sx: int, y: int|
                ox <= sx < ox + cell_w && 0 <= y < img.height && #[trigger] font_bright(img, sx, y, threshold) ==> sx - ox + 2
                    <= adv || adv == 255
            &&& (exists|sx: int, y: int| ox <= sx < ox + cell_w && 0 <= y < img.height && #[trigger] font_bright(img, sx, y, threshold))
                ==> exists|sx: int, y: int|
                ox <= sx < ox + cell_w && 0 <= y < img.height && #[trigger] font_bright(img, sx, y, threshold) && (sx - ox + 2 == adv
                    || (adv == 255 && sx - ox + 2 >= 255))
            &&& (forall|sx: int, y: int| ox <= sx < ox + cell_w && 0 <= y < img.height ==> !#[trigger] font_bright(img, sx, y, threshold))
                ==> adv == 2
        }),
{
    let cw = cell_w as int;
    let h = img.height as int;
    let ox = i * cw;
    let k = (cell_w * img.height) as nat;
    assert(k == cw * h);
    lemma_glyph_max_x(img, ox, cw, threshold, k);
    let g = glyph_max_x(img, ox, cw, threshold, k);
    let adv = font_advance(img, cell_w, threshold, i) as int;
    assert(adv == if g + 2 < 255 { g + 2 } else { 255 });
    assert forall|sx: int, y: int|
        ox <= sx < ox + cw && 0 <= y < h && #[trigger] font_bright(img, sx, y, threshold) implies sx - ox + 2 <= adv || adv == 255 by {
        lemma_cell_pos(cw, h, y, sx - ox);
        let j = y * cw + (sx - ox);
        assert(glyph_drawn(img, ox, cw, threshold, j));
    }
    if exists|j: int| 0 <= j < k && #[trigger] glyph_drawn(img, ox, cw, threshold, j) && j % cw == g {
        let j = choose|j: int| 0 <= j < k && #[trigger] glyph_drawn(img, ox, cw, threshold, j) && j % cw == g;
        vstd::arithmetic::div_mod::lemma_mod_pos_bound(j, cw);
        vstd::arithmetic::div_mod::lemma_fundamental_div_mod(j, cw);
        assert(0 <= j / cw < h) by (nonlinear_arith)
            requires
                0 <= j < cw * h,
                j == cw * (j / cw) + j % cw,
                0 <= j % cw < cw,
        ;
        let sx = ox + j % cw;
        let y = j / cw;
        assert(ox <= sx < ox + cw && 0 <= y < h && font_bright(img, sx, y, threshold));
    } else {
        assert(g == 0);
        assert forall|sx: int, y: int| ox <= sx < ox + cw && 0 <= y < h implies !#[trigger] font_bright(img, sx, y, threshold) by {
            lemma_cell_pos(cw, h, y, sx - ox);
            let j = y * cw + (sx - ox);
            assert(!glyph_drawn(img, ox, cw, threshold, j));
        }
    }
}

} // verus!
