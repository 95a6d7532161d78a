//! Cartridge sections: sfx/music parsing and the hex text of the
//! __sfx__, __music__, __gfx__, __map__ and __gff__ sections.

use vstd::prelude::*;
use vstd::string::*;
use crate::text::{ascii_bytes, hex2, hex_digit_byte, hex_digit_text, lemma_hex2_bytes, lemma_hex_digit_text, push_hex1, push_hex2};

verus! {

/// `data` cut or zero-padded to exactly `n` bytes.
pub open spec fn padded(data: Seq<u8>, n: nat) -> Seq<u8> {
    if data.len() >= n {
        data.take(n as int)
    } else {
        data + Seq::new((n - data.len()) as nat, |i: int| 0u8)
    }
}

fn pad_to(data: &[u8], n: usize) -> (out: Vec<u8>)
    ensures
        out@ == padded(data@, n as nat),
{
    let mut out: Vec<u8> = Vec::new();
    let mut i: usize = 0;
    while i < n
        invariant
            i <= n,
            out.len() == i,
            forall|k: int| 0 <= k < i ==> out[k] == if k < data.len() { data[k] } else { 0u8 },
        decreases n - i,
    {
        if i < data.len() {
            out.push(data[i]);
        } else {
            out.push(0);
        }
        i += 1;
    }
    assert(out@ =~= padded(data@, n as nat));
    out
}

/// The first `k` of `count` lines produced by `line`, joined with newlines.
pub open spec fn joined(lines: spec_fn(int) -> Seq<char>, k: nat) -> Seq<char>
    decreases k,
{
    if k == 0 {
        seq![]
    } else if k == 1 {
        lines(0)
    } else {
        joined(lines, (k - 1) as nat) + "\n"@ + lines(k - 1)
    }
}

/// One sfx note as text: pitch (2 digits), waveform with the custom bit,
/// volume, effect (1 digit each).
pub open spec fn sfx_note_text(b0: u8, b1: u8) -> Seq<char> {
    let pitch = b0 & 0x3Fu8;
    let wf = ((b0 >> 6u8) & 0x3u8) | ((b1 & 0x1u8) << 2u8);
    let custom = (b1 >> 7u8) & 0x1u8;
    let vol = (b1 >> 1u8) & 0x7u8;
    let eff = (b1 >> 4u8) & 0x7u8;
    hex2(pitch) + hex_digit_text((wf | (custom << 3u8)) as nat) + hex_digit_text(vol as nat) + hex_digit_text(eff as nat)
}

/// The first `k` notes of a 68-byte sfx slot as text.
pub open spec fn sfx_notes_text(d: Seq<u8>, k: nat) -> Seq<char>
    decreases k,
{
    if k == 0 {
        seq![]
    } else {
        sfx_notes_text(d, (k - 1) as nat) + sfx_note_text(d[2 * (k - 1)], d[2 * (k - 1) + 1])
    }
}

/// One __sfx__ line: the 4 header bytes (offsets 64-67) in hex, then 32 notes.
pub open spec fn sfx_line_text(d: Seq<u8>) -> Seq<char> {
    hex2(d[64]) + hex2(d[65]) + hex2(d[66]) + hex2(d[67]) + sfx_notes_text(d, 32)
}

/// The __sfx__ section of `data`: 64 slots of 68 bytes (data cut or zero-padded).
pub open spec fn sfx_hex_spec(data: Seq<u8>) -> Seq<char> {
    let p = padded(data, 68 * 64);
    joined(|slot: int| sfx_line_text(p.subrange(68 * slot, 68 * slot + 68)), 64)
}

fn push_note(s: &mut String, b0: u8, b1: u8)
    ensures
        final(s)@ == old(s)@ + sfx_note_text(b0, b1),
{
    let ghost start = s@;
    let pitch = b0 & 0x3F;
    let wf = ((b0 >> 6u8) & 0x3) | ((b1 & 0x1) << 2u8);
    let custom = (b1 >> 7u8) & 0x1;
    let vol = (b1 >> 1u8) & 0x7;
    let eff = (b1 >> 4u8) & 0x7;
    let wf_hex = wf | (custom << 3u8);
    assert(wf_hex < 16 && vol < 16 && eff < 16) by (bit_vector)
        requires
            wf == ((b0 >> 6u8) & 0x3) | ((b1 & 0x1) << 2u8),
            custom == (b1 >> 7u8) & 0x1,
            vol == (b1 >> 1u8) & 0x7,
            eff == (b1 >> 4u8) & 0x7,
            wf_hex == wf | (custom << 3u8),
    ;
    push_hex2(s, pitch);
    push_hex1(s, wf_hex);
    push_hex1(s, vol);
    push_hex1(s, eff);
    assert(s@ =~= start + sfx_note_text(b0, b1));
}

/// Convert 68*64 bytes to __sfx__ section hex format.
#[verifier::spinoff_prover]
#[verifier::rlimit(40)]
pub fn bytes_to_sfx_hex(data: &[u8]) -> (hex: String)
    ensures
        hex@ == sfx_hex_spec(data@),
{
    let padded = pad_to(data, 68 * 64);
    let ghost lines = |slot: int| sfx_line_text(padded@.subrange(68 * slot, 68 * slot + 68));
    let mut out = String::new();
    let mut slot: usize = 0;
    while slot < 64
        invariant
            slot <= 64,
            padded.len() == 68 * 64,
            lines == (|slot: int| sfx_line_text(padded@.subrange(68 * slot, 68 * slot + 68))),
            out@ == joined(lines, slot as nat),
        decreases 64 - slot,
    {
        let ghost before = out@;
        if slot > 0 {
            out.append("\n");
        }
        let ghost d = padded@.subrange(68 * slot, 68 * slot + 68);
        let base = slot * 68;
        let ghost line_start = out@;
        push_hex2(&mut out, padded[base + 64]);
        push_hex2(&mut out, padded[base + 65]);
        push_hex2(&mut out, padded[base + 66]);
        push_hex2(&mut out, padded[base + 67]);
        let ghost notes_start = out@;
        let mut n: usize = 0;
        while n < 32
            invariant
                n <= 32,
                slot < 64,
                base == slot * 68,
                padded.len() == 68 * 64,
                d == padded@.subrange(68 * slot, 68 * slot + 68),
                out@ == notes_start + sfx_notes_text(d, n as nat),
            decreases 32 - n,
        {
            push_note(&mut out, padded[base + 2 * n], padded[base + 2 * n + 1]);
            assert(d[2 * n as int] == padded[base + 2 * n] && d[2 * n + 1] == padded[base + 2 * n + 1]);
            n += 1;
        }
        assert(out@ =~= line_start + sfx_line_text(d));
        assert(lines(slot as int) == sfx_line_text(d));
        assert(out@ =~= joined(lines, (slot + 1) as nat));
        slot += 1;
    }
    out
}

/// One __music__ line for pattern bytes `b[0..4]`: the loop flags gathered
/// from bit 7 of each byte, a space, then the four channel values.
pub open spec fn music_line_text(b0: u8, b1: u8, b2: u8, b3: u8) -> Seq<char> {
    let flag = ((b0 >> 7u8) & 1u8) | (((b1 >> 7u8) & 1u8) << 1u8) | (((b2 >> 7u8) & 1u8) << 2u8) | (((b3 >> 7u8) & 1u8) << 3u8);
    hex2(flag) + " "@ + hex2(b0 & 0x7Fu8) + hex2(b1 & 0x7Fu8) + hex2(b2 & 0x7Fu8) + hex2(b3 & 0x7Fu8)
}

/// The __music__ section of the first 256 bytes: 64 lines.
pub open spec fn music_hex_spec(m: Seq<u8>) -> Seq<char> {
    joined(|i: int| music_line_text(m[4 * i], m[4 * i + 1], m[4 * i + 2], m[4 * i + 3]), 64)
}

/// Convert 256 bytes of music data to __music__ section hex.
#[verifier::spinoff_prover]
#[verifier::rlimit(40)]
pub fn music_hex(music_buf: &[u8]) -> (hex: String)
    requires
        music_buf.len() >= 256,
    ensures
        hex@ == music_hex_spec(music_buf@),
{
    let ghost lines = |i: int| music_line_text(music_buf@[4 * i], music_buf@[4 * i + 1], music_buf@[4 * i + 2], music_buf@[4 * i + 3]);
    let mut out = String::new();
    let mut i: usize = 0;
    while i < 64
        invariant
            i <= 64,
            music_buf.len() >= 256,
            lines == (|i: int| music_line_text(music_buf@[4 * i], music_buf@[4 * i + 1], music_buf@[4 * i + 2], music_buf@[4 * i + 3])),
            out@ == joined(lines, i as nat),
        decreases 64 - i,
    {
        if i > 0 {
            out.append("\n");
        }
        let ghost line_start = out@;
        let b0 = music_buf[i * 4];
        let b1 = music_buf[i * 4 + 1];
        let b2 = music_buf[i * 4 + 2];
        let b3 = music_buf[i * 4 + 3];
        let flag = ((b0 >> 7u8) & 1) | (((b1 >> 7u8) & 1) << 1u8) | (((b2 >> 7u8) & 1) << 2u8) | (((b3 >> 7u8) & 1) << 3u8);
        push_hex2(&mut out, flag);
        out.append(" ");
        push_hex2(&mut out, b0 & 0x7F);
        push_hex2(&mut out, b1 & 0x7F);
        push_hex2(&mut out, b2 & 0x7F);
        push_hex2(&mut out, b3 & 0x7F);
        assert(out@ =~= line_start + lines(i as int));
        assert(out@ =~= joined(lines, (i + 1) as nat));
        i += 1;
    }
    out
}

/// A row of bytes, each as two hex digits (`lo_first`: low nibble first).
pub open spec fn hex_row(row: Seq<u8>, lo_first: bool) -> Seq<char>
    decreases row.len(),
{
    if row.len() == 0 {
        seq![]
    } else {
        let b = row.last();
        hex_row(row.drop_last(), lo_first) + if lo_first {
            hex_digit_text((b % 16) as nat) + hex_digit_text((b / 16) as nat)
        } else {
            hex2(b)
        }
    }
}

/// `rows` rows of `row_bytes` bytes of `data` (cut or zero-padded), in hex, one per line.
pub open spec fn hex_rows_spec(data: Seq<u8>, rows: nat, row_bytes: nat, lo_first: bool) -> Seq<char> {
    let p = padded(data, rows * row_bytes);
    joined(|r: int| hex_row(p.subrange(r * row_bytes, r * row_bytes + row_bytes), lo_first), rows)
}

fn hex_rows(data: &[u8], rows: usize, row_bytes: usize, lo_first: bool) -> (hex: String)
    requires
        rows * row_bytes <= 8192,
        rows <= 128,
        row_bytes <= 128,
    ensures
        hex@ == hex_rows_spec(data@, rows as nat, row_bytes as nat, lo_first),
{
    let padded = pad_to(data, rows * row_bytes);
    let ghost lines = |r: int| hex_row(padded@.subrange(r * row_bytes, r * row_bytes + row_bytes), lo_first);
    let mut out = String::new();
    let mut r: usize = 0;
    while r < rows
        invariant
            r <= rows,
            rows * row_bytes <= 8192,
            rows <= 128,
            row_bytes <= 128,
            padded.len() == rows * row_bytes,
            lines == (|r: int| hex_row(padded@.subrange(r * row_bytes, r * row_bytes + row_bytes), lo_first)),
            out@ == joined(lines, r as nat),
        decreases rows - r,
    {
        if r > 0 {
            out.append("\n");
        }
        let ghost line_start = out@;
        assert(r * row_bytes + row_bytes <= rows * row_bytes) by (nonlinear_arith)
            requires
                r < rows,
        ;
        let base = r * row_bytes;
        let ghost row = padded@.subrange(base as int, base + row_bytes);
        let mut k: usize = 0;
        while k < row_bytes
            invariant
                k <= row_bytes,
                base + row_bytes <= padded.len(),
                row == padded@.subrange(base as int, base + row_bytes),
                out@ == line_start + hex_row(row.take(k as int), lo_first),
            decreases row_bytes - k,
        {
            let b = padded[base + k];
            assert(row.take(k + 1).drop_last() =~= row.take(k as int));
            if lo_first {
                assert(b & 0x0F == b % 16 && (b >> 4u8) & 0x0F == b / 16) by (bit_vector);
                push_hex1(&mut out, b & 0x0F);
                push_hex1(&mut out, (b >> 4u8) & 0x0F);
            } else {
                push_hex2(&mut out, b);
            }
            k += 1;
        }
        assert(row.take(row_bytes as int) =~= row);
        assert(out@ =~= joined(lines, (r + 1) as nat));
        r += 1;
    }
    out
}

/// Convert bytes to __gfx__ hex format (128 rows of 128 hex chars).
pub fn bytes_to_gfx(data: &[u8]) -> (hex: String)
    ensures
        hex@ == hex_rows_spec(data@, 128, 64, true),
{
    hex_rows(data, 128, 64, true)
}

/// Convert bytes to __map__ hex format (32 rows of 256 hex chars).
pub fn bytes_to_map_hex(data: &[u8]) -> (hex: String)
    ensures
        hex@ == hex_rows_spec(data@, 32, 128, false),
{
    hex_rows(data, 32, 128, false)
}

/// Convert bytes to __gff__ hex format (2 rows of 256 hex chars).
pub fn bytes_to_gff_hex(data: &[u8]) -> (hex: String)
    ensures
        hex@ == hex_rows_spec(data@, 2, 128, false),
{
    hex_rows(data, 2, 128, false)
}


/// Value of a hexadecimal digit byte (either case).
pub open spec fn hex_value(c: u8) -> Option<nat> {
    if 48 <= c <= 57 {
        Some((c - 48) as nat)
    } else if 97 <= c <= 102 {
        Some((c - 87) as nat)
    } else if 65 <= c <= 70 {
        Some((c - 55) as nat)
    } else {
        None
    }
}

/// Value of a string of hexadecimal digits, `None` if any byte is not one.
pub open spec fn hex_digits_value(b: Seq<u8>) -> Option<nat>
    decreases b.len(),
{
    if b.len() == 0 {
        Some(0)
    } else {
        match (hex_digits_value(b.drop_last()), hex_value(b.last())) {
            (Some(v), Some(d)) => Some(v * 16 + d),
            _ => None,
        }
    }
}

/// A field read as a base-16 byte, 0 when it does not parse: an optional
/// leading '+', then at least one hex digit, with a value that fits a byte.
pub open spec fn parse_hex_u8(b: Seq<u8>) -> u8 {
    let digits = if b.len() > 0 && b[0] == 43 { b.drop_first() } else { b };
    if b.len() == 0 || digits.len() == 0 {
        0
    } else {
        match hex_digits_value(digits) {
            Some(v) => if v <= 255 { v as u8 } else { 0 },
            None => 0,
        }
    }
}

fn hex_digit_value(c: u8) -> (r: Option<u8>)
    ensures
        match hex_value(c) {
            Some(v) => r == Some(v as u8),
            None => r is None,
        },
{
    if 48 <= c && c <= 57 {
        Some(c - 48)
    } else if 97 <= c && c <= 102 {
        Some(c - 87)
    } else if 65 <= c && c <= 70 {
        Some(c - 55)
    } else {
        None
    }
}

/// Bytes `lo..hi` of `b` read as a base-16 byte, 0 when they do not parse.
pub fn parse_hex_field(b: &[u8], lo: usize, hi: usize) -> (v: u8)
    requires
        lo <= hi <= b.len(),
    ensures
        v == parse_hex_u8(b@.subrange(lo as int, hi as int)),
{
    let ghost f = b@.subrange(lo as int, hi as int);
    if lo == hi {
        return 0;
    }
    let start: usize = if b[lo] == 43 { lo + 1 } else { lo };
    let ghost digits = b@.subrange(start as int, hi as int);
    assert(digits =~= (if f.len() > 0 && f[0] == 43 { f.drop_first() } else { f }));
    if start == hi {
        return 0;
    }
    let mut acc: u32 = 0;
    let mut k: usize = start;
    while k < hi
        invariant
            start <= k <= hi,
            start < hi,
            lo < hi,
            hi <= b.len(),
            f == b@.subrange(lo as int, hi as int),
            digits == b@.subrange(start as int, hi as int),
            digits == (if f.len() > 0 && f[0] == 43 { f.drop_first() } else { f }),
            hex_digits_value(b@.subrange(start as int, k as int)) == Some(acc as nat),
            acc <= 255,
        decreases hi - k,
    {
        assert(b@.subrange(start as int, k + 1).drop_last() =~= b@.subrange(start as int, k as int));
        match hex_digit_value(b[k]) {
            None => {
                proof {
                    assert(digits[(k - start) as int] == b[k as int]);
                    lemma_hex_digits_none(digits, (k - start) as nat);
                }
                return 0;
            },
            Some(d) => {
                let next: u32 = acc * 16 + d as u32;
                if next > 255 {
                    proof {
                        assert(b@.subrange(start as int, k + 1) =~= digits.take((k + 1 - start) as int));
                        lemma_hex_digits_grow(digits, (k + 1 - start) as nat);
                    }
                    return 0;
                }
                acc = next;
            },
        }
        k += 1;
    }
    assert(b@.subrange(start as int, hi as int) =~= digits);
    acc as u8
}

proof fn lemma_hex_digits_none(b: Seq<u8>, k: nat)
    requires
        k < b.len(),
        hex_value(b[k as int]) is None,
    ensures
        hex_digits_value(b) is None,
    decreases b.len(),
{
    if k < b.len() - 1 {
        assert(b.drop_last()[k as int] == b[k as int]);
        lemma_hex_digits_none(b.drop_last(), k);
    }
}

proof fn lemma_hex_digits_grow(b: Seq<u8>, k: nat)
    requires
        k <= b.len(),
        hex_digits_value(b.take(k as int)) is None || hex_digits_value(b.take(k as int)).unwrap() > 255,
    ensures
        hex_digits_value(b) is None || hex_digits_value(b).unwrap() > 255,
    decreases b.len() - k,
{
    if k < b.len() {
        let t = b.take((k + 1) as int);
        assert(t.drop_last() =~= b.take(k as int));
        lemma_hex_digits_grow(b, k + 1);
    } else {
        assert(b.take(k as int) =~= b);
    }
}

/// Byte offsets at which the sfx line parser cuts a line.
pub open spec fn sfx_cut(k: int) -> bool {
    (0 <= k <= 8 && k % 2 == 0) || (8 <= k <= 168 && ((k - 8) % 5 == 0 || (k - 8) % 5 == 2 || (k - 8) % 5 == 3 || (k - 8) % 5 == 4))
}

/// Whether a `&str` with bytes `b` may be cut at byte `k`: the two ends, or
/// any byte in between that does not continue a UTF-8 sequence.
pub open spec fn char_boundary(b: Seq<u8>, k: int) -> bool {
    k == 0 || k == b.len() || (0 < k < b.len() && (b[k] < 0x80 || b[k] >= 0xC0))
}

/// A line the sfx parser can cut: at least 168 bytes, each cut on a character boundary.
pub open spec fn sfx_line_ok(b: Seq<u8>) -> bool {
    &&& b.len() >= 168
    &&& forall|k: int| sfx_cut(k) ==> #[trigger] char_boundary(b, k)
}

/// The two bytes of note `n` rebuilt from its five hex fields.
pub open spec fn sfx_note_bytes(b: Seq<u8>, n: int) -> (u8, u8) {
    let base = 8 + 5 * n;
    let pitch = parse_hex_u8(b.subrange(base, base + 2));
    let wf_hex = parse_hex_u8(b.subrange(base + 2, base + 3));
    let vol = parse_hex_u8(b.subrange(base + 3, base + 4));
    let eff = parse_hex_u8(b.subrange(base + 4, base + 5));
    let wf = wf_hex & 0x7u8;
    let custom = (wf_hex >> 3u8) & 0x1u8;
    let b0 = (pitch & 0x3Fu8) | ((wf & 0x3u8) << 6u8);
    let b1 = ((wf >> 2u8) & 0x1u8) | ((vol & 0x7u8) << 1u8) | ((eff & 0x7u8) << 4u8) | ((custom & 0x1u8) << 7u8);
    (b0, b1)
}

/// The 68 raw bytes of one sfx line: 32 notes of two bytes, then the 4 header bytes.
pub open spec fn sfx_slot_spec(b: Seq<u8>) -> Seq<u8> {
    Seq::new(68, |k: int| if k >= 64 {
        parse_hex_u8(b.subrange(2 * (k - 64), 2 * (k - 64) + 2))
    } else if k % 2 == 0 {
        sfx_note_bytes(b, k / 2).0
    } else {
        sfx_note_bytes(b, k / 2).1
    })
}

pub(crate) fn parse_sfx_bytes(b: &[u8], lo: usize) -> (slot: [u8; 68])
    requires
        lo + 168 <= b.len(),
    ensures
        slot@ == sfx_slot_spec(b@.subrange(lo as int, lo + 168)),
{
    let ghost line = b@.subrange(lo as int, lo + 168);
    let mut slot_bytes = [0u8; 68];
    let mut i: usize = 0;
    while i < 4
        invariant
            i <= 4,
            lo + 168 <= b.len(),
            line == b@.subrange(lo as int, lo + 168),
            forall|k: int| 64 <= k < 64 + i ==> slot_bytes@[k] == #[trigger] sfx_slot_spec(line)[k],
        decreases 4 - i,
    {
        let v = parse_hex_field(b, lo + i * 2, lo + i * 2 + 2);
        assert(b@.subrange(lo + i * 2, lo + i * 2 + 2) =~= line.subrange(2 * i as int, 2 * i + 2));
        slot_bytes[64 + i] = v;
        i += 1;
    }
    let mut n: usize = 0;
    while n < 32
        invariant
            n <= 32,
            lo + 168 <= b.len(),
            line == b@.subrange(lo as int, lo + 168),
            forall|k: int| 64 <= k < 68 ==> slot_bytes@[k] == #[trigger] sfx_slot_spec(line)[k],
            forall|k: int| 0 <= k < 2 * n ==> slot_bytes@[k] == #[trigger] sfx_slot_spec(line)[k],
        decreases 32 - n,
    {
        let base = lo + 8 + n * 5;
        let pitch = parse_hex_field(b, base, base + 2);
        let wf_hex = parse_hex_field(b, base + 2, base + 3);
        let vol = parse_hex_field(b, base + 3, base + 4);
        let eff = parse_hex_field(b, base + 4, base + 5);
        let ghost lb = 8 + 5 * n;
        assert(b@.subrange(base as int, base + 2) =~= line.subrange(lb, lb + 2));
        assert(b@.subrange(base + 2, base + 3) =~= line.subrange(lb + 2, lb + 3));
        assert(b@.subrange(base + 3, base + 4) =~= line.subrange(lb + 3, lb + 4));
        assert(b@.subrange(base + 4, base + 5) =~= line.subrange(lb + 4, lb + 5));
        let wf = wf_hex & 0x7;
        let custom = (wf_hex >> 3u8) & 0x1;
        let b0 = (pitch & 0x3F) | ((wf & 0x3) << 6u8);
        let b1 = ((wf >> 2u8) & 0x1) | ((vol & 0x7) << 1u8) | ((eff & 0x7) << 4u8) | ((custom & 0x1) << 7u8);
        slot_bytes[2 * n] = b0;
        slot_bytes[2 * n + 1] = b1;
        assert(sfx_note_bytes(line, n as int) == (b0, b1));
        assert((2 * n) / 2 == n && (2 * n + 1) / 2 == n);
        n += 1;
    }
    assert(slot_bytes@ =~= sfx_slot_spec(line));
    slot_bytes
}

/// Parse one __sfx__ line (168 hex chars) back into 68 raw bytes.
pub fn parse_p8_sfx_line(line: &str) -> (slot: [u8; 68])
    requires
        sfx_line_ok(line.spec_bytes()),
    ensures
        slot@ == sfx_slot_spec(line.spec_bytes()),
{
    let b = line.as_bytes();
    let slot = parse_sfx_bytes(b, 0);
    assert(b@.subrange(0, 168) =~= b@.take(168));
    proof {
        lemma_sfx_slot_prefix(b@);
    }
    slot
}

proof fn lemma_sfx_slot_prefix(b: Seq<u8>)
    requires
        b.len() >= 168,
    ensures
        sfx_slot_spec(b.subrange(0, 168)) == sfx_slot_spec(b),
{
    let t = b.subrange(0, 168);
    assert forall|k: int| 0 <= k < 68 implies sfx_slot_spec(t)[k] == sfx_slot_spec(b)[k] by {
        if k >= 64 {
            assert(t.subrange(2 * (k - 64), 2 * (k - 64) + 2) =~= b.subrange(2 * (k - 64), 2 * (k - 64) + 2));
        } else {
            let n = k / 2;
            let base = 8 + 5 * n;
            assert(t.subrange(base, base + 2) =~= b.subrange(base, base + 2));
            assert(t.subrange(base + 2, base + 3) =~= b.subrange(base + 2, base + 3));
            assert(t.subrange(base + 3, base + 4) =~= b.subrange(base + 3, base + 4));
            assert(t.subrange(base + 4, base + 5) =~= b.subrange(base + 4, base + 5));
        }
    }
    assert(sfx_slot_spec(t) =~= sfx_slot_spec(b));
}

/// A hexadecimal digit's byte reads back as its value.
pub(crate) proof fn lemma_hex_value_digit(d: nat)
    requires
        d < 16,
    ensures
        hex_value(hex_digit_byte(d)) == Some(d),
{
}

/// One hexadecimal digit reads back as its value.
pub proof fn lemma_parse_hex1(d: u8)
    requires
        d < 16,
    ensures
        parse_hex_u8(ascii_bytes(hex_digit_text(d as nat))) == d,
{
    lemma_hex_digit_text(d as nat);
    let t = ascii_bytes(hex_digit_text(d as nat));
    assert(t =~= seq![hex_digit_byte(d as nat)]);
    lemma_hex_value_digit(d as nat);
    assert(t.drop_last() =~= Seq::<u8>::empty());
    reveal_with_fuel(hex_digits_value, 2);
}

/// Two hexadecimal digits read back as the byte they were written from.
pub proof fn lemma_parse_hex2(b: u8)
    ensures
        parse_hex_u8(ascii_bytes(hex2(b))) == b,
{
    lemma_hex2_bytes(b);
    let t = ascii_bytes(hex2(b));
    let hi = (b / 16) as nat;
    let lo = (b % 16) as nat;
    lemma_hex_value_digit(hi);
    lemma_hex_value_digit(lo);
    assert(t.drop_last() =~= seq![hex_digit_byte(hi)]);
    assert(t.drop_last().drop_last() =~= Seq::<u8>::empty());
    reveal_with_fuel(hex_digits_value, 3);
    assert(hex_digits_value(t) == Some(hi * 16 + lo));
}

proof fn lemma_sfx_notes_text(d: Seq<u8>, k: nat, n: int)
    requires
        0 <= n < k,
        2 * k <= d.len(),
    ensures
        sfx_notes_text(d, k).len() == 5 * k,
        sfx_notes_text(d, k).subrange(5 * n, 5 * n + 5) == sfx_note_text(d[2 * n], d[2 * n + 1]),
    decreases k,
{
    lemma_note_text_len(d[2 * (k - 1)], d[2 * (k - 1) + 1]);
    lemma_notes_len(d, (k - 1) as nat);
    if n < k - 1 {
        lemma_sfx_notes_text(d, (k - 1) as nat, n);
        assert(sfx_notes_text(d, k).subrange(5 * n, 5 * n + 5) =~= sfx_notes_text(d, (k - 1) as nat).subrange(5 * n, 5 * n + 5));
    } else {
        assert(sfx_notes_text(d, k).subrange(5 * n, 5 * n + 5) =~= sfx_note_text(d[2 * n], d[2 * n + 1]));
    }
}

proof fn lemma_notes_len(d: Seq<u8>, k: nat)
    requires
        2 * k <= d.len(),
    ensures
        sfx_notes_text(d, k).len() == 5 * k,
    decreases k,
{
    if k > 0 {
        lemma_notes_len(d, (k - 1) as nat);
        lemma_note_text_len(d[2 * (k - 1)], d[2 * (k - 1) + 1]);
    }
}

proof fn lemma_note_text_len(b0: u8, b1: u8)
    ensures
        sfx_note_text(b0, b1).len() == 5,
{
    let pitch = b0 & 0x3Fu8;
    let wf = ((b0 >> 6u8) & 0x3u8) | ((b1 & 0x1u8) << 2u8);
    let custom = (b1 >> 7u8) & 0x1u8;
    let vol = (b1 >> 1u8) & 0x7u8;
    let eff = (b1 >> 4u8) & 0x7u8;
    assert((wf | (custom << 3u8)) < 16 && vol < 16 && eff < 16) by (bit_vector)
        requires
            wf == ((b0 >> 6u8) & 0x3u8) | ((b1 & 0x1u8) << 2u8),
            custom == (b1 >> 7u8) & 0x1u8,
            vol == (b1 >> 1u8) & 0x7u8,
            eff == (b1 >> 4u8) & 0x7u8,
    ;
    lemma_hex_digit_text((pitch / 16) as nat);
    lemma_hex_digit_text((pitch % 16) as nat);
    lemma_hex_digit_text((wf | (custom << 3u8)) as nat);
    lemma_hex_digit_text(vol as nat);
    lemma_hex_digit_text(eff as nat);
}

/// The sfx text of a slot reads back as the slot: parsing the line that
/// `bytes_to_sfx_hex` writes for 68 bytes gives those bytes.
pub proof fn sfx_line_roundtrip(d: Seq<u8>)
    requires
        d.len() == 68,
    ensures
        sfx_slot_spec(ascii_bytes(sfx_line_text(d))) == d,
{
    let text = sfx_line_text(d);
    let b = ascii_bytes(text);
    let head = hex2(d[64]) + hex2(d[65]) + hex2(d[66]) + hex2(d[67]);
    lemma_hex2_bytes(d[64]);
    lemma_hex2_bytes(d[65]);
    lemma_hex2_bytes(d[66]);
    lemma_hex2_bytes(d[67]);
    assert(head.len() == 8);
    assert(text == head + sfx_notes_text(d, 32));
    lemma_notes_len(d, 32);
    assert forall|k: int| 0 <= k < 68 implies #[trigger] sfx_slot_spec(b)[k] == d[k] by {
        if k >= 64 {
            let j = k - 64;
            assert(b.subrange(2 * j, 2 * j + 2) =~= ascii_bytes(hex2(d[k])));
            lemma_parse_hex2(d[k]);
        } else {
            let n = k / 2;
            let b0 = d[2 * n];
            let b1 = d[2 * n + 1];
            lemma_sfx_notes_text(d, 32, n);
            let note = sfx_note_text(b0, b1);
            assert(text.subrange(8 + 5 * n, 8 + 5 * n + 5) =~= note);
            let pitch = b0 & 0x3Fu8;
            let wf = ((b0 >> 6u8) & 0x3u8) | ((b1 & 0x1u8) << 2u8);
            let custom = (b1 >> 7u8) & 0x1u8;
            let vol = (b1 >> 1u8) & 0x7u8;
            let eff = (b1 >> 4u8) & 0x7u8;
            let wf_hex = wf | (custom << 3u8);
            assert(wf_hex < 16 && vol < 16 && eff < 16) by (bit_vector)
                requires
                    wf == ((b0 >> 6u8) & 0x3u8) | ((b1 & 0x1u8) << 2u8),
                    custom == (b1 >> 7u8) & 0x1u8,
                    vol == (b1 >> 1u8) & 0x7u8,
                    eff == (b1 >> 4u8) & 0x7u8,
                    wf_hex == wf | (custom << 3u8),
            ;
            lemma_hex2_bytes(pitch);
            lemma_hex_digit_text(wf_hex as nat);
            lemma_hex_digit_text(vol as nat);
            lemma_hex_digit_text(eff as nat);
            let base = 8 + 5 * n;
            assert(note == hex2(pitch) + hex_digit_text(wf_hex as nat) + hex_digit_text(vol as nat) + hex_digit_text(eff as nat));
            assert forall|i: int| 0 <= i < 5 implies #[trigger] b[base + i] == note[i] as u8 by {
                assert(text.subrange(base, base + 5)[i] == note[i]);
            }
            assert(b[base] == note[0] as u8 && b[base + 1] == note[1] as u8);
            assert(b[base + 2] == note[2] as u8 && b[base + 3] == note[3] as u8 && b[base + 4] == note[4] as u8);
            assert(b.subrange(base, base + 2) =~= ascii_bytes(hex2(pitch)));
            assert(b.subrange(base + 2, base + 3) =~= ascii_bytes(hex_digit_text(wf_hex as nat)));
            assert(b.subrange(base + 3, base + 4) =~= ascii_bytes(hex_digit_text(vol as nat)));
            assert(b.subrange(base + 4, base + 5) =~= ascii_bytes(hex_digit_text(eff as nat)));
            lemma_parse_hex2(pitch);
            lemma_parse_hex1(wf_hex);
            lemma_parse_hex1(vol);
            lemma_parse_hex1(eff);
            let w2 = wf_hex & 0x7u8;
            let c2 = (wf_hex >> 3u8) & 0x1u8;
            assert((pitch & 0x3Fu8) | ((w2 & 0x3u8) << 6u8) == b0 && ((w2 >> 2u8) & 0x1u8) | ((vol & 0x7u8) << 1u8) | ((eff
                & 0x7u8) << 4u8) | ((c2 & 0x1u8) << 7u8) == b1) by (bit_vector)
                requires
                    pitch == b0 & 0x3Fu8,
                    wf == ((b0 >> 6u8) & 0x3u8) | ((b1 & 0x1u8) << 2u8),
                    custom == (b1 >> 7u8) & 0x1u8,
                    vol == (b1 >> 1u8) & 0x7u8,
                    eff == (b1 >> 4u8) & 0x7u8,
                    wf_hex == wf | (custom << 3u8),
                    w2 == wf_hex & 0x7u8,
                    c2 == (wf_hex >> 3u8) & 0x1u8,
            ;
            assert(sfx_note_bytes(b, n) == (b0, b1));
            if k % 2 == 0 {
                assert(k == 2 * n);
            } else {
                assert(k == 2 * n + 1);
            }
        }
    }
    assert(sfx_slot_spec(b) =~= d);
}

} // verus!
