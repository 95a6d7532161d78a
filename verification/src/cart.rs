//! Reading the __sfx__ and __music__ sections back out of a cartridge's text.
//!
//! Everything is stated on the UTF-8 bytes of the text. A section starts after
//! its header line and ends before the next line that starts with `__`; its
//! text is trimmed of white space, split into lines at `\n`, and each line is
//! trimmed again before it is read.

use vstd::prelude::*;
use vstd::string::StringSliceAdditionalSpecFns;
use crate::music::{
    char_boundary, lemma_parse_hex2, music_line_text, parse_hex_field, parse_hex_u8, parse_sfx_bytes, sfx_cut, sfx_line_ok,
    sfx_slot_spec,
};
use crate::text::{ascii_bytes, hex2, hex_digit_text, lemma_hex2_bytes, lemma_hex_digit_text};
use crate::music::{joined, music_hex_spec, padded, sfx_hex_spec, sfx_line_roundtrip, sfx_line_text, sfx_note_text, sfx_notes_text};
use crate::music::{hex_row, hex_rows_spec, hex_value, lemma_hex_value_digit};
use crate::text::hex_digit_byte;

verus! {

/// The first position at or after `from` where `pat` occurs in `t`.
pub open spec fn find_at(t: Seq<u8>, pat: Seq<u8>, from: int) -> Option<int>
    decreases t.len() + 1 - from,
{
    if from < 0 || from + pat.len() > t.len() {
        None
    } else if t.subrange(from, from + pat.len()) == pat {
        Some(from)
    } else {
        find_at(t, pat, from + 1)
    }
}

/// The first position where `pat` occurs in `t`.
pub open spec fn find(t: Seq<u8>, pat: Seq<u8>) -> Option<int> {
    find_at(t, pat, 0)
}

/// `__sfx__` and a newline.
pub open spec fn sfx_header() -> Seq<u8> {
    seq![95u8, 95, 115, 102, 120, 95, 95, 10]
}

/// `__music__` and a newline.
pub open spec fn music_header() -> Seq<u8> {
    seq![95u8, 95, 109, 117, 115, 105, 99, 95, 95, 10]
}

/// A newline followed by `__`: where the next section starts.
pub open spec fn section_end() -> Seq<u8> {
    seq![10u8, 95, 95]
}

/// The text of the section after `header`, up to the next section, untrimmed.
pub open spec fn section_body(t: Seq<u8>, header: Seq<u8>) -> Option<Seq<u8>> {
    match find(t, header) {
        None => None,
        Some(s) => {
            let after = t.skip(s + header.len());
            let end = match find(after, section_end()) {
                Some(e) => e,
                None => after.len() as int,
            };
            Some(after.take(end))
        },
    }
}

/// A one-byte white-space character.
pub open spec fn ws1(c: u8) -> bool {
    (9 <= c <= 13) || c == 32
}

/// A two-byte white-space character (U+0085, U+00A0).
pub open spec fn ws2(a: u8, b: u8) -> bool {
    a == 0xC2 && (b == 0x85 || b == 0xA0)
}

/// A three-byte white-space character (U+1680, U+2000 to U+200A, U+2028,
/// U+2029, U+202F, U+205F, U+3000).
pub open spec fn ws3(a: u8, b: u8, c: u8) -> bool {
    ||| (a == 0xE1 && b == 0x9A && c == 0x80)
    ||| (a == 0xE2 && b == 0x80 && ((0x80 <= c <= 0x8A) || c == 0xA8 || c == 0xA9 || c == 0xAF))
    ||| (a == 0xE2 && b == 0x81 && c == 0x9F)
    ||| (a == 0xE3 && b == 0x80 && c == 0x80)
}

/// Length of the white-space character that starts `b`, 0 if none does.
pub open spec fn ws_front(b: Seq<u8>) -> nat {
    if b.len() >= 1 && ws1(b[0]) {
        1
    } else if b.len() >= 2 && ws2(b[0], b[1]) {
        2
    } else if b.len() >= 3 && ws3(b[0], b[1], b[2]) {
        3
    } else {
        0
    }
}

/// Length of the white-space character that ends `b`, 0 if none does.
pub open spec fn ws_back(b: Seq<u8>) -> nat {
    let n = b.len() as int;
    if n >= 1 && ws1(b[n - 1]) {
        1
    } else if n >= 2 && ws2(b[n - 2], b[n - 1]) {
        2
    } else if n >= 3 && ws3(b[n - 3], b[n - 2], b[n - 1]) {
        3
    } else {
        0
    }
}

/// `b` without its leading white space.
pub open spec fn trim_start(b: Seq<u8>) -> Seq<u8>
    decreases b.len(),
{
    if ws_front(b) == 0 {
        b
    } else {
        trim_start(b.skip(ws_front(b) as int))
    }
}

/// `b` without its trailing white space.
pub open spec fn trim_end(b: Seq<u8>) -> Seq<u8>
    decreases b.len(),
{
    if ws_back(b) == 0 {
        b
    } else {
        trim_end(b.take(b.len() - ws_back(b)))
    }
}

/// `b` without white space at either end.
pub open spec fn trim(b: Seq<u8>) -> Seq<u8> {
    trim_end(trim_start(b))
}

/// The newline as a pattern.
pub open spec fn newline() -> Seq<u8> {
    seq![10u8]
}

/// Length of the first line of `b` (up to its first newline, or all of it).
pub open spec fn first_line_len(b: Seq<u8>) -> int {
    match find(b, newline()) {
        Some(j) => j,
        None => b.len() as int,
    }
}

/// What follows the first line of `b` and its newline.
pub open spec fn after_first_line(b: Seq<u8>) -> Seq<u8> {
    match find(b, newline()) {
        Some(j) => b.skip(j + 1),
        None => seq![],
    }
}

/// `b` without its first `n` lines.
pub open spec fn drop_lines(b: Seq<u8>, n: nat) -> Seq<u8>
    decreases n,
{
    if n == 0 {
        b
    } else {
        after_first_line(drop_lines(b, (n - 1) as nat))
    }
}

/// Whether `b` has a line numbered `i` (from 0): a text that ends in a
/// newline has no empty line after it.
pub open spec fn has_line(b: Seq<u8>, i: nat) -> bool {
    drop_lines(b, i).len() > 0
}

/// Line `i` of `b`, without its newline.
pub open spec fn line_at(b: Seq<u8>, i: nat) -> Seq<u8> {
    let r = drop_lines(b, i);
    r.take(first_line_len(r))
}

/// Line `i` of a section's trimmed text, trimmed.
pub open spec fn section_line(t: Seq<u8>, header: Seq<u8>, i: nat) -> Seq<u8> {
    trim(line_at(trim(section_body(t, header).unwrap()), i))
}

/// Whether a section has a line `i`.
pub open spec fn section_has_line(t: Seq<u8>, header: Seq<u8>, i: nat) -> bool {
    section_body(t, header) is Some && has_line(trim(section_body(t, header).unwrap()), i)
}

/// Whether sfx slot `i` is read from the cart: its line exists and is 168 bytes long.
pub open spec fn sfx_slot_read(t: Seq<u8>, i: nat) -> bool {
    i < 64 && section_has_line(t, sfx_header(), i) && section_line(t, sfx_header(), i).len() == 168
}

/// Whether music pattern `i` is read from the cart: its line exists and has at least 10 bytes.
pub open spec fn music_pattern_read(t: Seq<u8>, i: nat) -> bool {
    i < 64 && section_has_line(t, music_header(), i) && section_line(t, music_header(), i).len() >= 10
}

/// The 64 sfx slots of 68 bytes read from a cart's text; slots without a
/// line of 168 bytes stay zero.
pub open spec fn cart_sfx_spec(t: Seq<u8>) -> Seq<u8> {
    Seq::new(68 * 64, |k: int| if sfx_slot_read(t, (k / 68) as nat) {
        sfx_slot_spec(section_line(t, sfx_header(), (k / 68) as nat))[k % 68]
    } else {
        0u8
    })
}

/// Byte `j` of a music pattern line `l`: channel `j` (hex at 3 + 2j) with bit
/// `j` of the flag field (hex at 0) moved to bit 7.
pub open spec fn music_byte(l: Seq<u8>, j: int) -> u8 {
    let flag = parse_hex_u8(l.subrange(0, 2));
    let ch = parse_hex_u8(l.subrange(3 + 2 * j, 5 + 2 * j));
    if j == 0 {
        ch | ((flag & 1u8) << 7u8)
    } else if j == 1 {
        ch | ((flag & 2u8) << 6u8)
    } else if j == 2 {
        ch | ((flag & 4u8) << 5u8)
    } else {
        ch | ((flag & 8u8) << 4u8)
    }
}

/// The 64 music patterns of 4 bytes read from a cart's text; patterns
/// without a line of at least 10 bytes stay zero.
pub open spec fn cart_music_spec(t: Seq<u8>) -> Seq<u8> {
    Seq::new(256, |k: int| if music_pattern_read(t, (k / 4) as nat) {
        music_byte(section_line(t, music_header(), (k / 4) as nat), k % 4)
    } else {
        0u8
    })
}

/// Byte offsets at which a music line is cut.
pub open spec fn music_cut(k: int) -> bool {
    k == 0 || k == 2 || k == 3 || k == 5 || k == 7 || k == 9 || k == 11
}

/// A music line the parser can cut: at least 11 bytes, each cut on a character boundary.
pub open spec fn music_line_ok(l: Seq<u8>) -> bool {
    &&& l.len() >= 11
    &&& forall|k: int| music_cut(k) ==> #[trigger] char_boundary(l, k)
}

/// Every sfx line that is read can be cut where the parser cuts it.
pub open spec fn cart_sfx_ok(t: Seq<u8>) -> bool {
    forall|i: nat| #[trigger] sfx_slot_read(t, i) ==> sfx_line_ok(section_line(t, sfx_header(), i))
}

/// Every music line that is read can be cut where the parser cuts it.
pub open spec fn cart_music_ok(t: Seq<u8>) -> bool {
    forall|i: nat| #[trigger] music_pattern_read(t, i) ==> music_line_ok(section_line(t, music_header(), i))
}

/// Both sections of a cart's text can be read without cutting a character.
pub open spec fn music_cart_ok(t: Seq<u8>) -> bool {
    cart_sfx_ok(t) && cart_music_ok(t)
}

proof fn lemma_find_at_bounds(t: Seq<u8>, pat: Seq<u8>, from: int)
    ensures
        match find_at(t, pat, from) {
            Some(j) => from <= j && j + pat.len() <= t.len() && t.subrange(j, j + pat.len()) == pat,
            None => true,
        },
    decreases t.len() + 1 - from,
{
    if from < 0 || from + pat.len() > t.len() {
    } else if t.subrange(from, from + pat.len()) == pat {
    } else {
        assert(pat.len() > 0) by {
            if pat.len() == 0 {
                assert(t.subrange(from, from) =~= pat);
            }
        }
        lemma_find_at_bounds(t, pat, from + 1);
    }
}

fn matches_at(b: &[u8], i: usize, pat: &[u8]) -> (r: bool)
    requires
        i + pat.len() <= b.len(),
    ensures
        r == (b@.subrange(i as int, i + pat.len()) == pat@),
{
    let mut k: usize = 0;
    while k < pat.len()
        invariant
            k <= pat.len(),
            i + pat.len() <= b.len(),
            forall|m: int| 0 <= m < k ==> b[i + m] == pat[m],
        decreases pat.len() - k,
    {
        if b[i + k] != pat[k] {
            assert(b@.subrange(i as int, i + pat.len())[k as int] != pat@[k as int]);
            return false;
        }
        k += 1;
    }
    assert(b@.subrange(i as int, i + pat.len()) =~= pat@);
    true
}

/// The first occurrence of `pat` in `b[lo..hi]`, as a position in `b`.
fn find_in(b: &[u8], lo: usize, hi: usize, pat: &[u8]) -> (r: Option<usize>)
    requires
        lo <= hi <= b.len(),
    ensures
        match find(b@.subrange(lo as int, hi as int), pat@) {
            Some(j) => 0 <= j && r == Some((lo + j) as usize) && lo + j + pat.len() <= hi,
            None => r is None,
        },
        r matches Some(i) ==> lo <= i && i + pat.len() <= hi,
{
    let ghost s = b@.subrange(lo as int, hi as int);
    proof {
        lemma_find_at_bounds(s, pat@, 0);
    }
    if pat.len() == 0 {
        assert(s.subrange(0, 0) =~= pat@);
        return Some(lo);
    }
    let mut i: usize = lo;
    while pat.len() <= hi - i
        invariant
            lo <= i <= hi <= b.len(),
            pat.len() >= 1,
            s == b@.subrange(lo as int, hi as int),
            find(s, pat@) == find_at(s, pat@, i - lo),
        decreases hi - i,
    {
        assert(s.subrange(i - lo, i - lo + pat.len()) =~= b@.subrange(i as int, i + pat.len()));
        if matches_at(b, i, pat) {
            return Some(i);
        }
        i += 1;
    }
    None
}

fn is_ws3(a: u8, b: u8, c: u8) -> (r: bool)
    ensures
        r == ws3(a, b, c),
{
    (a == 0xE1 && b == 0x9A && c == 0x80)
        || (a == 0xE2 && b == 0x80 && ((0x80 <= c && c <= 0x8A) || c == 0xA8 || c == 0xA9 || c == 0xAF))
        || (a == 0xE2 && b == 0x81 && c == 0x9F)
        || (a == 0xE3 && b == 0x80 && c == 0x80)
}

fn ws_front_at(b: &[u8], lo: usize, hi: usize) -> (k: usize)
    requires
        lo <= hi <= b.len(),
    ensures
        k == ws_front(b@.subrange(lo as int, hi as int)),
        k <= hi - lo,
{
    let n = hi - lo;
    if n >= 1 && ((9 <= b[lo] && b[lo] <= 13) || b[lo] == 32) {
        1
    } else if n >= 2 && b[lo] == 0xC2 && (b[lo + 1] == 0x85 || b[lo + 1] == 0xA0) {
        2
    } else if n >= 3 && is_ws3(b[lo], b[lo + 1], b[lo + 2]) {
        3
    } else {
        0
    }
}

fn ws_back_at(b: &[u8], lo: usize, hi: usize) -> (k: usize)
    requires
        lo <= hi <= b.len(),
    ensures
        k == ws_back(b@.subrange(lo as int, hi as int)),
        k <= hi - lo,
{
    let n = hi - lo;
    if n >= 1 && ((9 <= b[hi - 1] && b[hi - 1] <= 13) || b[hi - 1] == 32) {
        1
    } else if n >= 2 && b[hi - 2] == 0xC2 && (b[hi - 1] == 0x85 || b[hi - 1] == 0xA0) {
        2
    } else if n >= 3 && is_ws3(b[hi - 3], b[hi - 2], b[hi - 1]) {
        3
    } else {
        0
    }
}

/// The bounds of `b[lo..hi]` trimmed of white space at both ends.
fn trim_range(b: &[u8], lo: usize, hi: usize) -> (r: (usize, usize))
    requires
        lo <= hi <= b.len(),
    ensures
        lo <= r.0 <= r.1 <= hi,
        b@.subrange(r.0 as int, r.1 as int) == trim(b@.subrange(lo as int, hi as int)),
{
    let mut cur = lo;
    loop
        invariant
            lo <= cur <= hi <= b.len(),
            trim_start(b@.subrange(lo as int, hi as int)) == trim_start(b@.subrange(cur as int, hi as int)),
        ensures
            lo <= cur <= hi,
            trim_start(b@.subrange(lo as int, hi as int)) == b@.subrange(cur as int, hi as int),
        decreases hi - cur,
    {
        let k = ws_front_at(b, cur, hi);
        if k == 0 {
            break;
        }
        assert(b@.subrange(cur as int, hi as int).skip(k as int) =~= b@.subrange(cur + k, hi as int));
        cur = cur + k;
    }
    let mut end = hi;
    loop
        invariant
            lo <= cur <= end <= hi <= b.len(),
            trim_start(b@.subrange(lo as int, hi as int)) == b@.subrange(cur as int, hi as int),
            trim_end(b@.subrange(cur as int, hi as int)) == trim_end(b@.subrange(cur as int, end as int)),
        ensures
            cur <= end <= hi,
            trim_end(b@.subrange(cur as int, hi as int)) == b@.subrange(cur as int, end as int),
        decreases end - cur,
    {
        let k = ws_back_at(b, cur, end);
        if k == 0 {
            break;
        }
        assert(b@.subrange(cur as int, end as int).take(end - cur - k) =~= b@.subrange(cur as int, end - k));
        end = end - k;
    }
    (cur, end)
}

/// Where the text of the section after `header` lies in `b`, untrimmed.
fn section_range(b: &[u8], header: &[u8]) -> (r: Option<(usize, usize)>)
    ensures
        match section_body(b@, header@) {
            None => r is None,
            Some(body) => r matches Some((s, e)) && s <= e <= b.len() && b@.subrange(s as int, e as int) == body,
        },
{
    assert(b@.subrange(0, b.len() as int) =~= b@);
    match find_in(b, 0, b.len(), header) {
        None => None,
        Some(s) => {
            assert(find(b@, header@) == Some(s as int));
            let start = s + header.len();
            let end_pat: [u8; 3] = [10, 95, 95];
            assert(end_pat@ =~= section_end());
            let ghost after = b@.skip(start as int);
            assert(after =~= b@.subrange(start as int, b.len() as int));
            let found = find_in(b, start, b.len(), end_pat.as_slice());
            let e = match found {
                Some(e) => e,
                None => b.len(),
            };
            let ghost end_rel: int = match find(after, section_end()) {
                Some(x) => x,
                None => after.len() as int,
            };
            assert(e - start == end_rel);
            assert(after.take(end_rel) =~= b@.subrange(start as int, e as int));
            Some((start, e))
        },
    }
}

proof fn lemma_no_line_after(b: Seq<u8>, n: nat, m: nat)
    requires
        drop_lines(b, n).len() == 0,
        n <= m,
    ensures
        !has_line(b, m),
    decreases m - n,
{
    if m > n {
        lemma_no_line_after(b, n, (m - 1) as nat);
        assert(find(drop_lines(b, (m - 1) as nat), newline()) is None);
    }
}

proof fn lemma_line_step(t: Seq<u8>, pos: int, be: int, found: Option<usize>, line_end: int, next: int)
    requires
        0 <= pos < be <= t.len() <= usize::MAX,
        match find(t.subrange(pos, be), newline()) {
            Some(j) => 0 <= j && found == Some((pos + j) as usize) && pos + j + 1 <= be,
            None => found is None,
        },
        line_end == match found {
            Some(j) => j as int,
            None => be,
        },
        next == match found {
            Some(j) => j + 1,
            None => be,
        },
    ensures
        pos <= line_end < next <= be || (line_end == next && next == be),
        t.subrange(pos, be).take(first_line_len(t.subrange(pos, be))) == t.subrange(pos, line_end),
        after_first_line(t.subrange(pos, be)) == t.subrange(next, be),
{
    let r = t.subrange(pos, be);
    match find(r, newline()) {
        Some(j) => {
            assert(r.take(j) =~= t.subrange(pos, line_end));
            assert(r.skip(j + 1) =~= t.subrange(next, be));
        },
        None => {
            assert(r.take(r.len() as int) =~= t.subrange(pos, line_end));
            assert(t.subrange(next, be) =~= seq![]);
        },
    }
}

fn boundary_at(b: &[u8], ls: usize, le: usize, k: usize) -> (r: bool)
    requires
        ls <= le <= b.len(),
        k <= le - ls,
    ensures
        r == char_boundary(b@.subrange(ls as int, le as int), k as int),
{
    k == 0 || k == le - ls || b[ls + k] < 0x80 || b[ls + k] >= 0xC0
}

fn is_sfx_cut(k: usize) -> (r: bool)
    ensures
        r == sfx_cut(k as int),
{
    (k <= 8 && k % 2 == 0) || (8 <= k && k <= 168 && ((k - 8) % 5 == 0 || (k - 8) % 5 == 2 || (k - 8) % 5 == 3
        || (k - 8) % 5 == 4))
}

fn sfx_cuts_ok(b: &[u8], ls: usize) -> (r: bool)
    requires
        ls + 168 <= b.len(),
    ensures
        r == sfx_line_ok(b@.subrange(ls as int, ls + 168)),
{
    let ghost l = b@.subrange(ls as int, ls + 168);
    let mut k: usize = 0;
    while k <= 168
        invariant
            k <= 169,
            ls + 168 <= b.len(),
            l == b@.subrange(ls as int, ls + 168),
            forall|m: int| 0 <= m < k && sfx_cut(m) ==> #[trigger] char_boundary(l, m),
        decreases 169 - k,
    {
        if is_sfx_cut(k) && !boundary_at(b, ls, ls + 168, k) {
            return false;
        }
        k += 1;
    }
    true
}

fn music_cuts_ok(b: &[u8], ls: usize, le: usize) -> (r: bool)
    requires
        ls <= le <= b.len(),
    ensures
        r == music_line_ok(b@.subrange(ls as int, le as int)),
{
    let ghost l = b@.subrange(ls as int, le as int);
    if le - ls < 11 {
        return false;
    }
    let ok = boundary_at(b, ls, le, 2) && boundary_at(b, ls, le, 3) && boundary_at(b, ls, le, 5)
        && boundary_at(b, ls, le, 7) && boundary_at(b, ls, le, 9) && boundary_at(b, ls, le, 11);
    proof {
        if ok {
            assert forall|m: int| music_cut(m) implies #[trigger] char_boundary(l, m) by {}
        } else {
            assert(!char_boundary(l, 2) || !char_boundary(l, 3) || !char_boundary(l, 5) || !char_boundary(l, 7)
                || !char_boundary(l, 9) || !char_boundary(l, 11));
        }
    }
    ok
}

/// The sfx slots read from the cart's text, `None` where a line read as a
/// slot cannot be cut where the parser cuts it.
fn read_sfx(b: &[u8]) -> (r: Option<Vec<u8>>)
    ensures
        r is Some <==> cart_sfx_ok(b@),
        r matches Some(buf) ==> buf@ == cart_sfx_spec(b@),
{
    let header: [u8; 8] = [95, 95, 115, 102, 120, 95, 95, 10];
    assert(header@ =~= sfx_header());
    let nl: [u8; 1] = [10];
    assert(nl@ =~= newline());
    let mut buf: Vec<u8> = vec![0u8; 4352];
    let range = section_range(b, header.as_slice());
    let (s, e) = match range {
        None => {
            assert(buf@ =~= cart_sfx_spec(b@));
            return Some(buf);
        },
        Some(r) => r,
    };
    let (bs, be) = trim_range(b, s, e);
    let ghost body = b@.subrange(bs as int, be as int);
    let mut pos = bs;
    let mut i: usize = 0;
    while pos < be && i < 64
        invariant
            bs <= pos <= be <= b.len(),
            i <= 64,
            nl@ == newline(),
            section_body(b@, sfx_header()) is Some,
            body == trim(section_body(b@, sfx_header()).unwrap()),
            drop_lines(body, i as nat) == b@.subrange(pos as int, be as int),
            buf.len() == 4352,
            forall|k: int| 0 <= k < 68 * i ==> buf@[k] == #[trigger] cart_sfx_spec(b@)[k],
            forall|k: int| 68 * i <= k < 4352 ==> buf@[k] == 0,
            forall|j: nat| j < i ==> (#[trigger] sfx_slot_read(b@, j) ==> sfx_line_ok(section_line(b@, sfx_header(), j))),
        decreases be - pos,
    {
        let found = find_in(b, pos, be, nl.as_slice());
        let line_end = match found {
            Some(j) => j,
            None => be,
        };
        let next = match found {
            Some(j) => j + 1,
            None => be,
        };
        proof {
            lemma_line_step(b@, pos as int, be as int, found, line_end as int, next as int);
        }
        let (ls, le) = trim_range(b, pos, line_end);
        let ghost line = section_line(b@, sfx_header(), i as nat);
        assert(section_has_line(b@, sfx_header(), i as nat));
        assert(line == b@.subrange(ls as int, le as int));
        let base = i * 68;
        if le - ls == 168 {
            assert(sfx_slot_read(b@, i as nat));
            if !sfx_cuts_ok(b, ls) {
                return None;
            }
            let slot = parse_sfx_bytes(b, ls);
            assert(b@.subrange(ls as int, ls + 168) =~= line);
            let mut m: usize = 0;
            while m < 68
                invariant
                    m <= 68,
                    i < 64,
                    base == i * 68,
                    buf.len() == 4352,
                    slot@ == sfx_slot_spec(line),
                    sfx_slot_read(b@, i as nat),
                    line == section_line(b@, sfx_header(), i as nat),
                    forall|k: int| 0 <= k < base ==> buf@[k] == #[trigger] cart_sfx_spec(b@)[k],
                    forall|k: int| base <= k < base + m ==> buf@[k] == #[trigger] cart_sfx_spec(b@)[k],
                    forall|k: int| base + m <= k < 4352 ==> buf@[k] == 0,
                decreases 68 - m,
            {
                buf.set(base + m, slot[m]);
                assert((base + m) / 68 == i && (base + m) % 68 == m) by (nonlinear_arith)
                    requires
                        base == i * 68,
                        m < 68,
                ;
                m += 1;
            }
        } else {
            assert(!sfx_slot_read(b@, i as nat));
            assert forall|k: int| base <= k < base + 68 implies #[trigger] cart_sfx_spec(b@)[k] == 0 by {
                assert(k / 68 == i) by (nonlinear_arith)
                    requires
                        base == i * 68,
                        base <= k < base + 68,
                ;
            }
        }
        pos = next;
        i += 1;
    }
    proof {
        if i < 64 {
            assert forall|j: nat| i <= j implies !#[trigger] has_line(body, j) by {
                lemma_no_line_after(body, i as nat, j);
            }
        }
        assert forall|k: int| 68 * i <= k < 4352 implies #[trigger] cart_sfx_spec(b@)[k] == 0 by {
            assert(i <= k / 68 < 64) by (nonlinear_arith)
                requires
                    68 * i <= k < 4352,
            ;
            assert(!has_line(body, (k / 68) as nat));
        }
        assert forall|j: nat| #[trigger] sfx_slot_read(b@, j) implies sfx_line_ok(section_line(b@, sfx_header(), j)) by {
            if j >= i {
                assert(!has_line(body, j));
            }
        }
    }
    assert(buf@ =~= cart_sfx_spec(b@));
    Some(buf)
}

fn music_pattern_bytes(b: &[u8], ls: usize, le: usize) -> (r: [u8; 4])
    requires
        ls + 11 <= le <= b.len(),
    ensures
        forall|j: int| 0 <= j < 4 ==> r@[j] == #[trigger] music_byte(b@.subrange(ls as int, le as int), j),
{
    let ghost l = b@.subrange(ls as int, le as int);
    let flag = parse_hex_field(b, ls, ls + 2);
    let ch0 = parse_hex_field(b, ls + 3, ls + 5);
    let ch1 = parse_hex_field(b, ls + 5, ls + 7);
    let ch2 = parse_hex_field(b, ls + 7, ls + 9);
    let ch3 = parse_hex_field(b, ls + 9, ls + 11);
    assert(b@.subrange(ls as int, ls + 2) =~= l.subrange(0, 2));
    assert(b@.subrange(ls + 3, ls + 5) =~= l.subrange(3, 5));
    assert(b@.subrange(ls + 5, ls + 7) =~= l.subrange(5, 7));
    assert(b@.subrange(ls + 7, ls + 9) =~= l.subrange(7, 9));
    assert(b@.subrange(ls + 9, ls + 11) =~= l.subrange(9, 11));
    let r: [u8; 4] = [
        ch0 | ((flag & 1) << 7u8),
        ch1 | ((flag & 2) << 6u8),
        ch2 | ((flag & 4) << 5u8),
        ch3 | ((flag & 8) << 4u8),
    ];
    assert(r@[0] == music_byte(l, 0));
    assert(r@[1] == music_byte(l, 1));
    assert(r@[2] == music_byte(l, 2));
    assert(r@[3] == music_byte(l, 3));
    r
}

/// The music patterns read from the cart's text, `None` where a line read
/// as a pattern cannot be cut where the parser cuts it.
fn read_music(b: &[u8]) -> (r: Option<Vec<u8>>)
    ensures
        r is Some <==> cart_music_ok(b@),
        r matches Some(buf) ==> buf@ == cart_music_spec(b@),
{
    let header: [u8; 10] = [95, 95, 109, 117, 115, 105, 99, 95, 95, 10];
    assert(header@ =~= music_header());
    let nl: [u8; 1] = [10];
    assert(nl@ =~= newline());
    let mut buf: Vec<u8> = vec![0u8; 256];
    let range = section_range(b, header.as_slice());
    let (s, e) = match range {
        None => {
            assert(buf@ =~= cart_music_spec(b@));
            return Some(buf);
        },
        Some(r) => r,
    };
    let (bs, be) = trim_range(b, s, e);
    let ghost body = b@.subrange(bs as int, be as int);
    let mut pos = bs;
    let mut i: usize = 0;
    while pos < be && i < 64
        invariant
            bs <= pos <= be <= b.len(),
            i <= 64,
            nl@ == newline(),
            section_body(b@, music_header()) is Some,
            body == trim(section_body(b@, music_header()).unwrap()),
            drop_lines(body, i as nat) == b@.subrange(pos as int, be as int),
            buf.len() == 256,
            forall|k: int| 0 <= k < 4 * i ==> buf@[k] == #[trigger] cart_music_spec(b@)[k],
            forall|k: int| 4 * i <= k < 256 ==> buf@[k] == 0,
            forall|j: nat| j < i ==> (#[trigger] music_pattern_read(b@, j) ==> music_line_ok(section_line(b@, music_header(), j))),
        decreases be - pos,
    {
        let found = find_in(b, pos, be, nl.as_slice());
        let line_end = match found {
            Some(j) => j,
            None => be,
        };
        let next = match found {
            Some(j) => j + 1,
            None => be,
        };
        proof {
            lemma_line_step(b@, pos as int, be as int, found, line_end as int, next as int);
        }
        let (ls, le) = trim_range(b, pos, line_end);
        let ghost line = section_line(b@, music_header(), i as nat);
        assert(section_has_line(b@, music_header(), i as nat));
        assert(line == b@.subrange(ls as int, le as int));
        let base = i * 4;
        if le - ls >= 10 {
            assert(music_pattern_read(b@, i as nat));
            if !music_cuts_ok(b, ls, le) {
                return None;
            }
            let pat = music_pattern_bytes(b, ls, le);
            let mut m: usize = 0;
            while m < 4
                invariant
                    m <= 4,
                    i < 64,
                    base == i * 4,
                    buf.len() == 256,
                    forall|j: int| 0 <= j < 4 ==> pat@[j] == #[trigger] music_byte(line, j),
                    music_pattern_read(b@, i as nat),
                    line == section_line(b@, music_header(), i as nat),
                    forall|k: int| 0 <= k < base ==> buf@[k] == #[trigger] cart_music_spec(b@)[k],
                    forall|k: int| base <= k < base + m ==> buf@[k] == #[trigger] cart_music_spec(b@)[k],
                    forall|k: int| base + m <= k < 256 ==> buf@[k] == 0,
                decreases 4 - m,
            {
                buf.set(base + m, pat[m]);
                assert((base + m) / 4 == i && (base + m) % 4 == m) by (nonlinear_arith)
                    requires
                        base == i * 4,
                        m < 4,
                ;
                assert(pat@[m as int] == music_byte(line, m as int));
                m += 1;
            }
        } else {
            assert(!music_pattern_read(b@, i as nat));
            assert forall|k: int| base <= k < base + 4 implies #[trigger] cart_music_spec(b@)[k] == 0 by {
                assert(k / 4 == i) by (nonlinear_arith)
                    requires
                        base == i * 4,
                        base <= k < base + 4,
                ;
            }
        }
        pos = next;
        i += 1;
    }
    proof {
        if i < 64 {
            assert forall|j: nat| i <= j implies !#[trigger] has_line(body, j) by {
                lemma_no_line_after(body, i as nat, j);
            }
        }
        assert forall|k: int| 4 * i <= k < 256 implies #[trigger] cart_music_spec(b@)[k] == 0 by {
            assert(i <= k / 4 < 64) by (nonlinear_arith)
                requires
                    4 * i <= k < 256,
            ;
            assert(!has_line(body, (k / 4) as nat));
        }
        assert forall|j: nat| #[trigger] music_pattern_read(b@, j) implies music_line_ok(section_line(b@, music_header(), j)) by {
            if j >= i {
                assert(!has_line(body, j));
            }
        }
    }
    assert(buf@ =~= cart_music_spec(b@));
    Some(buf)
}

/// Read the __sfx__ and __music__ sections of a cart's text: 64 sfx slots of
/// 68 bytes and 64 music patterns of 4 bytes. A missing section, a missing
/// line or a line of the wrong length leaves its slot or pattern zero.
pub fn parse_music_cart(text: &str) -> (out: (Vec<u8>, Vec<u8>))
    requires
        music_cart_ok(text.spec_bytes()),
    ensures
        out.0@ == cart_sfx_spec(text.spec_bytes()),
        out.1@ == cart_music_spec(text.spec_bytes()),
{
    let b = text.as_bytes();
    let sfx = read_sfx(b);
    let music = read_music(b);
    (sfx.unwrap(), music.unwrap())
}

/// `parse_music_cart` where every line it reads can be cut where it is
/// read, `None` where a line would be cut inside a character.
pub fn try_parse_music_cart(text: &str) -> (out: Option<(Vec<u8>, Vec<u8>)>)
    ensures
        out is Some <==> music_cart_ok(text.spec_bytes()),
        out matches Some(p) ==> p.0@ == cart_sfx_spec(text.spec_bytes()) && p.1@ == cart_music_spec(text.spec_bytes()),
{
    let b = text.as_bytes();
    match (read_sfx(b), read_music(b)) {
        (Some(sfx), Some(music)) => Some((sfx, music)),
        _ => None,
    }
}

/// The music text of a pattern reads back as the pattern: each of the four
/// bytes is its channel with the loop flag of its bit 7.
pub proof fn music_line_roundtrip(b0: u8, b1: u8, b2: u8, b3: u8)
    ensures
        music_byte(ascii_bytes(music_line_text(b0, b1, b2, b3)), 0) == b0,
        music_byte(ascii_bytes(music_line_text(b0, b1, b2, b3)), 1) == b1,
        music_byte(ascii_bytes(music_line_text(b0, b1, b2, b3)), 2) == b2,
        music_byte(ascii_bytes(music_line_text(b0, b1, b2, b3)), 3) == b3,
{
    let flag = ((b0 >> 7u8) & 1u8) | (((b1 >> 7u8) & 1u8) << 1u8) | (((b2 >> 7u8) & 1u8) << 2u8) | (((b3 >> 7u8) & 1u8) << 3u8);
    let c0 = b0 & 0x7Fu8;
    let c1 = b1 & 0x7Fu8;
    let c2 = b2 & 0x7Fu8;
    let c3 = b3 & 0x7Fu8;
    let text = music_line_text(b0, b1, b2, b3);
    reveal_strlit(" ");
    lemma_hex2_bytes(flag);
    lemma_hex2_bytes(c0);
    lemma_hex2_bytes(c1);
    lemma_hex2_bytes(c2);
    lemma_hex2_bytes(c3);
    assert(text == hex2(flag) + " "@ + hex2(c0) + hex2(c1) + hex2(c2) + hex2(c3));
    let t = ascii_bytes(text);
    assert(t.subrange(0, 2) =~= ascii_bytes(hex2(flag)));
    assert(t.subrange(3, 5) =~= ascii_bytes(hex2(c0)));
    assert(t.subrange(5, 7) =~= ascii_bytes(hex2(c1)));
    assert(t.subrange(7, 9) =~= ascii_bytes(hex2(c2)));
    assert(t.subrange(9, 11) =~= ascii_bytes(hex2(c3)));
    lemma_parse_hex2(flag);
    lemma_parse_hex2(c0);
    lemma_parse_hex2(c1);
    lemma_parse_hex2(c2);
    lemma_parse_hex2(c3);
    assert(c0 | ((flag & 1u8) << 7u8) == b0 && c1 | ((flag & 2u8) << 6u8) == b1 && c2 | ((flag & 4u8) << 5u8) == b2 && c3 | ((
    flag & 8u8) << 4u8) == b3) by (bit_vector)
        requires
            flag == ((b0 >> 7u8) & 1u8) | (((b1 >> 7u8) & 1u8) << 1u8) | (((b2 >> 7u8) & 1u8) << 2u8) | (((b3 >> 7u8) & 1u8) << 3u8),
            c0 == b0 & 0x7Fu8,
            c1 == b1 & 0x7Fu8,
            c2 == b2 & 0x7Fu8,
            c3 == b3 & 0x7Fu8,
    ;
}

/// A lower-case hexadecimal digit byte.
pub open spec fn hex_byte(c: u8) -> bool {
    (48 <= c <= 57) || (97 <= c <= 102)
}

/// `k` lines of `len` bytes, each followed by a newline but the last, with
/// no newline inside a line.
pub open spec fn line_layout(b: Seq<u8>, len: int, k: int) -> bool {
    &&& k >= 1
    &&& len >= 0
    &&& b.len() + 1 == k * (len + 1)
    &&& forall|i: int| 0 <= i < k - 1 ==> #[trigger] b[i * (len + 1) + len] == 10
    &&& forall|i: int, j: int| 0 <= i < k && 0 <= j < len ==> #[trigger] b[i * (len + 1) + j] != 10
}

proof fn lemma_find_at_first(t: Seq<u8>, pat: Seq<u8>, from: int, p: int)
    requires
        0 <= from <= p,
        p + pat.len() <= t.len(),
        t.subrange(p, p + pat.len()) == pat,
        forall|q: int| from <= q < p ==> #[trigger] t.subrange(q, q + pat.len()) != pat,
    ensures
        find_at(t, pat, from) == Some(p),
    decreases p - from,
{
    if from < p {
        lemma_find_at_first(t, pat, from + 1, p);
    }
}

proof fn lemma_find_at_none(t: Seq<u8>, pat: Seq<u8>, from: int)
    requires
        0 <= from,
        forall|q: int| from <= q && q + pat.len() <= t.len() ==> #[trigger] t.subrange(q, q + pat.len()) != pat,
    ensures
        find_at(t, pat, from) is None,
    decreases t.len() + 1 - from,
{
    if from + pat.len() <= t.len() {
        lemma_find_at_none(t, pat, from + 1);
    }
}

/// A line start in a layout: `i * (len + 1)`, and the bounds around it.
proof fn lemma_layout_arith(len: int, k: int, i: int)
    requires
        0 <= i < k,
        len >= 0,
    ensures
        0 <= i * (len + 1),
        i * (len + 1) + len < k * (len + 1),
        (i + 1) * (len + 1) == i * (len + 1) + len + 1,
        i + 1 < k ==> (i + 1) * (len + 1) + len < k * (len + 1),
{
    assert(0 <= i * (len + 1)) by (nonlinear_arith)
        requires
            0 <= i,
            len >= 0,
    ;
    assert(i * (len + 1) + len < k * (len + 1)) by (nonlinear_arith)
        requires
            i < k,
            len >= 0,
    ;
    assert((i + 1) * (len + 1) == i * (len + 1) + len + 1) by (nonlinear_arith);
    if i + 1 < k {
        assert((i + 1) * (len + 1) + len < k * (len + 1)) by (nonlinear_arith)
            requires
                i + 1 < k,
                len >= 0,
        ;
    }
}

proof fn lemma_layout_first_line(b: Seq<u8>, len: int, k: int, i: int)
    requires
        line_layout(b, len, k),
        0 <= i < k,
    ensures
        ({
            let start = i * (len + 1);
            let r = b.subrange(start, b.len() as int);
            &&& 0 <= start
            &&& start + len <= b.len()
            &&& first_line_len(r) == len
            &&& i + 1 < k ==> after_first_line(r) == b.subrange((i + 1) * (len + 1), b.len() as int)
            &&& i + 1 == k ==> after_first_line(r).len() == 0
        }),
{
    lemma_layout_arith(len, k, i);
    let start = i * (len + 1);
    let r = b.subrange(start, b.len() as int);
    if i + 1 < k {
        assert(r.subrange(len, len + 1) =~= newline()) by {
            assert(b[start + len] == 10);
        }
        assert forall|q: int| 0 <= q < len implies #[trigger] r.subrange(q, q + 1) != newline() by {
            assert(b[start + q] != 10);
            assert(r.subrange(q, q + 1)[0] == b[start + q]);
        }
        lemma_find_at_first(r, newline(), 0, len);
        assert(r.skip(len + 1) =~= b.subrange((i + 1) * (len + 1), b.len() as int));
    } else {
        assert(b.len() == start + len);
        assert forall|q: int| 0 <= q && q + 1 <= r.len() implies #[trigger] r.subrange(q, q + 1) != newline() by {
            assert(b[start + q] != 10);
            assert(r.subrange(q, q + 1)[0] == b[start + q]);
        }
        lemma_find_at_none(r, newline(), 0);
    }
}

/// The lines of a laid-out text: what is left after `i` lines starts at the
/// start of line `i`, and line `i` is its `len` bytes.
proof fn lemma_layout_lines(b: Seq<u8>, len: int, k: int, i: int)
    requires
        line_layout(b, len, k),
        0 <= i <= k,
    ensures
        i < k ==> drop_lines(b, i as nat) == b.subrange(i * (len + 1), b.len() as int),
        i < k ==> line_at(b, i as nat) == b.subrange(i * (len + 1), i * (len + 1) + len),
        i == k ==> drop_lines(b, i as nat).len() == 0,
    decreases i,
{
    if i > 0 {
        lemma_layout_lines(b, len, k, i - 1);
        lemma_layout_first_line(b, len, k, i - 1);
        assert(drop_lines(b, i as nat) == after_first_line(drop_lines(b, (i - 1) as nat)));
    } else {
        assert(b.subrange(0, b.len() as int) =~= b);
    }
    if i < k {
        lemma_layout_first_line(b, len, k, i);
        lemma_layout_arith(len, k, i);
        let start = i * (len + 1);
        assert(b.subrange(start, b.len() as int).take(len) =~= b.subrange(start, start + len));
    }
}

/// Every character of `t` is a lower-case hexadecimal digit.
pub open spec fn hex_text(t: Seq<char>) -> bool {
    forall|i: int| 0 <= i < t.len() ==> #[trigger] hex_byte(t[i] as u8)
}

proof fn lemma_hex_digit_hex(d: nat)
    requires
        d < 16,
    ensures
        hex_text(hex_digit_text(d)),
        hex_digit_text(d).len() == 1,
{
    lemma_hex_digit_text(d);
}

proof fn lemma_hex2_hex(b: u8)
    ensures
        hex_text(hex2(b)),
        hex2(b).len() == 2,
{
    lemma_hex2_bytes(b);
    lemma_hex_digit_hex((b / 16) as nat);
    lemma_hex_digit_hex((b % 16) as nat);
}

proof fn lemma_hex_concat(a: Seq<char>, b: Seq<char>)
    requires
        hex_text(a),
        hex_text(b),
    ensures
        hex_text(a + b),
{
    assert forall|i: int| 0 <= i < (a + b).len() implies #[trigger] hex_byte((a + b)[i] as u8) by {
        if i < a.len() {
            assert((a + b)[i] == a[i]);
        } else {
            assert((a + b)[i] == b[i - a.len()]);
        }
    }
}

proof fn lemma_note_hex(b0: u8, b1: u8)
    ensures
        hex_text(sfx_note_text(b0, b1)),
        sfx_note_text(b0, b1).len() == 5,
{
    let pitch = b0 & 0x3Fu8;
    let wf = ((b0 >> 6u8) & 0x3u8) | ((b1 & 0x1u8) << 2u8);
    let custom = (b1 >> 7u8) & 0x1u8;
    let vol = (b1 >> 1u8) & 0x7u8;
    let eff = (b1 >> 4u8) & 0x7u8;
    assert((wf | (custom << 3u8)) < 16 && vol < 16 && eff < 16) by (bit_vector)
        requires
            wf == ((b0 >> 6u8) & 0x3u8) | ((b1 & 0x1u8) << 2u8),
            custom == (b1 >> 7u8) & 0x1u8,
            vol == (b1 >> 1u8) & 0x7u8,
            eff == (b1 >> 4u8) & 0x7u8,
    ;
    lemma_hex2_hex(pitch);
    lemma_hex_digit_hex((wf | (custom << 3u8)) as nat);
    lemma_hex_digit_hex(vol as nat);
    lemma_hex_digit_hex(eff as nat);
    let a = hex2(pitch);
    let b = hex_digit_text((wf | (custom << 3u8)) as nat);
    let c = hex_digit_text(vol as nat);
    let e = hex_digit_text(eff as nat);
    lemma_hex_concat(a, b);
    lemma_hex_concat(a + b, c);
    lemma_hex_concat(a + b + c, e);
}

proof fn lemma_notes_hex(d: Seq<u8>, k: nat)
    requires
        2 * k <= d.len(),
    ensures
        hex_text(sfx_notes_text(d, k)),
        sfx_notes_text(d, k).len() == 5 * k,
    decreases k,
{
    if k > 0 {
        lemma_notes_hex(d, (k - 1) as nat);
        lemma_note_hex(d[2 * (k - 1)], d[2 * (k - 1) + 1]);
        lemma_hex_concat(sfx_notes_text(d, (k - 1) as nat), sfx_note_text(d[2 * (k - 1)], d[2 * (k - 1) + 1]));
    } else {
        assert(sfx_notes_text(d, 0) == Seq::<char>::empty());
    }
}

/// The text of an sfx slot: 168 hexadecimal digits.
proof fn lemma_sfx_line_hex(d: Seq<u8>)
    requires
        d.len() == 68,
    ensures
        hex_text(sfx_line_text(d)),
        sfx_line_text(d).len() == 168,
{
    lemma_hex2_hex(d[64]);
    lemma_hex2_hex(d[65]);
    lemma_hex2_hex(d[66]);
    lemma_hex2_hex(d[67]);
    lemma_notes_hex(d, 32);
    lemma_hex_concat(hex2(d[64]), hex2(d[65]));
    lemma_hex_concat(hex2(d[64]) + hex2(d[65]), hex2(d[66]));
    lemma_hex_concat(hex2(d[64]) + hex2(d[65]) + hex2(d[66]), hex2(d[67]));
    lemma_hex_concat(hex2(d[64]) + hex2(d[65]) + hex2(d[66]) + hex2(d[67]), sfx_notes_text(d, 32));
}

/// The text of a music pattern: 11 characters, a space at 2 and hexadecimal
/// digits elsewhere.
proof fn lemma_music_line_chars(b0: u8, b1: u8, b2: u8, b3: u8)
    ensures
        music_line_text(b0, b1, b2, b3).len() == 11,
        music_line_text(b0, b1, b2, b3)[2] == ' ',
        forall|i: int| 0 <= i < 11 && i != 2 ==> #[trigger] hex_byte(music_line_text(b0, b1, b2, b3)[i] as u8),
{
    let flag = ((b0 >> 7u8) & 1u8) | (((b1 >> 7u8) & 1u8) << 1u8) | (((b2 >> 7u8) & 1u8) << 2u8) | (((b3 >> 7u8) & 1u8) << 3u8);
    reveal_strlit(" ");
    lemma_hex2_hex(flag);
    lemma_hex2_hex(b0 & 0x7Fu8);
    lemma_hex2_hex(b1 & 0x7Fu8);
    lemma_hex2_hex(b2 & 0x7Fu8);
    lemma_hex2_hex(b3 & 0x7Fu8);
    let t = music_line_text(b0, b1, b2, b3);
    assert(t == hex2(flag) + " "@ + hex2(b0 & 0x7Fu8) + hex2(b1 & 0x7Fu8) + hex2(b2 & 0x7Fu8) + hex2(b3 & 0x7Fu8));
    assert forall|i: int| 0 <= i < 11 && i != 2 implies #[trigger] hex_byte(t[i] as u8) by {
        if i < 2 {
            assert(t[i] == hex2(flag)[i]);
        } else if i < 5 {
            assert(t[i] == hex2(b0 & 0x7Fu8)[i - 3]);
        } else if i < 7 {
            assert(t[i] == hex2(b1 & 0x7Fu8)[i - 5]);
        } else if i < 9 {
            assert(t[i] == hex2(b2 & 0x7Fu8)[i - 7]);
        } else {
            assert(t[i] == hex2(b3 & 0x7Fu8)[i - 9]);
        }
    }
}

/// Lines of one length joined with newlines: where each line and newline sits.
proof fn lemma_joined_layout(f: spec_fn(int) -> Seq<char>, len: int, k: int)
    requires
        k >= 1,
        len >= 0,
        forall|i: int| 0 <= i < k ==> #[trigger] f(i).len() == len,
    ensures
        joined(f, k as nat).len() + 1 == k * (len + 1),
        forall|i: int, j: int| 0 <= i < k && 0 <= j < len ==> #[trigger] joined(f, k as nat)[i * (len + 1) + j] == f(i)[j],
        forall|i: int| 0 <= i < k - 1 ==> #[trigger] joined(f, k as nat)[i * (len + 1) + len] == '\n',
    decreases k,
{
    reveal_strlit("\n");
    if k == 1 {
        assert(f(0).len() == len);
        assert forall|i: int, j: int| 0 <= i < k && 0 <= j < len implies #[trigger] joined(f, k as nat)[i * (len + 1) + j] == f(i)[j] by {
            assert(i == 0);
            assert(i * (len + 1) == 0);
        }
    } else {
        lemma_joined_layout(f, len, k - 1);
        let prev = joined(f, (k - 1) as nat);
        let last = f(k - 1);
        assert(joined(f, k as nat) == prev + "\n"@ + last);
        lemma_layout_arith(len, k, k - 2);
        lemma_layout_arith(len, k, k - 1);
        assert(prev.len() == (k - 1) * (len + 1) - 1);
        assert(joined(f, k as nat).len() + 1 == k * (len + 1)) by (nonlinear_arith)
            requires
                joined(f, k as nat).len() == prev.len() + 1 + len,
                prev.len() + 1 == (k - 1) * (len + 1),
        ;
        assert forall|i: int, j: int| 0 <= i < k && 0 <= j < len implies #[trigger] joined(f, k as nat)[i * (len + 1) + j] == f(i)[j] by {
            if i < k - 1 {
                lemma_layout_arith(len, k - 1, i);
                assert(joined(f, (k - 1) as nat)[i * (len + 1) + j] == f(i)[j]);
            } else {
                assert(i * (len + 1) == prev.len() + 1);
            }
        }
        assert forall|i: int| 0 <= i < k - 1 implies #[trigger] joined(f, k as nat)[i * (len + 1) + len] == '\n' by {
            if i < k - 2 {
                lemma_layout_arith(len, k - 1, i);
                assert(joined(f, (k - 1) as nat)[i * (len + 1) + len] == '\n');
            } else {
                assert(i * (len + 1) + len == prev.len());
            }
        }
    }
}

/// The bytes of lines of hexadecimal digits (and, in music lines, a space)
/// joined with newlines are laid out line by line.
proof fn lemma_joined_bytes_layout(f: spec_fn(int) -> Seq<char>, len: int, k: int)
    requires
        k >= 1,
        len >= 0,
        forall|i: int| 0 <= i < k ==> #[trigger] f(i).len() == len,
        forall|i: int, j: int| 0 <= i < k && 0 <= j < len ==> (#[trigger] f(i)[j]) as u8 != 10,
    ensures
        line_layout(ascii_bytes(joined(f, k as nat)), len, k),
        forall|i: int| 0 <= i < k ==> ascii_bytes(joined(f, k as nat)).subrange(i * (len + 1), i * (len + 1) + len)
            == #[trigger] ascii_bytes(f(i)),
{
    lemma_joined_layout(f, len, k);
    let t = joined(f, k as nat);
    let b = ascii_bytes(t);
    assert forall|i: int| 0 <= i < k - 1 implies #[trigger] b[i * (len + 1) + len] == 10 by {
        lemma_layout_arith(len, k, i);
        assert(t[i * (len + 1) + len] == '\n');
    }
    assert forall|i: int, j: int| 0 <= i < k && 0 <= j < len implies #[trigger] b[i * (len + 1) + j] != 10 by {
        lemma_layout_arith(len, k, i);
        assert(t[i * (len + 1) + j] == f(i)[j]);
    }
    assert forall|i: int| 0 <= i < k implies b.subrange(i * (len + 1), i * (len + 1) + len) == #[trigger] ascii_bytes(f(i)) by {
        lemma_layout_arith(len, k, i);
        assert forall|j: int| 0 <= j < len implies #[trigger] b.subrange(i * (len + 1), i * (len + 1) + len)[j] == ascii_bytes(f(i))[j] by {
            assert(t[i * (len + 1) + j] == f(i)[j]);
        }
        assert(b.subrange(i * (len + 1), i * (len + 1) + len) =~= ascii_bytes(f(i)));
    }
}

proof fn lemma_trim_hex_ends(s: Seq<u8>)
    requires
        s.len() >= 1,
        hex_byte(s[0]),
        hex_byte(s[s.len() - 1]),
    ensures
        trim(s) == s,
{
    assert(ws_front(s) == 0);
    assert(trim_start(s) == s);
    assert(ws_back(s) == 0);
    assert(trim_end(s) == s);
}

/// The slot `bytes_to_sfx_hex` writes as line `i`.
pub open spec fn sfx_slot_of(sfx: Seq<u8>, i: int) -> Seq<u8> {
    padded(sfx, 68 * 64).subrange(68 * i, 68 * i + 68)
}

proof fn lemma_sfx_text_layout(sfx: Seq<u8>)
    ensures
        ({
            let s = ascii_bytes(sfx_hex_spec(sfx));
            &&& line_layout(s, 168, 64)
            &&& forall|i: int| 0 <= i < 64 ==> s.subrange(i * 169, i * 169 + 168) == #[trigger] ascii_bytes(sfx_line_text(sfx_slot_of(sfx, i)))
            &&& forall|q: int| 0 <= q < s.len() ==> #[trigger] s[q] == 10 || hex_byte(s[q])
            &&& hex_byte(s[0]) && hex_byte(s[s.len() - 1])
        }),
{
    let p = padded(sfx, 68 * 64);
    let f = |slot: int| sfx_line_text(p.subrange(68 * slot, 68 * slot + 68));
    assert(sfx_hex_spec(sfx) == joined(f, 64));
    assert forall|i: int| 0 <= i < 64 implies #[trigger] f(i).len() == 168 && hex_text(f(i)) by {
        lemma_sfx_line_hex(p.subrange(68 * i, 68 * i + 68));
    }
    assert forall|i: int, j: int| 0 <= i < 64 && 0 <= j < 168 implies (#[trigger] f(i)[j]) as u8 != 10 by {
        assert(hex_text(f(i)));
        assert(hex_byte(f(i)[j] as u8));
    }
    lemma_joined_bytes_layout(f, 168, 64);
    let s = ascii_bytes(joined(f, 64));
    assert forall|i: int| 0 <= i < 64 implies s.subrange(i * 169, i * 169 + 168) == #[trigger] ascii_bytes(sfx_line_text(sfx_slot_of(sfx, i))) by {
        assert(s.subrange(i * (168 + 1), i * (168 + 1) + 168) == ascii_bytes(f(i)));
    }
    assert forall|q: int| 0 <= q < s.len() implies #[trigger] s[q] == 10 || hex_byte(s[q]) by {
        let i = q / 169;
        let j = q % 169;
        assert(q == i * 169 + j && 0 <= j < 169 && 0 <= i < 64);
        if j < 168 {
            assert(s.subrange(i * 169, i * 169 + 168)[j] == ascii_bytes(f(i))[j]);
            assert(hex_text(f(i)));
            assert(hex_byte(f(i)[j] as u8));
        } else {
            assert(i < 63);
            assert(s[i * (168 + 1) + 168] == 10);
        }
    }
    assert(s.subrange(0, 168)[0] == ascii_bytes(f(0))[0]);
    assert(hex_text(f(0)) && hex_text(f(63)));
    assert(hex_byte(f(0)[0] as u8));
    assert(s.subrange(63 * 169int, 63 * 169int + 168)[167] == ascii_bytes(f(63))[167]);
    assert(hex_byte(f(63)[167] as u8));
}

/// The pattern `music_hex` writes as line `i`.
pub open spec fn music_line_of(music: Seq<u8>, i: int) -> Seq<char> {
    music_line_text(music[4 * i], music[4 * i + 1], music[4 * i + 2], music[4 * i + 3])
}

proof fn lemma_music_text_layout(music: Seq<u8>)
    requires
        music.len() >= 256,
    ensures
        ({
            let m = ascii_bytes(music_hex_spec(music));
            &&& line_layout(m, 11, 64)
            &&& forall|i: int| 0 <= i < 64 ==> m.subrange(i * 12, i * 12 + 11) == #[trigger] ascii_bytes(music_line_of(music, i))
            &&& forall|q: int| 0 <= q < m.len() ==> #[trigger] m[q] == 10 || m[q] == 32 || hex_byte(m[q])
            &&& hex_byte(m[0]) && hex_byte(m[m.len() - 1])
        }),
{
    let f = |i: int| music_line_text(music[4 * i], music[4 * i + 1], music[4 * i + 2], music[4 * i + 3]);
    assert(music_hex_spec(music) == joined(f, 64));
    assert forall|i: int| 0 <= i < 64 implies #[trigger] f(i).len() == 11 by {
        lemma_music_line_chars(music[4 * i], music[4 * i + 1], music[4 * i + 2], music[4 * i + 3]);
    }
    assert forall|i: int, j: int| 0 <= i < 64 && 0 <= j < 11 implies (#[trigger] f(i)[j]) as u8 == 32 || hex_byte(f(i)[j] as u8) by {
        lemma_music_line_chars(music[4 * i], music[4 * i + 1], music[4 * i + 2], music[4 * i + 3]);
        if j != 2 {
            assert(hex_byte(f(i)[j] as u8));
        }
    }
    lemma_joined_bytes_layout(f, 11, 64);
    let m = ascii_bytes(joined(f, 64));
    assert forall|i: int| 0 <= i < 64 implies m.subrange(i * 12, i * 12 + 11) == #[trigger] ascii_bytes(music_line_of(music, i)) by {
        assert(m.subrange(i * (11 + 1), i * (11 + 1) + 11) == ascii_bytes(f(i)));
    }
    assert forall|q: int| 0 <= q < m.len() implies #[trigger] m[q] == 10 || m[q] == 32 || hex_byte(m[q]) by {
        let i = q / 12;
        let j = q % 12;
        assert(q == i * 12 + j && 0 <= j < 12 && 0 <= i < 64);
        if j < 11 {
            assert(m.subrange(i * 12, i * 12 + 11)[j] == ascii_bytes(f(i))[j]);
            assert(f(i)[j] as u8 == 32 || hex_byte(f(i)[j] as u8));
        } else {
            assert(i < 63);
            assert(m[i * (11 + 1) + 11] == 10);
        }
    }
    lemma_music_line_chars(music[0], music[1], music[2], music[3]);
    lemma_music_line_chars(music[252], music[253], music[254], music[255]);
    assert(m.subrange(0, 11)[0] == ascii_bytes(f(0))[0]);
    assert(hex_byte(f(0)[0] as u8));
    assert(m.subrange(63 * 12int, 63 * 12int + 11)[10] == ascii_bytes(f(63))[10]);
    assert(hex_byte(f(63)[10] as u8));
}

/// The text of a cart with an sfx section and a music section as
/// `bytes_to_sfx_hex` and `music_hex` write them.
pub open spec fn sections_text(sfx: Seq<u8>, music: Seq<u8>) -> Seq<u8> {
    sfx_header() + ascii_bytes(sfx_hex_spec(sfx)) + newline() + music_header() + ascii_bytes(music_hex_spec(music))
}

/// An ASCII line can be cut anywhere.
proof fn lemma_ascii_boundaries(l: Seq<u8>)
    requires
        forall|q: int| 0 <= q < l.len() ==> #[trigger] l[q] < 0x80,
    ensures
        forall|k: int| 0 <= k <= l.len() ==> #[trigger] char_boundary(l, k),
{
}

proof fn lemma_sfx_section(sfx: Seq<u8>, music: Seq<u8>)
    requires
        music.len() >= 256,
    ensures
        cart_sfx_ok(sections_text(sfx, music)),
        cart_sfx_spec(sections_text(sfx, music)) == padded(sfx, 68 * 64),
{
    let s = ascii_bytes(sfx_hex_spec(sfx));
    let m = ascii_bytes(music_hex_spec(music));
    lemma_sfx_text_layout(sfx);
    lemma_music_text_layout(music);
    let t = sections_text(sfx, music);
    let ls = s.len() as int;
    assert(ls == 64 * 169 - 1);
    assert(t.subrange(0, 8) =~= sfx_header());
    assert(find(t, sfx_header()) == Some(0int));
    let after = t.skip(8);
    assert(after =~= s + newline() + music_header() + m);
    assert forall|q: int| 0 <= q < ls implies #[trigger] after.subrange(q, q + 3) != section_end() by {
        assert(after.subrange(q, q + 3)[1] == after[q + 1]);
        if q + 1 < ls {
            assert(after[q + 1] == s[q + 1]);
            assert(s[q + 1] == 10 || hex_byte(s[q + 1]));
        } else {
            assert(after[q + 1] == 10);
        }
    }
    assert(after.subrange(ls, ls + 3) =~= section_end());
    lemma_find_at_first(after, section_end(), 0, ls);
    assert(after.take(ls) =~= s);
    assert(section_body(t, sfx_header()) == Some(s));
    lemma_trim_hex_ends(s);
    assert forall|i: nat| i < 64 implies #[trigger] section_has_line(t, sfx_header(), i) && section_line(t, sfx_header(), i)
        == ascii_bytes(sfx_line_text(sfx_slot_of(sfx, i as int))) by {
        let ii = i as int;
        lemma_layout_lines(s, 168, 64, ii);
        lemma_layout_arith(168, 64, ii);
        let line = s.subrange(ii * 169, ii * 169 + 168);
        assert(line == ascii_bytes(sfx_line_text(sfx_slot_of(sfx, ii))));
        assert(line[0] == s[ii * 169] && line[167] == s[ii * 169 + 167]);
        assert(s[ii * (168 + 1) + 0] != 10 && s[ii * (168 + 1) + 167] != 10);
        assert(s[ii * 169] == 10 || hex_byte(s[ii * 169]));
        assert(s[ii * 169 + 167] == 10 || hex_byte(s[ii * 169 + 167]));
        lemma_trim_hex_ends(line);
        assert(drop_lines(s, i).len() > 0);
    }
    assert forall|k: int| 0 <= k < 68 * 64 implies #[trigger] cart_sfx_spec(t)[k] == padded(sfx, 68 * 64)[k] by {
        let i = k / 68;
        let slot = sfx_slot_of(sfx, i);
        assert(0 <= i < 64);
        assert(section_has_line(t, sfx_header(), i as nat));
        let line = section_line(t, sfx_header(), i as nat);
        assert(line == ascii_bytes(sfx_line_text(slot)));
        lemma_sfx_line_hex(slot);
        assert(line.len() == 168);
        assert(sfx_slot_read(t, i as nat));
        sfx_line_roundtrip(slot);
        assert(slot[k % 68] == padded(sfx, 68 * 64)[k]);
    }
    assert(cart_sfx_spec(t) =~= padded(sfx, 68 * 64));
    assert forall|i: nat| #[trigger] sfx_slot_read(t, i) implies sfx_line_ok(section_line(t, sfx_header(), i)) by {
        assert(section_has_line(t, sfx_header(), i));
        let slot = sfx_slot_of(sfx, i as int);
        let line = section_line(t, sfx_header(), i);
        lemma_sfx_line_hex(slot);
        assert forall|q: int| 0 <= q < line.len() implies #[trigger] line[q] < 0x80 by {
            assert(hex_byte(sfx_line_text(slot)[q] as u8));
        }
        lemma_ascii_boundaries(line);
        assert forall|c: int| sfx_cut(c) implies #[trigger] char_boundary(line, c) by {}
    }
}

proof fn lemma_music_body(sfx: Seq<u8>, music: Seq<u8>)
    requires
        music.len() >= 256,
    ensures
        section_body(sections_text(sfx, music), music_header()) == Some(ascii_bytes(music_hex_spec(music))),
{
    let s = ascii_bytes(sfx_hex_spec(sfx));
    let m = ascii_bytes(music_hex_spec(music));
    lemma_sfx_text_layout(sfx);
    lemma_music_text_layout(music);
    let t = sections_text(sfx, music);
    let ls = s.len() as int;
    let mpos = 8 + ls + 1;
    let pat = music_header();
    assert(t == sfx_header() + s + newline() + music_header() + m);
    assert(t.subrange(mpos, mpos + 10) =~= pat);
    assert forall|q: int| 0 <= q < mpos implies #[trigger] t.subrange(q, q + 10) != pat by {
        let w = t.subrange(q, q + 10);
        if q == 0 {
            assert(w[2] == 115u8 && pat[2] == 109u8);
        } else if q == 1 {
            assert(w[1] == 115u8 && pat[1] == 95u8);
        } else if q == 2 || q == 3 || q == 4 {
            assert(w[0] != 95u8 && pat[0] == 95u8);
        } else if q == 5 {
            assert(w[2] == 10u8 && pat[2] == 109u8);
        } else if q == 6 {
            assert(w[1] == 10u8 && pat[1] == 95u8);
        } else if q == 7 {
            assert(w[0] == 10u8 && pat[0] == 95u8);
        } else if q < 8 + ls {
            assert(w[0] == s[q - 8]);
            assert(s[q - 8] == 10 || hex_byte(s[q - 8]));
            assert(pat[0] == 95u8);
        } else {
            assert(w[0] == 10u8 && pat[0] == 95u8);
        }
    }
    lemma_find_at_first(t, pat, 0, mpos);
    let after = t.skip(mpos + 10);
    assert(after =~= m);
    assert forall|q: int| 0 <= q && q + 3 <= m.len() implies #[trigger] m.subrange(q, q + 3) != section_end() by {
        assert(m.subrange(q, q + 3)[1] == m[q + 1]);
        assert(m[q + 1] == 10 || m[q + 1] == 32 || hex_byte(m[q + 1]));
    }
    lemma_find_at_none(m, section_end(), 0);
    assert(m.take(m.len() as int) =~= m);
}

proof fn lemma_music_lines(sfx: Seq<u8>, music: Seq<u8>)
    requires
        music.len() >= 256,
    ensures
        forall|i: nat| i < 64 ==> #[trigger] section_has_line(sections_text(sfx, music), music_header(), i)
            && section_line(sections_text(sfx, music), music_header(), i) == ascii_bytes(music_line_of(music, i as int)),
{
    let m = ascii_bytes(music_hex_spec(music));
    let t = sections_text(sfx, music);
    lemma_music_text_layout(music);
    lemma_music_body(sfx, music);
    lemma_trim_hex_ends(m);
    assert forall|i: nat| i < 64 implies #[trigger] section_has_line(t, music_header(), i) && section_line(t, music_header(), i)
        == ascii_bytes(music_line_of(music, i as int)) by {
        let ii = i as int;
        lemma_layout_lines(m, 11, 64, ii);
        lemma_layout_arith(11, 64, ii);
        let line = m.subrange(ii * 12, ii * 12 + 11);
        lemma_music_line_chars(music[4 * ii], music[4 * ii + 1], music[4 * ii + 2], music[4 * ii + 3]);
        assert(line == ascii_bytes(music_line_of(music, ii)));
        assert(line[0] == music_line_of(music, ii)[0] as u8);
        assert(line[10] == music_line_of(music, ii)[10] as u8);
        lemma_trim_hex_ends(line);
        assert(drop_lines(m, i).len() > 0);
    }
}

proof fn lemma_music_section(sfx: Seq<u8>, music: Seq<u8>)
    requires
        music.len() >= 256,
    ensures
        cart_music_ok(sections_text(sfx, music)),
        cart_music_spec(sections_text(sfx, music)) == music.take(256),
{
    let t = sections_text(sfx, music);
    lemma_music_lines(sfx, music);
    assert forall|k: int| 0 <= k < 256 implies #[trigger] cart_music_spec(t)[k] == music.take(256)[k] by {
        let i = k / 4;
        assert(0 <= i < 64);
        assert(section_has_line(t, music_header(), i as nat));
        let line = section_line(t, music_header(), i as nat);
        lemma_music_line_chars(music[4 * i], music[4 * i + 1], music[4 * i + 2], music[4 * i + 3]);
        assert(line.len() == 11);
        assert(music_pattern_read(t, i as nat));
        music_line_roundtrip(music[4 * i], music[4 * i + 1], music[4 * i + 2], music[4 * i + 3]);
        assert(k == 4 * i + k % 4);
    }
    assert(cart_music_spec(t) =~= music.take(256));
    assert forall|i: nat| #[trigger] music_pattern_read(t, i) implies music_line_ok(section_line(t, music_header(), i)) by {
        let ii = i as int;
        assert(section_has_line(t, music_header(), i));
        let line = section_line(t, music_header(), i);
        lemma_music_line_chars(music[4 * ii], music[4 * ii + 1], music[4 * ii + 2], music[4 * ii + 3]);
        assert forall|q: int| 0 <= q < line.len() implies #[trigger] line[q] < 0x80 by {
            if q != 2 {
                assert(hex_byte(music_line_of(music, ii)[q] as u8));
            }
        }
        lemma_ascii_boundaries(line);
        assert forall|c: int| music_cut(c) implies #[trigger] char_boundary(line, c) by {}
    }
}

/// Reading back what was written: in the text of a cart with an sfx section
/// and a music section as `bytes_to_sfx_hex` and `music_hex` write them, the
/// parser can cut every line (so `try_parse_music_cart` gives `Some`), and it
/// reads back the sfx bytes (cut or padded to 64 slots) and the 256 music
/// bytes.
pub proof fn cart_roundtrip(sfx: Seq<u8>, music: Seq<u8>)
    requires
        music.len() >= 256,
    ensures
        music_cart_ok(sections_text(sfx, music)),
        cart_sfx_spec(sections_text(sfx, music)) == padded(sfx, 68 * 64),
        cart_music_spec(sections_text(sfx, music)) == music.take(256),
{
    lemma_sfx_section(sfx, music);
    lemma_music_section(sfx, music);
}

proof fn lemma_hex_row_len(row: Seq<u8>, lo_first: bool)
    ensures
        hex_row(row, lo_first).len() == 2 * row.len(),
    decreases row.len(),
{
    if row.len() > 0 {
        let b = row.last();
        lemma_hex_digit_text((b % 16) as nat);
        lemma_hex_digit_text((b / 16) as nat);
        lemma_hex_row_len(row.drop_last(), lo_first);
    }
}

proof fn lemma_hex_row_chars(row: Seq<u8>, lo_first: bool, c: int)
    requires
        0 <= c < row.len(),
    ensures
        hex_row(row, lo_first).len() == 2 * row.len(),
        ({
            let b = row[c];
            let d0: nat = if lo_first { (b % 16) as nat } else { (b / 16) as nat };
            let d1: nat = if lo_first { (b / 16) as nat } else { (b % 16) as nat };
            &&& hex_row(row, lo_first)[2 * c] as u8 == hex_digit_byte(d0)
            &&& hex_row(row, lo_first)[2 * c + 1] as u8 == hex_digit_byte(d1)
        }),
    decreases row.len(),
{
    let b = row.last();
    let pre = row.drop_last();
    lemma_hex_digit_text((b % 16) as nat);
    lemma_hex_digit_text((b / 16) as nat);
    let tail = if lo_first {
        hex_digit_text((b % 16) as nat) + hex_digit_text((b / 16) as nat)
    } else {
        hex2(b)
    };
    assert(hex_row(row, lo_first) == hex_row(pre, lo_first) + tail);
    if c < row.len() - 1 {
        lemma_hex_row_chars(pre, lo_first, c);
    } else if pre.len() > 0 {
        lemma_hex_row_chars(pre, lo_first, 0);
    } else {
        assert(hex_row(pre, lo_first) =~= Seq::<char>::empty());
    }
}

/// Each byte of a hex section reads back from its two digits: in the text
/// that `bytes_to_gfx`, `bytes_to_map_hex` and `bytes_to_gff_hex` write, byte
/// `c` of row `r` (of the data cut or zero-padded to the section's size)
/// sits at column `2c` of line `r`, its low digit first for gfx and its high
/// digit first otherwise; lines are `2 * row_bytes` characters long.
pub proof fn hex_rows_roundtrip(data: Seq<u8>, rows: nat, row_bytes: nat, lo_first: bool, r: int, c: int)
    requires
        0 <= r < rows,
        0 <= c < row_bytes,
    ensures
        ({
            let t = hex_rows_spec(data, rows, row_bytes, lo_first);
            let line = 2 * row_bytes + 1;
            let first = hex_value(t[r * line + 2 * c] as u8);
            let second = hex_value(t[r * line + 2 * c + 1] as u8);
            let b = padded(data, rows * row_bytes)[r * row_bytes + c];
            &&& t.len() + 1 == rows * line
            &&& r + 1 < rows ==> t[r * line + 2 * row_bytes] == '\n'
            &&& first is Some && second is Some
            &&& b == (if lo_first {
                first.unwrap() + 16 * second.unwrap()
            } else {
                16 * first.unwrap() + second.unwrap()
            })
        }),
{
    let p = padded(data, rows * row_bytes);
    let rb = row_bytes as int;
    assert(p.len() == rows * row_bytes);
    let f = |i: int| hex_row(p.subrange(i * rb, i * rb + rb), lo_first);
    assert(hex_rows_spec(data, rows, row_bytes, lo_first) == joined(f, rows));
    assert forall|i: int| 0 <= i < rows implies #[trigger] f(i).len() == 2 * rb by {
        assert(0 <= i * rb && i * rb + rb <= rows * row_bytes) by (nonlinear_arith)
            requires
                0 <= i,
                i + 1 <= rows,
                0 <= rb,
                rb == row_bytes,
        ;
        lemma_hex_row_len(p.subrange(i * rb, i * rb + rb), lo_first);
    }
    lemma_joined_layout(f, 2 * rb, rows as int);
    let row = p.subrange(r * rb, r * rb + rb);
    assert(0 <= r * rb) by (nonlinear_arith)
        requires
            0 <= r,
            0 <= rb,
    ;
    assert(r * rb + rb <= rows * row_bytes) by (nonlinear_arith)
        requires
            r + 1 <= rows,
            0 <= rb,
            rb == row_bytes,
    ;
    lemma_hex_row_chars(row, lo_first, c);
    let b = row[c];
    assert(b == p[r * rb + c]);
    let lo = (b % 16) as nat;
    let hi = (b / 16) as nat;
    lemma_hex_value_digit(lo);
    lemma_hex_value_digit(hi);
    let line = 2 * row_bytes + 1;
    assert(r * line + 2 * c == r * (2 * rb + 1) + 2 * c);
    assert(joined(f, rows)[r * (2 * rb + 1) + 2 * c] == f(r)[2 * c]);
    assert(joined(f, rows)[r * (2 * rb + 1) + (2 * c + 1)] == f(r)[2 * c + 1]);
}

/// Every line that `bytes_to_sfx_hex` prints reads back: line `i` of its
/// text (168 characters, each line ended by a newline but the last) parses,
/// as `parse_p8_sfx_line` parses it, to slot `i` of the sfx bytes cut or
/// zero-padded to 64 slots of 68 bytes.
pub proof fn sfx_hex_lines_roundtrip(sfx: Seq<u8>, i: int)
    requires
        0 <= i < 64,
    ensures
        ({
            let t = ascii_bytes(sfx_hex_spec(sfx));
            &&& t.len() == 64 * 169 - 1
            &&& i < 63 ==> t[i * 169 + 168] == 10
            &&& sfx_slot_spec(t.subrange(i * 169, i * 169 + 168)) == padded(sfx, 68 * 64).subrange(68 * i, 68 * i + 68)
        }),
{
    lemma_sfx_text_layout(sfx);
    let slot = sfx_slot_of(sfx, i);
    sfx_line_roundtrip(slot);
    let t = ascii_bytes(sfx_hex_spec(sfx));
    if i < 63 {
        assert(t[i * (168 + 1) + 168] == 10);
    }
}

} // verus!
