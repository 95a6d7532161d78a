//! Text building: decimal and hexadecimal digits, padding.

use vstd::prelude::*;
use vstd::string::*;

verus! {

/// The text of decimal digit `d`.
pub open spec fn digit_text(d: nat) -> Seq<char> {
    if d == 0 {
        "0"@
    } else if d == 1 {
        "1"@
    } else if d == 2 {
        "2"@
    } else if d == 3 {
        "3"@
    } else if d == 4 {
        "4"@
    } else if d == 5 {
        "5"@
    } else if d == 6 {
        "6"@
    } else if d == 7 {
        "7"@
    } else if d == 8 {
        "8"@
    } else {
        "9"@
    }
}

/// The text of hexadecimal digit `d` (lower case).
pub open spec fn hex_digit_text(d: nat) -> Seq<char> {
    if d < 10 {
        digit_text(d)
    } else if d == 10 {
        "a"@
    } else if d == 11 {
        "b"@
    } else if d == 12 {
        "c"@
    } else if d == 13 {
        "d"@
    } else if d == 14 {
        "e"@
    } else {
        "f"@
    }
}

/// Decimal text of `n`, no leading zeros.
pub open spec fn decimal(n: nat) -> Seq<char>
    decreases n,
{
    if n < 10 {
        digit_text(n)
    } else {
        decimal(n / 10) + digit_text(n % 10)
    }
}

/// Two lower-case hexadecimal digits of a byte.
pub open spec fn hex2(b: u8) -> Seq<char> {
    hex_digit_text((b / 16) as nat) + hex_digit_text((b % 16) as nat)
}

/// Text of `s` followed by spaces up to `width` characters.
pub open spec fn pad_right(s: Seq<char>, width: nat) -> Seq<char> {
    if s.len() >= width {
        s
    } else {
        s + Seq::new((width - s.len()) as nat, |i: int| ' ')
    }
}

/// Spaces up to `width` characters followed by the text `s`.
pub open spec fn pad_left(s: Seq<char>, width: nat) -> Seq<char> {
    if s.len() >= width {
        s
    } else {
        Seq::new((width - s.len()) as nat, |i: int| ' ') + s
    }
}

fn hex_digit_str(d: u8) -> (r: &'static str)
    requires
        d < 16,
    ensures
        r@ == hex_digit_text(d as nat),
{
    match d {
        0 => "0",
        1 => "1",
        2 => "2",
        3 => "3",
        4 => "4",
        5 => "5",
        6 => "6",
        7 => "7",
        8 => "8",
        9 => "9",
        10 => "a",
        11 => "b",
        12 => "c",
        13 => "d",
        14 => "e",
        _ => "f",
    }
}

/// Appends the decimal text of `n`.
pub fn push_decimal(s: &mut String, n: usize)
    ensures
        final(s)@ == old(s)@ + decimal(n as nat),
    decreases n,
{
    if n >= 10 {
        push_decimal(s, n / 10);
    }
    let d: u8 = (n % 10) as u8;
    s.append(hex_digit_str(d));
}

/// Appends one lower-case hexadecimal digit of a value below 16.
pub fn push_hex1(s: &mut String, v: u8)
    requires
        v < 16,
    ensures
        final(s)@ == old(s)@ + hex_digit_text(v as nat),
{
    s.append(hex_digit_str(v));
}

/// Appends the two lower-case hexadecimal digits of a byte.
pub fn push_hex2(s: &mut String, b: u8)
    ensures
        final(s)@ == old(s)@ + hex2(b),
{
    s.append(hex_digit_str(b / 16));
    s.append(hex_digit_str(b % 16));
}

/// Appends `n` spaces.
pub fn push_spaces(s: &mut String, n: usize)
    ensures
        final(s)@ == old(s)@ + Seq::new(n as nat, |i: int| ' '),
{
    let ghost start = s@;
    let mut k: usize = 0;
    while k < n
        invariant
            k <= n,
            s@ == start + Seq::new(k as nat, |i: int| ' '),
        decreases n - k,
    {
        let ghost before = s@;
        s.append(" ");
        proof {
            reveal_strlit(" ");
        }
        assert(s@ =~= start + Seq::new((k + 1) as nat, |i: int| ' '));
        k += 1;
    }
}

/// The ASCII byte of hexadecimal digit `d` (lower case).
pub open spec fn hex_digit_byte(d: nat) -> u8 {
    if d < 10 {
        (48 + d) as u8
    } else {
        (87 + d) as u8
    }
}

/// The bytes of a text of ASCII characters.
pub open spec fn ascii_bytes(t: Seq<char>) -> Seq<u8> {
    Seq::new(t.len(), |i: int| t[i] as u8)
}

/// A hexadecimal digit's text is the one character of its ASCII byte.
pub proof fn lemma_hex_digit_text(d: nat)
    requires
        d < 16,
    ensures
        hex_digit_text(d).len() == 1,
        hex_digit_text(d)[0] as u8 == hex_digit_byte(d),
{
    reveal_strlit("0");
    reveal_strlit("1");
    reveal_strlit("2");
    reveal_strlit("3");
    reveal_strlit("4");
    reveal_strlit("5");
    reveal_strlit("6");
    reveal_strlit("7");
    reveal_strlit("8");
    reveal_strlit("9");
    reveal_strlit("a");
    reveal_strlit("b");
    reveal_strlit("c");
    reveal_strlit("d");
    reveal_strlit("e");
    reveal_strlit("f");
}

/// The two characters of a byte in hexadecimal, as ASCII bytes.
pub proof fn lemma_hex2_bytes(b: u8)
    ensures
        hex2(b).len() == 2,
        ascii_bytes(hex2(b)) == seq![hex_digit_byte((b / 16) as nat), hex_digit_byte((b % 16) as nat)],
{
    lemma_hex_digit_text((b / 16) as nat);
    lemma_hex_digit_text((b % 16) as nat);
    assert(ascii_bytes(hex2(b)) =~= seq![hex_digit_byte((b / 16) as nat), hex_digit_byte((b % 16) as nat)]);
}

} // verus!
