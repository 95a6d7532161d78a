use build_cart::cart::{parse_music_cart, try_parse_music_cart};
use build_cart::music::{bytes_to_sfx_hex, music_hex};

#[test]
fn cart_roundtrip_example() {
    let sfx: Vec<u8> = (0..68 * 64u32).map(|i| (i * 29 % 256) as u8).collect();
    let music: Vec<u8> = (0..256u32).map(|i| (i * 11 % 256) as u8).collect();
    let text = format!(
        "pico-8 cartridge\n__gfx__\n0000\n__sfx__\n{}\n__music__\n{}\n",
        bytes_to_sfx_hex(&sfx),
        music_hex(&music)
    );
    let (s, m) = parse_music_cart(&text);
    assert_eq!(s, sfx);
    assert_eq!(m, music);
}

#[test]
fn cart_without_sections() {
    let (s, m) = parse_music_cart("pico-8 cartridge\n__gfx__\n00\n");
    assert_eq!(s, vec![0u8; 68 * 64]);
    assert_eq!(m, vec![0u8; 256]);
}

#[test]
fn cart_lines_trimmed_and_short_lines_skipped() {
    let text = "__music__\n\n  01 41424344  \r\nxx\n00 01020304\n__sfx__\n";
    let (_, m) = parse_music_cart(text);
    assert_eq!(&m[0..4], &[0xC1, 0x42, 0x43, 0x44]);
    assert_eq!(&m[4..8], &[0, 0, 0, 0]);
    assert_eq!(&m[8..12], &[1, 2, 3, 4]);
}

#[test]
fn cart_line_cut_inside_character() {
    assert!(try_parse_music_cart("__music__\n0\u{e9} 01020304\n").is_none());
    assert!(try_parse_music_cart("__music__\n00 01020304\n").is_some());
}
