use build_cart::music::{
    bytes_to_gff_hex, bytes_to_gfx, bytes_to_map_hex, bytes_to_sfx_hex, music_hex, parse_hex_field, parse_p8_sfx_line,
};

#[test]
fn sfx_hex_of_nothing() {
    let hex = bytes_to_sfx_hex(&[]);
    let lines: Vec<&str> = hex.split('\n').collect();
    assert_eq!(lines.len(), 64);
    assert!(lines.iter().all(|l| l.len() == 168 && l.chars().all(|c| c == '0')));
}

#[test]
fn sfx_note_fields() {
    let mut slot = vec![0u8; 68];
    // pitch 0x25, waveform 6 (bits 6-7 of b0 and bit 0 of b1), volume 5, effect 3, custom
    slot[0] = 0x25 | (2 << 6);
    slot[1] = 1 | (5 << 1) | (3 << 4) | 0x80;
    slot[64] = 0x01;
    slot[67] = 0xab;
    let hex = bytes_to_sfx_hex(&slot);
    let first = hex.split('\n').next().unwrap();
    assert_eq!(&first[0..8], "010000ab");
    assert_eq!(&first[8..13], "25e53");
}

#[test]
fn sfx_line_roundtrip_example() {
    let data: Vec<u8> = (0..68 * 64u32).map(|i| (i * 37 % 251) as u8).collect();
    let hex = bytes_to_sfx_hex(&data);
    for (i, line) in hex.split('\n').enumerate() {
        assert_eq!(parse_p8_sfx_line(line).to_vec(), data[i * 68..(i + 1) * 68].to_vec());
    }
}

#[test]
fn music_line_flags() {
    let mut m = vec![0u8; 256];
    m[0..4].copy_from_slice(&[0x81, 0x02, 0x83, 0x04]);
    let hex = music_hex(&m);
    let first = hex.split('\n').next().unwrap();
    assert_eq!(first, "05 01020304");
    assert_eq!(hex.split('\n').count(), 64);
}

#[test]
fn gfx_rows_low_nibble_first() {
    let hex = bytes_to_gfx(&[0x12]);
    let rows: Vec<&str> = hex.split('\n').collect();
    assert_eq!(rows.len(), 128);
    assert_eq!(rows[0].len(), 128);
    assert!(rows[0].starts_with("2100"));
}

#[test]
fn map_and_gff_rows() {
    let hex = bytes_to_map_hex(&[0xab]);
    let rows: Vec<&str> = hex.split('\n').collect();
    assert_eq!(rows.len(), 32);
    assert_eq!(rows[0].len(), 256);
    assert!(rows[0].starts_with("ab00"));
    let gff = bytes_to_gff_hex(&[0x01, 0x80]);
    let rows: Vec<&str> = gff.split('\n').collect();
    assert_eq!(rows.len(), 2);
    assert!(rows[0].starts_with("0180"));
}

#[test]
fn hex_fields() {
    assert_eq!(parse_hex_field(b"1f", 0, 2), 31);
    assert_eq!(parse_hex_field(b"FF", 0, 2), 255);
    assert_eq!(parse_hex_field(b"+f", 0, 2), 15);
    assert_eq!(parse_hex_field(b"zz", 0, 2), 0);
    assert_eq!(parse_hex_field(b"", 0, 0), 0);
    assert_eq!(parse_hex_field(b"100", 0, 3), 0);
    assert_eq!(parse_hex_field(b"+", 0, 1), 0);
    assert_eq!(parse_hex_field(b"-1", 0, 2), 0);
}

#[test]
fn hex_sections_read_back() {
    let data: Vec<u8> = (0..5000u32).map(|i| (i * 97 % 256) as u8).collect();
    let sections = [
        (bytes_to_gfx(&data), 128usize, 64usize, true),
        (bytes_to_map_hex(&data), 32, 128, false),
        (bytes_to_gff_hex(&data), 2, 128, false),
    ];
    for (text, rows, row_bytes, lo_first) in sections.iter() {
        let lines: Vec<&str> = text.split('\n').collect();
        assert_eq!(lines.len(), *rows);
        for (r, line) in lines.iter().enumerate() {
            assert_eq!(line.len(), 2 * row_bytes);
            for c in 0..*row_bytes {
                let d0 = u8::from_str_radix(&line[2 * c..2 * c + 1], 16).unwrap();
                let d1 = u8::from_str_radix(&line[2 * c + 1..2 * c + 2], 16).unwrap();
                let b = if *lo_first { d0 + 16 * d1 } else { 16 * d0 + d1 };
                let k = r * row_bytes + c;
                assert_eq!(b, if k < data.len() { data[k] } else { 0 });
            }
        }
    }
}

#[test]
fn sfx_hex_lines_read_back() {
    let data: Vec<u8> = (0..68 * 10u32).map(|i| (i * 31 % 256) as u8).collect();
    let text = bytes_to_sfx_hex(&data);
    let lines: Vec<&str> = text.split('\n').collect();
    assert_eq!(lines.len(), 64);
    for (i, line) in lines.iter().enumerate() {
        assert_eq!(line.len(), 168);
        let want: Vec<u8> = (0..68).map(|k| if i * 68 + k < data.len() { data[i * 68 + k] } else { 0 }).collect();
        assert_eq!(parse_p8_sfx_line(line).to_vec(), want);
    }
}
