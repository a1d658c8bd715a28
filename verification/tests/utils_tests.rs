use newflasher::utils::{
    byte_text, hex_upper, is_noerase_line, parseoct, trace_formatted_hex, u8_ascii,
};

#[test]
fn test_parseoct() {
    assert_eq!(parseoct(b"123", 3), 0b001010011);
    assert_eq!(parseoct(b"1000", 4), 0b1000000000);
    assert_eq!(parseoct(b"777", 3), 0b111111111);

    assert_eq!(parseoct(b"a777z", 5), 0b111111111);
}

#[test]
fn parseoct_reads_only_the_first_n_bytes() {
    assert_eq!(parseoct(b"1234", 2), 0o12);
    assert_eq!(parseoct(b"  17 ", 5), 0o17);
    assert_eq!(parseoct(b"xyz", 3), 0);
    assert_eq!(parseoct(b"", 4), 0);
    assert_eq!(parseoct(b"00000001750\0", 12), 0o1750);
}

#[test]
fn parseoct_wraps_past_64_bits() {
    // 22 octal sevens is 2^66 - 1, which wraps to 2^64 - 1.
    assert_eq!(parseoct(b"7777777777777777777777", 22), u64::MAX);
}

#[test]
fn u8_ascii_shows_control_whitespace_as_spaces() {
    assert_eq!(u8_ascii(b"a\tb\nc\rd"), "a b c d");
    assert_eq!(u8_ascii(&[0x41, 0xE9]), "A\u{e9}");
    assert_eq!(u8_ascii(b""), "");
}

#[test]
fn formatted_hex_dumps_sixteen_bytes_per_line() {
    let dump = trace_formatted_hex("READ", b"OKAY");
    assert_eq!(
        dump,
        format!("READ:\n0x00000000  {:<48} OKAY\n", "4F 4B 41 59 ")
    );
}

#[test]
fn formatted_hex_numbers_lines_and_stops_at_64() {
    let data: Vec<u8> = (0..17u8).collect();
    let dump = trace_formatted_hex("m", &data);
    let lines: Vec<&str> = dump.lines().collect();
    assert_eq!(lines.len(), 3);
    assert_eq!(lines[0], "m:");
    assert!(lines[1].starts_with("0x00000000  00 01 02 03 04 05 06 07 08 09 0A 0B 0C 0D 0E 0F  "));
    assert_eq!(lines[2], format!("0x00000010  {:<48} \u{10}", "10 "));

    let big = vec![0x41u8; 16 * 70];
    let dump = trace_formatted_hex("big", &big);
    assert_eq!(dump.lines().count(), 65);
    assert!(dump.lines().last().unwrap().starts_with("0x000003F0  41 "));
}

#[test]
fn hex_upper_writes_two_digits_per_byte() {
    assert_eq!(hex_upper(&[0x00, 0x0A, 0xBE, 0xEF]), "000ABEEF");
    assert_eq!(hex_upper(&[]), "");
}

#[test]
fn noerase_line_matches_the_trimmed_mark() {
    assert!(is_noerase_line("  <NOERASE>userdata.sin</NOERASE>\r", "userdata.sin"));
    assert!(!is_noerase_line("<NOERASE>userdata.sin</NOERASE>", "system.sin"));
    assert!(!is_noerase_line("", ""));
    assert!(is_noerase_line("<NOERASE></NOERASE>", ""));
}

#[test]
fn byte_text_keeps_every_byte() {
    assert_eq!(byte_text(b"a\tb"), "a\tb");
    assert_eq!(byte_text(&[0xff]), "\u{ff}");
}
