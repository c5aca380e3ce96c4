use diffutilslib::side_diff::{Config, LineFormatter};
use std::io::Write;

const DEF_TAB_SIZE: usize = 4;


fn create_test_config(expanded: bool, tab_size: usize) -> Config {
    Config {
        sdiff_half_width: 30,
        sdiff_column_two_offset: 60,
        tab_size,
        expanded,
        separator_pos: 15,
    }
}

#[test]
fn test_empty_line_left_expanded_false() {
    let config = create_test_config(false, DEF_TAB_SIZE);
    let mut buf = vec![];
    let mut formatter = LineFormatter::new(&config, &mut buf);
    formatter.process_half_line(b"", 10, false, false).unwrap();
    assert_eq!(buf.len(), 5);
    assert_eq!(buf, vec![b'\t', b'\t', b' ', b' ', b' ']);
}

#[test]
fn test_tabs_unexpanded() {
    let config = create_test_config(false, DEF_TAB_SIZE);
    let mut buf = vec![];
    let mut formatter = LineFormatter::new(&config, &mut buf);
    formatter
        .process_half_line(b"\tabc", 8, false, false)
        .unwrap();
    assert_eq!(buf, vec![b'\t', b'a', b'b', b'c', b'\t', b' ']);
}

#[test]
fn test_utf8_multibyte() {
    let config = create_test_config(false, DEF_TAB_SIZE);
    let mut buf = vec![];
    let mut formatter = LineFormatter::new(&config, &mut buf);
    let s = "😉😉😉".as_bytes();
    formatter.process_half_line(s, 3, false, false).unwrap();
    let mut r = vec![];
    r.write_all("😉\t".as_bytes()).unwrap();
    assert_eq!(buf, r)
}

#[test]
fn test_newline_handling() {
    let config = create_test_config(false, DEF_TAB_SIZE);
    let mut buf = vec![];
    let mut formatter = LineFormatter::new(&config, &mut buf);
    formatter
        .process_half_line(b"abc\ndef", 5, false, false)
        .unwrap();
    assert_eq!(buf, vec![b'a', b'b', b'c', b'\t', b' ', b' ']);
}

#[test]
fn test_carriage_return() {
    let config = create_test_config(false, DEF_TAB_SIZE);
    let mut buf = vec![];
    let mut formatter = LineFormatter::new(&config, &mut buf);
    formatter
        .process_half_line(b"\rxyz", 5, true, false)
        .unwrap();
    let mut r = vec![b'\r'];
    r.extend(vec![b'\t'; 15]);
    r.extend(vec![b'x', b'y', b'z']);
    assert_eq!(buf, r);
}

#[test]
fn test_exact_width_fit() {
    let config = create_test_config(true, DEF_TAB_SIZE);
    let mut buf = vec![];
    let mut formatter = LineFormatter::new(&config, &mut buf);
    formatter
        .process_half_line(b"abcd", 4, false, false)
        .unwrap();
    assert_eq!(buf.len(), 5);
    assert_eq!(buf, b"abcd ".to_vec());
}

#[test]
fn test_non_utf8_bytes() {
    let config = create_test_config(false, DEF_TAB_SIZE);
    let mut buf = vec![];
    let mut formatter = LineFormatter::new(&config, &mut buf);
    // ISO-8859-1
    formatter
        .process_half_line(&[0x63, 0x61, 0x66, 0xE9], 5, false, false)
        .unwrap();
    assert_eq!(&buf, &[0x63, 0x61, 0x66, 0xE9, b' ', b' ']);
    assert!(String::from_utf8(buf).is_err());
}

#[test]
fn test_non_utf8_bytes_ignore_padding_bytes() {
    let config = create_test_config(false, DEF_TAB_SIZE);
    let mut buf = vec![];
    let mut formatter = LineFormatter::new(&config, &mut buf);
    let utf32le_bytes = [
        0x63, 0x00, 0x00, 0x00, // 'c'
        0x61, 0x00, 0x00, 0x00, // 'a'
        0x66, 0x00, 0x00, 0x00, // 'f'
        0xE9, 0x00, 0x00, 0x00, // 'é'
    ];
    // utf8 little endiand 32 bits (or 4 bytes per char)
    formatter
        .process_half_line(&utf32le_bytes, 6, false, false)
        .unwrap();
    let mut r = utf32le_bytes.to_vec();
    r.extend(vec![b' '; 3]);
    assert_eq!(buf, r);
}

#[test]
fn test_non_utf8_non_preserve_ascii_bytes_cut() {
    let config = create_test_config(false, DEF_TAB_SIZE);
    let mut buf = vec![];
    let mut formatter = LineFormatter::new(&config, &mut buf);
    let gb18030 = b"\x63\x61\x66\xA8\x80"; // some random chinese encoding
    //                                   ^ é char, start multi byte
    formatter
        .process_half_line(gb18030, 4, false, false)
        .unwrap();
    assert_eq!(buf, b"\x63\x61\x66\xA8 "); // break the encoding of 'é' letter
}

#[test]
fn test_right_line_padding() {
    let config = create_test_config(false, DEF_TAB_SIZE);
    let mut buf = vec![];
    let mut formatter = LineFormatter::new(&config, &mut buf);
    formatter.process_half_line(b"xyz", 5, true, true).unwrap();
    assert_eq!(buf.len(), 3);
}

#[test]
fn test_mixed_tabs_spaces() {
    let config = create_test_config(false, DEF_TAB_SIZE);
    let mut buf = vec![];
    let mut formatter = LineFormatter::new(&config, &mut buf);
    formatter
        .process_half_line(b"\t  \t", 10, false, false)
        .unwrap();
    assert_eq!(buf, vec![b'\t', b' ', b' ', b'\t', b' ', b' ', b' ']);
}

#[test]
fn test_overflow_multibyte() {
    let config = create_test_config(false, DEF_TAB_SIZE);
    let mut buf = vec![];
    let mut formatter = LineFormatter::new(&config, &mut buf);
    let s = "日本語".as_bytes();
    formatter.process_half_line(s, 5, false, false).unwrap();
    assert_eq!(buf, "日本  ".as_bytes());
}

#[test]
fn test_white_space_gutter() {
    let config = create_test_config(false, DEF_TAB_SIZE);
    let mut buf = vec![];
    let mut formatter = LineFormatter::new(&config, &mut buf);
    let s = b"abc";
    formatter.process_half_line(s, 3, false, true).unwrap();
    assert_eq!(buf, b"abc\t  ");
}

#[test]
fn test_expanded_true() {
    let config = create_test_config(true, DEF_TAB_SIZE);
    let mut buf = vec![];
    let mut formatter = LineFormatter::new(&config, &mut buf);
    let s = b"abc";
    formatter.process_half_line(s, 10, false, false).unwrap();
    assert_eq!(buf, b"abc        ")
}

#[test]
fn test_expanded_true_with_gutter() {
    let config = create_test_config(true, DEF_TAB_SIZE);
    let mut buf = vec![];
    let mut formatter = LineFormatter::new(&config, &mut buf);
    let s = b"abc";
    formatter.process_half_line(s, 10, false, true).unwrap();
    assert_eq!(buf, b"abc          ")
}

#[test]
fn test_width0_chars() {
    let config = create_test_config(false, DEF_TAB_SIZE);
    let mut buf = vec![];
    let mut formatter = LineFormatter::new(&config, &mut buf);
    let s = b"abc\0\x0B\x07\x0C";
    formatter.process_half_line(s, 4, false, false).unwrap();
    assert_eq!(buf, b"abc\0\x0B\x07\x0C\t ")
}

#[test]
fn test_left_empty_white_space_gutter() {
    let config = create_test_config(false, DEF_TAB_SIZE);
    let mut buf = vec![];
    let mut formatter = LineFormatter::new(&config, &mut buf);
    let s = b"";
    formatter.process_half_line(s, 9, false, true).unwrap();
    assert_eq!(buf, b"\t\t\t");
}

#[test]
fn test_s_size_eq_max_width_p1() {
    let config = create_test_config(false, DEF_TAB_SIZE);
    let mut buf = vec![];
    let mut formatter = LineFormatter::new(&config, &mut buf);
    let s = b"abcdefghij";
    formatter.process_half_line(s, 10, false, false).unwrap();
    assert_eq!(buf, b"abcdefghij ");
}

#[test]
fn test_mixed_tabs_and_spaces_inversion() {
    let config = create_test_config(false, DEF_TAB_SIZE);
    let mut buf = vec![];
    let mut formatter = LineFormatter::new(&config, &mut buf);
    let s = b" \t \t ";
    formatter.process_half_line(s, 10, false, false).unwrap();
    assert_eq!(buf, b" \t \t   ");
}

#[test]
fn test_expanded_with_tabs() {
    let config = create_test_config(true, DEF_TAB_SIZE);
    let mut buf = vec![];
    let mut formatter = LineFormatter::new(&config, &mut buf);
    let s = b" \t \t ";
    formatter.process_half_line(s, 10, false, false).unwrap();
    assert_eq!(buf, b"           ");
}

#[test]
fn test_expanded_with_tabs_and_space_gutter() {
    let config = create_test_config(true, DEF_TAB_SIZE);
    let mut buf = vec![];
    let mut formatter = LineFormatter::new(&config, &mut buf);
    let s = b" \t \t ";
    formatter.process_half_line(s, 10, false, true).unwrap();
    assert_eq!(buf, b"             ");
}

#[test]
fn test_zero_width_unicode_chars() {
    let config = create_test_config(false, DEF_TAB_SIZE);
    let mut buf = vec![];
    let mut formatter = LineFormatter::new(&config, &mut buf);
    let s = "\u{200B}".as_bytes();
    formatter.process_half_line(s, 10, false, false).unwrap();
    assert_eq!(buf, "\u{200B}\t\t   ".as_bytes());
}

#[test]
fn test_multiple_carriage_returns() {
    let config = create_test_config(false, DEF_TAB_SIZE);
    let mut buf = vec![];
    let mut formatter = LineFormatter::new(&config, &mut buf);
    let s = b"\r\r";
    formatter.process_half_line(s, 10, false, false).unwrap();
    let mut r = vec![b'\r'];
    r.extend(vec![b'\t'; 15]);
    r.push(b'\r');
    r.extend(vec![b'\t'; 15]);
    r.extend(vec![b'\t'; 2]);
    r.extend(vec![b' '; 3]);
    assert_eq!(buf, r);
}

#[test]
fn test_multiple_carriage_returns_is_right_true() {
    let config = create_test_config(false, DEF_TAB_SIZE);
    let mut buf = vec![];
    let mut formatter = LineFormatter::new(&config, &mut buf);
    let s = b"\r\r";
    formatter.process_half_line(s, 10, true, false).unwrap();
    let mut r = vec![b'\r'];
    r.extend(vec![b'\t'; 15]);
    r.push(b'\r');
    r.extend(vec![b'\t'; 15]);
    assert_eq!(buf, r);
}

#[test]
fn test_mixed_invalid_utf8_with_valid() {
    let config = create_test_config(false, DEF_TAB_SIZE);
    let mut buf = vec![];
    let mut formatter = LineFormatter::new(&config, &mut buf);
    let s = b"abc\xFF\xFEdef";
    formatter.process_half_line(s, 10, false, false).unwrap();
    assert!(String::from_utf8(s.to_vec()).is_err());
    assert_eq!(buf, b"abc\xFF\xFEdef   ");
}

#[test]
fn test_max_width_zero() {
    let config = create_test_config(false, DEF_TAB_SIZE);
    let mut buf = vec![];
    let mut formatter = LineFormatter::new(&config, &mut buf);
    let s = b"foo bar";
    formatter.process_half_line(s, 0, false, false).unwrap();
    assert_eq!(buf, vec![b' ']);
}

#[test]
fn test_line_only_with_tabs() {
    let config = create_test_config(false, DEF_TAB_SIZE);
    let mut buf = vec![];
    let mut formatter = LineFormatter::new(&config, &mut buf);
    let s = b"\t\t\t";
    formatter.process_half_line(s, 10, false, false).unwrap();
    assert_eq!(buf, vec![b'\t', b'\t', b' ', b' ', b' '])
}

#[test]
fn test_tabs_expanded() {
    let config = create_test_config(true, DEF_TAB_SIZE);
    let mut buf = vec![];
    let mut formatter = LineFormatter::new(&config, &mut buf);
    let s = b"\t\t\t";
    formatter.process_half_line(s, 12, false, false).unwrap();
    assert_eq!(buf, b" ".repeat(13));
}

#[test]
fn test_mixed_tabs() {
    let config = create_test_config(false, DEF_TAB_SIZE);
    let mut buf = vec![];
    let mut formatter = LineFormatter::new(&config, &mut buf);
    let s = b"a\tb\tc\t";
    formatter.process_half_line(s, 10, false, false).unwrap();
    assert_eq!(buf, b"a\tb\tc  ");
}

#[test]
fn test_mixed_tabs_with_gutter() {
    let config = create_test_config(false, DEF_TAB_SIZE);
    let mut buf = vec![];
    let mut formatter = LineFormatter::new(&config, &mut buf);
    let s = b"a\tb\tc\t";
    formatter.process_half_line(s, 10, false, true).unwrap();
    assert_eq!(buf, b"a\tb\tc\t ");
}

#[test]
fn test_mixed_tabs_expanded() {
    let config = create_test_config(true, DEF_TAB_SIZE);
    let mut buf = vec![];
    let mut formatter = LineFormatter::new(&config, &mut buf);
    let s = b"a\tb\tc\t";
    formatter.process_half_line(s, 10, false, false).unwrap();
    assert_eq!(buf, b"a   b   c  ");
}

#[test]
fn test_mixed_tabs_expanded_with_gutter() {
    let config = create_test_config(true, DEF_TAB_SIZE);
    let mut buf = vec![];
    let mut formatter = LineFormatter::new(&config, &mut buf);
    let s = b"a\tb\tc\t";
    formatter.process_half_line(s, 10, false, true).unwrap();
    assert_eq!(buf, b"a   b   c    ");
}

#[test]
fn test_break_if_invalid_max_width() {
    let config = create_test_config(true, DEF_TAB_SIZE);
    let mut buf = vec![];
    let mut formatter = LineFormatter::new(&config, &mut buf);
    let s = b"a\tb\tc\t";
    formatter.process_half_line(s, 61, false, true).unwrap();
    assert_eq!(buf, b"");
    assert_eq!(buf.len(), 0);
}

