use diffutilslib::lines::split_lines;
use diffutilslib::side_diff::{diff, side_by_side, Config, Edit, LineFormatter, OutputHandler};

fn column_after(mut col: usize, bytes: &[u8], tab_size: usize) -> usize {
    for &b in bytes {
        if b == b'\t' {
            col += tab_size - col % tab_size;
        } else {
            col += 1;
        }
    }
    col
}

fn test_config(expanded: bool) -> Config {
    Config {
        sdiff_half_width: 30,
        sdiff_column_two_offset: 60,
        tab_size: 4,
        expanded,
        separator_pos: 15,
    }
}

#[test]
fn config_new_default_geometry() {
    let c = Config::new(130, 8, false);
    assert_eq!(c.sdiff_half_width, 61);
    assert_eq!(c.sdiff_column_two_offset, 64);
    assert_eq!(c.separator_pos, 62);
    assert_eq!(c.tab_size, 8);
    assert!(!c.expanded);
}

#[test]
fn config_new_narrow_row() {
    let c = Config::new(20, 4, true);
    assert_eq!(c.sdiff_half_width, 8);
    assert_eq!(c.sdiff_column_two_offset, 12);
    assert_eq!(c.separator_pos, 9);
    assert!(c.expanded);
}

#[test]
fn config_new_no_room_for_a_half_line() {
    let c = Config::new(1, 8, false);
    assert_eq!(c.sdiff_half_width, 0);
    assert_eq!(c.sdiff_column_two_offset, 1);
    assert_eq!(c.separator_pos, 0);
}

#[test]
fn padding_reaches_the_target_column() {
    let config = test_config(false);
    for from in 0..20 {
        for to in from..40 {
            let mut buf = vec![];
            let mut f = LineFormatter::new(&config, &mut buf);
            f.format_tabs_and_spaces(from, to);
            assert_eq!(column_after(from, &buf, 4), to);
        }
    }
}

#[test]
fn expanded_padding_is_only_spaces() {
    let config = test_config(true);
    let mut buf = vec![];
    let mut f = LineFormatter::new(&config, &mut buf);
    f.format_tabs_and_spaces(3, 17);
    assert_eq!(buf, vec![b' '; 14]);
}

#[test]
fn printable_text_that_fits_is_kept() {
    let config = test_config(false);
    let mut buf = vec![];
    let mut f = LineFormatter::new(&config, &mut buf);
    f.process_half_line(b"hello world", 20, true, false).unwrap();
    assert_eq!(buf, b"hello world");
}

#[test]
fn left_half_line_ends_at_the_gutter() {
    let config = test_config(false);
    for gutter in [false, true] {
        let mut buf = vec![];
        let mut f = LineFormatter::new(&config, &mut buf);
        f.process_half_line(b"ab\tc", 10, false, gutter).unwrap();
        let expected = 10 + if gutter { 3 } else { 1 };
        assert_eq!(column_after(0, &buf, 4), expected);
    }
}

#[test]
fn utf8_line_stays_utf8_when_cut() {
    let config = test_config(false);
    let mut buf = vec![];
    let mut f = LineFormatter::new(&config, &mut buf);
    f.process_half_line("aé日本語x".as_bytes(), 4, false, true).unwrap();
    assert!(String::from_utf8(buf.clone()).is_ok());
    assert_eq!(buf, "aé日   ".as_bytes());
}

#[test]
fn left_line_wider_than_second_column_is_dropped() {
    let config = Config {
        sdiff_half_width: 30,
        sdiff_column_two_offset: 5,
        tab_size: 4,
        expanded: false,
        separator_pos: 3,
    };
    let mut buf = vec![];
    let mut f = LineFormatter::new(&config, &mut buf);
    f.process_half_line(b"abc", 10, false, false).unwrap();
    assert!(buf.is_empty());
    let mut buf = vec![];
    let mut f = LineFormatter::new(&config, &mut buf);
    f.process_half_line(b"abc", 10, true, false).unwrap();
    assert_eq!(buf, b"abc");
}

#[test]
fn push_output_left_only_row_with_newline() {
    let mut out = vec![];
    let mut h = OutputHandler::new(Config::new(130, 8, false), &mut out);
    h.push_output(b"x\n", b"", b'<').unwrap();
    assert_eq!(h.left_ln_buf, {
        let mut v = b"x".to_vec();
        v.extend(vec![b'\t'; 7]);
        v.extend(vec![b' '; 6]);
        v
    });
    let mut expected = b"x".to_vec();
    expected.extend(vec![b'\t'; 7]);
    expected.extend(vec![b' '; 6]);
    expected.push(b'<');
    expected.push(b'\t');
    expected.push(b'\n');
    assert_eq!(out, expected);
}

#[test]
fn push_output_matched_row_has_blank_gutter() {
    let mut out = vec![];
    let mut h = OutputHandler::new(Config::new(130, 8, false), &mut out);
    h.push_output(b"same", b"same", b' ').unwrap();
    let mut expected = b"same".to_vec();
    expected.extend(vec![b'\t'; 8]);
    expected.extend(b"same");
    assert_eq!(out, expected);
}

#[test]
fn split_lines_drops_only_the_piece_after_a_final_newline() {
    assert_eq!(split_lines(b"a\n\nb"), vec![b"a".to_vec(), vec![], b"b".to_vec()]);
    assert_eq!(split_lines(b"a\nb\n"), vec![b"a".to_vec(), b"b".to_vec()]);
    assert_eq!(split_lines(b""), Vec::<Vec<u8>>::new());
    assert_eq!(split_lines(b"\n"), vec![Vec::<u8>::new()]);
    assert_eq!(split_lines(b"\n\n"), vec![Vec::<u8>::new(), Vec::<u8>::new()]);
}

#[test]
fn split_lines_joined_give_back_the_data() {
    let data = b"one\ntwo\n\nthree";
    let lines = split_lines(data);
    assert_eq!(lines.join(&b'\n'), data.to_vec());
}

#[test]
fn diff_shows_each_edit_in_a_row() {
    let out = diff(b"a\nb\n", b"a\nc\n");
    let mut expected = b"a".to_vec();
    expected.extend(vec![b'\t'; 8]);
    expected.extend(b"a");
    expected.extend(b"b");
    expected.extend(vec![b'\t'; 7]);
    expected.extend(vec![b' '; 6]);
    expected.extend(b"<\t");
    expected.extend(vec![b'\t'; 7]);
    expected.extend(vec![b' '; 6]);
    expected.extend(b">\t");
    expected.extend(b"c");
    assert_eq!(out, expected);
}

#[test]
fn diff_of_equal_files_has_only_blank_gutters() {
    let out = diff(b"x\ny\n", b"x\ny\n");
    assert!(!out.contains(&b'<'));
    assert!(!out.contains(&b'>'));
}

#[test]
fn diff_of_empty_files_is_empty() {
    assert!(diff(b"", b"").is_empty());
}

#[test]
fn side_by_side_of_edits() {
    let config = Config::new(20, 4, false);
    let edits = vec![Edit::Left(b"l".to_vec()), Edit::Right(b"r".to_vec())];
    let out = side_by_side(config, &edits);
    // left half: "l" padded to column 9 (half width 8 + 1), then '<' and
    // padding from column 10 to 12; right row: padding to 9, '>', padding, "r"
    let mut expected = b"l\t\t ".to_vec();
    expected.extend(b"<\t");
    expected.extend(b"\t\t ");
    expected.extend(b">\t");
    expected.extend(b"r");
    assert_eq!(out, expected);
}

#[test]
fn nothing_after_a_newline_is_written() {
    for expanded in [false, true] {
        for (is_right, gutter) in [(false, false), (false, true), (true, false)] {
            for line in [&b"ab\tc\ndef\tgh"[..], "é日\n本".as_bytes(), &b"a\xFFb\nc\xFE"[..]] {
                let i = line.iter().position(|&b| b == b'\n').unwrap();
                let config = test_config(expanded);
                let mut whole = vec![];
                let mut f = LineFormatter::new(&config, &mut whole);
                f.process_half_line(line, 10, is_right, gutter).unwrap();
                let mut before = vec![];
                let mut f = LineFormatter::new(&config, &mut before);
                f.process_half_line(&line[..i], 10, is_right, gutter).unwrap();
                assert_eq!(whole, before);
            }
        }
    }
}

#[test]
fn output_handler_reserves_its_buffers() {
    let mut out = vec![];
    let h = OutputHandler::new(Config::new(130, 8, false), &mut out);
    assert!(h.left_ln_buf.capacity() >= 64);
    assert!(h.right_ln_buf.capacity() >= 61);
    assert!(h.left_ln_buf.is_empty() && h.right_ln_buf.is_empty());
}
