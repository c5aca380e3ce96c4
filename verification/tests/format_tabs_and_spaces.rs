use diffutilslib::side_diff::{Config, LineFormatter};

const DEF_TAB_SIZE: usize = 4;


const CONFIG_E_T: Config = Config {
    sdiff_half_width: 60,
    tab_size: DEF_TAB_SIZE,
    expanded: true,
    sdiff_column_two_offset: 0,
    separator_pos: 0,
};

const CONFIG_E_F: Config = Config {
    sdiff_half_width: 60,
    tab_size: DEF_TAB_SIZE,
    expanded: false,
    sdiff_column_two_offset: 0,
    separator_pos: 0,
};

fn build_ln_formatter(expanded: bool, buf: &mut Vec<u8>) -> LineFormatter {
    if expanded {
        LineFormatter {
            config: &CONFIG_E_T,
            buf,
        }
    } else {
        LineFormatter {
            config: &CONFIG_E_F,
            buf,
        }
    }
}

#[test]
fn test_format_tabs_and_spaces_expanded_false() {
    let mut buf = vec![];
    let mut formatter = build_ln_formatter(false, &mut buf);
    formatter.format_tabs_and_spaces(0, 5);
    assert_eq!(buf, vec![b'\t', b' ']);
}

#[test]
fn test_format_tabs_and_spaces_expanded_true() {
    let mut buf = vec![];
    let mut formatter = build_ln_formatter(true, &mut buf);
    formatter.format_tabs_and_spaces(0, 5);
    assert_eq!(buf, vec![b' '; 5]);
}

#[test]
fn test_format_tabs_and_spaces_from_greater_than_to() {
    let mut buf = vec![];
    let mut formatter = build_ln_formatter(false, &mut buf);
    formatter.format_tabs_and_spaces(6, 5);
    assert!(buf.is_empty());
}

#[test]
fn test_format_from_non_zero_position() {
    let mut buf = vec![];
    let mut formatter = build_ln_formatter(false, &mut buf);
    formatter.format_tabs_and_spaces(2, 7);
    assert_eq!(buf, vec![b'\t', b' ', b' ', b' ']);
}

#[test]
fn test_multiple_full_tabs_needed() {
    let mut buf = vec![];
    let mut formatter = build_ln_formatter(false, &mut buf);
    formatter.format_tabs_and_spaces(0, 12);
    assert_eq!(buf, vec![b'\t', b'\t', b'\t']);
}

#[test]
fn test_uneven_tab_boundary_with_spaces() {
    let mut buf = vec![];
    let mut formatter = build_ln_formatter(false, &mut buf);
    formatter.format_tabs_and_spaces(3, 10);
    assert_eq!(buf, vec![b'\t', b'\t', b' ', b' ']);
}

#[test]
fn test_expanded_true_with_offset() {
    let mut buf = vec![];
    let mut formatter = build_ln_formatter(true, &mut buf);
    formatter.format_tabs_and_spaces(3, 9);
    assert_eq!(buf, vec![b' '; 6]);
}

#[test]
fn test_exact_tab_boundary_from_midpoint() {
    let mut buf = vec![];
    let mut formatter = build_ln_formatter(false, &mut buf);
    formatter.format_tabs_and_spaces(4, 8);
    assert_eq!(buf, vec![b'\t']);
}

#[test]
fn test_mixed_tabs_and_spaces_edge_case() {
    let mut buf = vec![];
    let mut formatter = build_ln_formatter(false, &mut buf);
    formatter.format_tabs_and_spaces(5, 9);
    assert_eq!(buf, vec![b'\t', b' ']);
}

#[test]
fn test_minimal_gap_with_tab() {
    let mut buf = vec![];
    let mut formatter = build_ln_formatter(false, &mut buf);
    formatter.format_tabs_and_spaces(7, 8);
    assert_eq!(buf, vec![b'\t']);
}

#[test]
fn test_expanded_false_with_tab_at_end() {
    let mut buf = vec![];
    let mut formatter = build_ln_formatter(false, &mut buf);
    formatter.format_tabs_and_spaces(6, 8);
    assert_eq!(buf, vec![b'\t']);
}
