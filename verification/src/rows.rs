//! The model of whole rows: a row per edit of a script between the lines
//! of two files.
use vstd::prelude::*;
use crate::side_diff::Config;
use crate::layout::{padding, NEWLINE_BYTE, SPACE_BYTE};
use crate::layout::column_after;
use crate::half_line::{
    gutter_columns, half_line, has_no_newline, lemma_half_line_has_no_newline,
    lemma_left_half_line_ends_at_gutter, line_glyphs, scan_all,
};

verus! {

/// Whether a line ends with a newline byte.
pub open spec fn ends_with_newline(s: Seq<u8>) -> bool {
    s.len() > 0 && s.last() == NEWLINE_BYTE
}

/// One row of side-by-side output: the left half line, then (unless the
/// symbol is a space, which leaves the gutter blank) the symbol and the
/// padding from the column after the separator to the second column, then
/// the right half line, and a newline when either line ends with one.
pub open spec fn row(cfg: Config, left: Seq<u8>, right: Seq<u8>, symbol: u8) -> Seq<u8> {
    let blank_gutter = symbol == SPACE_BYTE;
    let hw = cfg.sdiff_half_width as int;
    let middle = if blank_gutter {
        seq![]
    } else {
        seq![symbol] + padding(
            cfg.separator_pos + 1,
            cfg.sdiff_column_two_offset as int,
            cfg.tab_size as int,
            cfg.expanded,
        )
    };
    let newline = if ends_with_newline(left) || ends_with_newline(right) {
        seq![NEWLINE_BYTE]
    } else {
        seq![]
    };
    half_line(cfg, left, hw, false, blank_gutter) + middle + half_line(cfg, right, hw, true, blank_gutter)
        + newline
}

/// One step of an edit script between the lines of two files.
pub enum EditView {
    /// A line only in the left file.
    Left(Seq<u8>),
    /// A line only in the right file.
    Right(Seq<u8>),
    /// A line of the left file matched with a line of the right file.
    Both(Seq<u8>, Seq<u8>),
}

/// The row that shows one edit: `<` for a line only on the left, `>` for a
/// line only on the right, a blank gutter for a matched pair.
pub open spec fn edit_row(cfg: Config, e: EditView) -> Seq<u8> {
    match e {
        EditView::Left(l) => row(cfg, l, seq![], 60u8),
        EditView::Right(r) => row(cfg, seq![], r, 62u8),
        EditView::Both(l, r) => row(cfg, l, r, SPACE_BYTE),
    }
}

/// The rows of an edit script, one after another.
pub open spec fn rows(cfg: Config, es: Seq<EditView>) -> Seq<u8>
    decreases es.len(),
{
    if es.len() == 0 {
        seq![]
    } else {
        rows(cfg, es.drop_last()) + edit_row(cfg, es.last())
    }
}

/// The left file's lines that an edit script goes through, in order.
pub open spec fn left_side(es: Seq<EditView>) -> Seq<Seq<u8>>
    decreases es.len(),
{
    if es.len() == 0 {
        seq![]
    } else {
        let prev = left_side(es.drop_last());
        match es.last() {
            EditView::Left(l) => prev.push(l),
            EditView::Both(l, _) => prev.push(l),
            EditView::Right(_) => prev,
        }
    }
}

/// The right file's lines that an edit script goes through, in order.
pub open spec fn right_side(es: Seq<EditView>) -> Seq<Seq<u8>>
    decreases es.len(),
{
    if es.len() == 0 {
        seq![]
    } else {
        let prev = right_side(es.drop_last());
        match es.last() {
            EditView::Right(r) => prev.push(r),
            EditView::Both(_, r) => prev.push(r),
            EditView::Left(_) => prev,
        }
    }
}

/// Every matched pair of an edit script pairs two equal lines.
pub open spec fn matches_are_equal(es: Seq<EditView>) -> bool {
    forall|i: int|
        0 <= i < es.len() ==> match #[trigger] es[i] {
            EditView::Both(l, r) => l == r,
            _ => true,
        }
}

/// Every step of an edit script matches a line of each side.
pub open spec fn all_matched(es: Seq<EditView>) -> bool {
    forall|i: int| 0 <= i < es.len() ==> #[trigger] es[i] is Both
}

/// Law: a row ends with a newline exactly when its left or its right line
/// does, and that newline is the only one the row holds.
pub proof fn lemma_row_newline(cfg: Config, left: Seq<u8>, right: Seq<u8>, symbol: u8)
    requires
        symbol != NEWLINE_BYTE,
    ensures
        ends_with_newline(row(cfg, left, right, symbol)) <==> (ends_with_newline(left)
            || ends_with_newline(right)),
        forall|j: int|
            0 <= j < row(cfg, left, right, symbol).len() - 1 ==> #[trigger] row(
                cfg,
                left,
                right,
                symbol,
            )[j] != NEWLINE_BYTE,
{
    let blank_gutter = symbol == SPACE_BYTE;
    let hw = cfg.sdiff_half_width as int;
    let lh = half_line(cfg, left, hw, false, blank_gutter);
    let rh = half_line(cfg, right, hw, true, blank_gutter);
    lemma_half_line_has_no_newline(cfg, left, hw, false, blank_gutter);
    lemma_half_line_has_no_newline(cfg, right, hw, true, blank_gutter);
    let pad = padding(
        cfg.separator_pos + 1,
        cfg.sdiff_column_two_offset as int,
        cfg.tab_size as int,
        cfg.expanded,
    );
    crate::half_line::lemma_padding_has_no_newline(
        cfg.separator_pos + 1,
        cfg.sdiff_column_two_offset as int,
        cfg.tab_size as int,
        cfg.expanded,
    );
    let middle = if blank_gutter {
        Seq::<u8>::empty()
    } else {
        seq![symbol] + pad
    };
    let body = lh + middle + rh;
    assert(has_no_newline(body)) by {
        assert forall|j: int| 0 <= j < body.len() implies #[trigger] body[j] != NEWLINE_BYTE by {
            if j < lh.len() {
                assert(body[j] == lh[j]);
            } else if j < lh.len() + middle.len() {
                assert(body[j] == middle[j - lh.len()]);
                if !blank_gutter && j > lh.len() {
                    assert(middle[j - lh.len()] == pad[j - lh.len() - 1]);
                }
            } else {
                assert(body[j] == rh[j - lh.len() - middle.len()]);
            }
        }
    }
    let rw = row(cfg, left, right, symbol);
    if ends_with_newline(left) || ends_with_newline(right) {
        assert(rw == body + seq![NEWLINE_BYTE]);
        assert forall|j: int| 0 <= j < rw.len() - 1 implies #[trigger] rw[j] != NEWLINE_BYTE by {
            assert(rw[j] == body[j]);
        }
    } else {
        assert(rw =~= body);
        if rw.len() > 0 {
            assert(rw.last() == body[body.len() - 1]);
        }
    }
}

/// Law: a row is written in full whatever its lines hold. It starts with
/// its left half line, which is never empty and ends exactly at the
/// gutter's columns past the half width; unless the gutter is blank, the
/// symbol follows it.
pub proof fn lemma_row_starts_with_left_half(cfg: Config, left: Seq<u8>, right: Seq<u8>, symbol: u8)
    requires
        cfg.tab_size > 0,
        cfg.sdiff_half_width <= cfg.sdiff_column_two_offset,
    ensures
        ({
            let blank_gutter = symbol == SPACE_BYTE;
            let hw = cfg.sdiff_half_width as int;
            let lh = half_line(cfg, left, hw, false, blank_gutter);
            let st = scan_all(cfg, hw, line_glyphs(left));
            let rw = row(cfg, left, right, symbol);
            &&& lh.len() >= 1
            &&& rw.len() >= lh.len()
            &&& rw.subrange(0, lh.len() as int) == lh
            &&& !blank_gutter ==> rw.len() > lh.len() && rw[lh.len() as int] == symbol
            &&& lh == st.0 + padding(
                st.1,
                hw + gutter_columns(blank_gutter),
                cfg.tab_size as int,
                cfg.expanded,
            )
            &&& column_after(
                st.1,
                padding(st.1, hw + gutter_columns(blank_gutter), cfg.tab_size as int, cfg.expanded),
                cfg.tab_size as int,
            ) == hw + gutter_columns(blank_gutter)
        }),
{
    let blank_gutter = symbol == SPACE_BYTE;
    let hw = cfg.sdiff_half_width as int;
    let g = gutter_columns(blank_gutter);
    lemma_left_half_line_ends_at_gutter(cfg, left, hw, blank_gutter);
    crate::half_line::lemma_scan_within_width(cfg, hw, line_glyphs(left), line_glyphs(left).len());
    let st = scan_all(cfg, hw, line_glyphs(left));
    let pad = padding(st.1, hw + g, cfg.tab_size as int, cfg.expanded);
    let t = cfg.tab_size as int;
    assert(pad.len() >= 1) by {
        if !cfg.expanded && (hw + g) / t > st.1 / t {
        } else {
            assert(hw + g - st.1 >= 1);
        }
    }
    let lh = half_line(cfg, left, hw, false, blank_gutter);
    let rw = row(cfg, left, right, symbol);
    assert(rw.subrange(0, lh.len() as int) =~= lh);
}

/// Law: an edit script is shown one row per edit, in order, whatever the
/// edit's lines hold: a line only on the left as its row with `<` and an
/// empty right line, a line only on the right as its row with `>` and an
/// empty left line, a matched pair as its row with a blank gutter.
pub proof fn lemma_rows_one_row_per_edit(cfg: Config, es: Seq<EditView>, e: EditView)
    ensures
        rows(cfg, Seq::<EditView>::empty()) == Seq::<u8>::empty(),
        rows(cfg, es.push(e)) == rows(cfg, es) + match e {
            EditView::Left(l) => row(cfg, l, Seq::<u8>::empty(), 60u8),
            EditView::Right(r) => row(cfg, Seq::<u8>::empty(), r, 62u8),
            EditView::Both(l, r) => row(cfg, l, r, SPACE_BYTE),
        },
{
    assert(es.push(e).drop_last() =~= es);
}

} // verus!
