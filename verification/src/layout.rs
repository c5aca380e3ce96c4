//! Padding with tabs and spaces, the display column that a run of bytes
//! reaches, and the geometry of a side-by-side row.
use vstd::prelude::*;
use vstd::arithmetic::div_mod::{lemma_fundamental_div_mod, lemma_div_multiples_vanish_fancy};
use crate::side_diff::{Config, GUTTER_WIDTH_MIN};

verus! {


pub const TAB_BYTE: u8 = 9;

pub const SPACE_BYTE: u8 = 32;

pub const NEWLINE_BYTE: u8 = 10;

pub const CARRIAGE_RETURN_BYTE: u8 = 13;

/// `n` copies of the byte `b`.
pub open spec fn repeat_byte(b: u8, n: nat) -> Seq<u8> {
    Seq::new(n, |_i: int| b)
}

/// The padding that moves the display column from `from` to `to`:
/// nothing when `from > to`; only spaces when `expanded`; otherwise one tab
/// for each tab stop in `(from, to]`, then spaces from the last tab stop
/// up to `to`.
pub open spec fn padding(from: int, to: int, tab_size: int, expanded: bool) -> Seq<u8> {
    if from > to {
        seq![]
    } else if expanded {
        repeat_byte(SPACE_BYTE, (to - from) as nat)
    } else if to / tab_size > from / tab_size {
        repeat_byte(TAB_BYTE, (to / tab_size - from / tab_size) as nat) + repeat_byte(
            SPACE_BYTE,
            (to % tab_size) as nat,
        )
    } else {
        repeat_byte(SPACE_BYTE, (to - from) as nat)
    }
}

/// The first tab stop strictly after column `col`.
pub open spec fn next_tab_stop(col: int, tab_size: int) -> int {
    col + (tab_size - col % tab_size)
}

/// The display column reached from `col` by writing `bytes`, where a tab
/// moves to the next tab stop and every other byte takes one column.
pub open spec fn column_after(col: int, bytes: Seq<u8>, tab_size: int) -> int
    decreases bytes.len(),
{
    if bytes.len() == 0 {
        col
    } else if bytes[0] == TAB_BYTE {
        column_after(next_tab_stop(col, tab_size), bytes.drop_first(), tab_size)
    } else {
        column_after(col + 1, bytes.drop_first(), tab_size)
    }
}

/// Arithmetic of tab stops: the next tab stop after `col` is the multiple of
/// `tab_size` that follows `col / tab_size`.
pub proof fn lemma_next_tab_stop(col: int, tab_size: int)
    requires
        col >= 0,
        tab_size > 0,
    ensures
        next_tab_stop(col, tab_size) == (col / tab_size + 1) * tab_size,
        next_tab_stop(col, tab_size) / tab_size == col / tab_size + 1,
        next_tab_stop(col, tab_size) % tab_size == 0,
        next_tab_stop(col, tab_size) > col,
{
    lemma_fundamental_div_mod(col, tab_size);
    let q = col / tab_size;
    assert(next_tab_stop(col, tab_size) == tab_size * (q + 1)) by (nonlinear_arith)
        requires
            col == tab_size * q + col % tab_size,
    ;
    lemma_div_multiples_vanish_fancy(q + 1, 0, tab_size);
    assert((tab_size * (q + 1)) % tab_size == 0) by {
        lemma_fundamental_div_mod(tab_size * (q + 1), tab_size);
        assert(tab_size * (q + 1) + 0 == tab_size * (q + 1));
    }
    assert((q + 1) * tab_size == tab_size * (q + 1)) by (nonlinear_arith);
}

/// The next tab stop after a column up to `to` is no further than the next
/// tab stop after `to`.
pub proof fn lemma_next_tab_stop_bounded(col: int, to: int, tab_size: int)
    requires
        0 <= col <= to,
        tab_size > 0,
    ensures
        next_tab_stop(col, tab_size) <= (to / tab_size + 1) * tab_size,
{
    lemma_next_tab_stop(col, tab_size);
    vstd::arithmetic::div_mod::lemma_div_is_ordered(col, to, tab_size);
    let q = col / tab_size;
    let qt = to / tab_size;
    assert((q + 1) * tab_size <= (qt + 1) * tab_size) by (nonlinear_arith)
        requires
            q <= qt,
            tab_size > 0,
    ;
}

/// Writing spaces moves the column by one for each space.
pub proof fn lemma_column_after_spaces(col: int, n: nat, tab_size: int)
    ensures
        column_after(col, repeat_byte(SPACE_BYTE, n), tab_size) == col + n,
    decreases n,
{
    if n > 0 {
        assert(repeat_byte(SPACE_BYTE, n).drop_first() =~= repeat_byte(SPACE_BYTE, (n - 1) as nat));
        lemma_column_after_spaces(col + 1, (n - 1) as nat, tab_size);
    }
}

/// Writing `k` tabs from column `col` moves to the `k`-th tab stop after it.
pub proof fn lemma_column_after_tabs(col: int, k: nat, rest: Seq<u8>, tab_size: int)
    requires
        col >= 0,
        tab_size > 0,
        k > 0,
    ensures
        column_after(col, repeat_byte(TAB_BYTE, k) + rest, tab_size) == column_after(
            (col / tab_size + k) * tab_size,
            rest,
            tab_size,
        ),
    decreases k,
{
    let s = repeat_byte(TAB_BYTE, k) + rest;
    lemma_next_tab_stop(col, tab_size);
    let nxt = next_tab_stop(col, tab_size);
    assert(s[0] == TAB_BYTE);
    assert(s.drop_first() =~= repeat_byte(TAB_BYTE, (k - 1) as nat) + rest);
    if k > 1 {
        lemma_column_after_tabs(nxt, (k - 1) as nat, rest, tab_size);
        assert((nxt / tab_size + (k - 1)) * tab_size == (col / tab_size + k) * tab_size);
    } else {
        assert(s.drop_first() =~= rest);
    }
}

/// Law: the padding written between two columns ends exactly at the target
/// column, whether it is made of tabs and spaces or of spaces only.
pub proof fn lemma_padding_reaches_column(from: int, to: int, tab_size: int, expanded: bool)
    requires
        0 <= from <= to,
        tab_size > 0,
    ensures
        column_after(from, padding(from, to, tab_size, expanded), tab_size) == to,
{
    if expanded || !(to / tab_size > from / tab_size) {
        lemma_column_after_spaces(from, (to - from) as nat, tab_size);
    } else {
        let k = (to / tab_size - from / tab_size) as nat;
        let sp = repeat_byte(SPACE_BYTE, (to % tab_size) as nat);
        lemma_column_after_tabs(from, k, sp, tab_size);
        lemma_column_after_spaces((from / tab_size + k) * tab_size, (to % tab_size) as nat, tab_size);
        lemma_fundamental_div_mod(to, tab_size);
        assert((to / tab_size) * tab_size == tab_size * (to / tab_size)) by (nonlinear_arith);
    }
}

/// Where the second column would start for a row of `w` columns and tabs of
/// `t` columns, before it is moved back to a tab stop: half the row plus
/// half of a tab and gutter, rounded up when both are odd.
pub open spec fn unaligned_offset(w: int, t: int) -> int {
    let tg = t + (GUTTER_WIDTH_MIN as int);
    w / 2 + tg / 2 + (if w % 2 == 1 && tg % 2 == 1 {
        1int
    } else {
        0int
    })
}

/// The start of the second column: the unaligned offset moved back to a
/// tab stop.
pub open spec fn aligned_offset(w: int, t: int) -> int {
    unaligned_offset(w, t) - unaligned_offset(w, t) % t
}

/// The width of a half line: what fits both before the gutter and after
/// the second column's start, and never below zero.
pub open spec fn half_width_for(w: int, t: int) -> int {
    let off = aligned_offset(w, t);
    let m = if off - (GUTTER_WIDTH_MIN as int) <= w - off {
        off - (GUTTER_WIDTH_MIN as int)
    } else {
        w - off
    };
    if m > 0 {
        m
    } else {
        0
    }
}

/// The configuration for rows of `w` columns and tabs of `t` columns: when
/// no half line fits, the second column starts at the end of the row; the
/// separator stands midway between the first half's end and the second
/// column, rounded down.
pub open spec fn config_for(w: usize, t: usize, expanded: bool) -> Config {
    let hw = half_width_for(w as int, t as int);
    let c2o = if hw != 0 {
        aligned_offset(w as int, t as int)
    } else {
        w as int
    };
    Config {
        sdiff_half_width: hw as usize,
        sdiff_column_two_offset: c2o as usize,
        tab_size: t,
        expanded,
        separator_pos: ((hw + c2o - 1) / 2) as usize,
    }
}

/// Law: in a configuration made for `w` columns, both halves and the
/// gutter fit in the row; when a half line fits at all, the second column
/// starts on a tab stop at least a gutter's width after the first half,
/// and the separator stands strictly between them.
pub proof fn lemma_config_geometry(w: usize, t: usize, expanded: bool)
    requires
        1 <= w <= isize::MAX,
        1 <= t,
        t + (GUTTER_WIDTH_MIN as int) <= isize::MAX,
    ensures
        ({
            let c = config_for(w, t, expanded);
            &&& c.sdiff_half_width + c.sdiff_column_two_offset <= w
            &&& c.sdiff_half_width == 0 ==> c.sdiff_column_two_offset == w
            &&& c.sdiff_half_width > 0 ==> {
                &&& c.sdiff_half_width + (GUTTER_WIDTH_MIN as int) <= c.sdiff_column_two_offset
                &&& c.sdiff_column_two_offset % t == 0
                &&& c.sdiff_half_width < c.separator_pos < c.sdiff_column_two_offset
            }
        }),
{
    let u = unaligned_offset(w as int, t as int);
    assert(u >= 0);
    lemma_fundamental_div_mod(u, t as int);
    let off = aligned_offset(w as int, t as int);
    assert(off >= 0);
    if half_width_for(w as int, t as int) > 0 {
        assert(off == (t as int) * (u / (t as int)));
        vstd::arithmetic::div_mod::lemma_mod_multiples_basic(u / (t as int), t as int);
        assert((u / (t as int)) * (t as int) == (t as int) * (u / (t as int))) by (nonlinear_arith);
    }
}

} // verus!
