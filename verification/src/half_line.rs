//! The model of one half of a row: a line's glyphs laid out within a
//! width, and the laws that the layout keeps.
use vstd::prelude::*;
use vstd::utf8::{
    valid_utf8, decode_utf8, encode_scalar, encode_utf8, valid_first_scalar, pop_first_scalar,
    encode_utf8_valid_utf8, valid_utf8_concat, valid_utf8_split, decode_utf8_split,
    is_char_boundary_iff_not_is_continuation_byte, decode_first_scalar,
};
use crate::side_diff::Config;
use crate::bindings::unicode_width;
use crate::layout::{
    column_after, lemma_column_after_spaces, lemma_next_tab_stop, next_tab_stop, lemma_padding_reaches_column, padding, repeat_byte, CARRIAGE_RETURN_BYTE,
    NEWLINE_BYTE, SPACE_BYTE, TAB_BYTE,
};

verus! {

/// One unit of a line to lay out: a character of a UTF-8 line or a byte of
/// any other line, with the columns it takes and the bytes it is written as.
pub struct GlyphView {
    pub code: u32,
    pub width: nat,
    pub bytes: Seq<u8>,
}

/// Control codes that are written through but take no column.
pub open spec fn is_zero_width_control(code: u32) -> bool {
    code == 0 || code == 7 || code == 11 || code == 12
}

/// The columns a character takes: its Unicode width, or one column for a
/// control character, which has none.
pub open spec fn char_columns(c: char) -> nat {
    match unicode_width(c) {
        Some(w) => w as nat,
        None => 1,
    }
}

/// A character of a UTF-8 line as a glyph.
pub open spec fn glyph_of_char(c: char) -> GlyphView {
    GlyphView { code: c as u32, width: char_columns(c), bytes: encode_scalar(c as u32) }
}

/// A byte of a line that is not UTF-8 as a glyph: one column, written as is.
pub open spec fn glyph_of_byte(b: u8) -> GlyphView {
    GlyphView { code: b as u32, width: 1, bytes: seq![b] }
}

/// The glyphs of a line: its characters when it is valid UTF-8, else its bytes.
pub open spec fn line_glyphs(s: Seq<u8>) -> Seq<GlyphView> {
    if valid_utf8(s) {
        decode_utf8(s).map_values(|c: char| glyph_of_char(c))
    } else {
        s.map_values(|b: u8| glyph_of_byte(b))
    }
}

/// Laying out one glyph at column `col` of a half line of at most
/// `max_width` columns: `None` ends the line (the glyph does not fit, or it
/// is a newline); otherwise the bytes written and the new column.
/// A tab that does not fit is dropped; a carriage return pads up to the
/// second column and starts again at column zero.
pub open spec fn glyph_step(cfg: Config, max_width: int, col: int, g: GlyphView) -> Option<(Seq<u8>, int)> {
    let tab = cfg.tab_size as int;
    if col + g.width > max_width {
        None
    } else if g.code == TAB_BYTE as u32 {
        let adv = tab - col % tab;
        if col + adv <= max_width {
            Some(
                (
                    if cfg.expanded {
                        repeat_byte(SPACE_BYTE, adv as nat)
                    } else {
                        seq![TAB_BYTE]
                    },
                    col + adv,
                ),
            )
        } else {
            Some((seq![], col))
        }
    } else if g.code == NEWLINE_BYTE as u32 {
        None
    } else if g.code == CARRIAGE_RETURN_BYTE as u32 {
        Some(
            (
                seq![CARRIAGE_RETURN_BYTE] + padding(
                    0,
                    cfg.sdiff_column_two_offset as int,
                    tab,
                    cfg.expanded,
                ),
                0,
            ),
        )
    } else if is_zero_width_control(g.code) {
        Some((g.bytes, col))
    } else {
        Some((g.bytes, col + g.width))
    }
}

/// The state after laying out the first `n` glyphs from column zero: the
/// bytes written, the column reached, and whether the line has ended.
pub open spec fn scan(cfg: Config, max_width: int, gs: Seq<GlyphView>, n: nat) -> (Seq<u8>, int, bool)
    decreases n,
{
    if n == 0 {
        (seq![], 0, false)
    } else {
        let prev = scan(cfg, max_width, gs, (n - 1) as nat);
        if prev.2 {
            prev
        } else {
            match glyph_step(cfg, max_width, prev.1, gs[n - 1]) {
                None => (prev.0, prev.1, true),
                Some(step) => (prev.0 + step.0, step.1, false),
            }
        }
    }
}

/// The state after laying out all the glyphs of a line.
pub open spec fn scan_all(cfg: Config, max_width: int, gs: Seq<GlyphView>) -> (Seq<u8>, int, bool) {
    scan(cfg, max_width, gs, gs.len())
}

/// The columns between the end of a left half line and the right column:
/// the whole gutter when it stays blank, else only its first column.
pub open spec fn gutter_columns(white_space_gutter: bool) -> int {
    if white_space_gutter {
        3
    } else {
        1
    }
}

/// The bytes of one half line: nothing when `max_width` is wider than the
/// half width (or, on the left, than the second column's offset);
/// otherwise its glyphs laid out, and on the left the padding up to the
/// gutter's columns past `max_width`.
#[verifier::opaque]
pub open spec fn half_line(
    cfg: Config,
    s: Seq<u8>,
    max_width: int,
    is_right: bool,
    white_space_gutter: bool,
) -> Seq<u8> {
    if max_width > cfg.sdiff_half_width || (max_width > cfg.sdiff_column_two_offset && !is_right) {
        seq![]
    } else {
        let st = scan_all(cfg, max_width, line_glyphs(s));
        if is_right {
            st.0
        } else {
            st.0 + padding(
                st.1,
                max_width + gutter_columns(white_space_gutter),
                cfg.tab_size as int,
                cfg.expanded,
            )
        }
    }
}

/// Once a line has ended, later glyphs change nothing.
pub proof fn lemma_scan_stopped(cfg: Config, max_width: int, gs: Seq<GlyphView>, n: nat, m: nat)
    requires
        n <= m,
        scan(cfg, max_width, gs, n).2,
    ensures
        scan(cfg, max_width, gs, m) == scan(cfg, max_width, gs, n),
    decreases m - n,
{
    if m > n {
        lemma_scan_stopped(cfg, max_width, gs, n, (m - 1) as nat);
    }
}

/// Two glyph sequences that agree on their first `n` glyphs lay them out
/// alike.
pub proof fn lemma_scan_agrees(
    cfg: Config,
    max_width: int,
    a: Seq<GlyphView>,
    b: Seq<GlyphView>,
    n: nat,
)
    requires
        n <= a.len(),
        n <= b.len(),
        forall|k: int| 0 <= k < n ==> a[k] == b[k],
    ensures
        scan(cfg, max_width, a, n) == scan(cfg, max_width, b, n),
    decreases n,
{
    if n > 0 {
        lemma_scan_agrees(cfg, max_width, a, b, (n - 1) as nat);
        assert(a[n - 1] == b[n - 1]);
    }
}

/// A newline glyph ends the line: glyphs that continue `a` with a newline
/// are laid out as `a` alone, whatever follows the newline.
pub proof fn lemma_scan_ends_at_newline(cfg: Config, max_width: int, a: Seq<GlyphView>, b: Seq<GlyphView>)
    requires
        a.len() < b.len(),
        forall|k: int| 0 <= k < a.len() ==> a[k] == b[k],
        b[a.len() as int].code == NEWLINE_BYTE as u32,
    ensures
        scan_all(cfg, max_width, b).0 == scan_all(cfg, max_width, a).0,
        scan_all(cfg, max_width, b).1 == scan_all(cfg, max_width, a).1,
{
    let n = a.len();
    lemma_scan_agrees(cfg, max_width, a, b, n);
    assert(scan(cfg, max_width, b, n + 1).2);
    lemma_scan_stopped(cfg, max_width, b, n + 1, b.len());
}

/// Law: nothing from a newline of a line on is ever written. A half line is
/// the half line of its bytes before the newline (the first one, in
/// particular), when both are read the same way: the whole line as UTF-8,
/// or neither of them.
pub proof fn lemma_nothing_after_newline(
    cfg: Config,
    s: Seq<u8>,
    max_width: int,
    is_right: bool,
    white_space_gutter: bool,
    i: int,
)
    requires
        0 <= i < s.len(),
        s[i] == NEWLINE_BYTE,
        valid_utf8(s) || !valid_utf8(s.subrange(0, i)),
    ensures
        half_line(cfg, s, max_width, is_right, white_space_gutter) == half_line(
            cfg,
            s.subrange(0, i),
            max_width,
            is_right,
            white_space_gutter,
        ),
{
    reveal(half_line);
    let p = s.subrange(0, i);
    let a = line_glyphs(p);
    let b = line_glyphs(s);
    if valid_utf8(s) {
        is_char_boundary_iff_not_is_continuation_byte(s, i);
        valid_utf8_split(s, i);
        decode_utf8_split(s, i);
        let t = s.subrange(i, s.len() as int);
        assert(t[0] == NEWLINE_BYTE);
        let ten: u8 = NEWLINE_BYTE;
        assert((ten & 0x7F) as u32 == 10u32) by (bit_vector)
            requires
                ten == 10u8,
        ;
        assert(decode_first_scalar(t) == 10u32);
        let d = decode_utf8(t);
        assert(d.len() > 0);
        assert(d[0] == (10u32 as char));
        assert(d[0] as u32 == 10u32);
        let dp = decode_utf8(p);
        let ds = decode_utf8(s);
        assert(ds == dp + d);
        assert(b[dp.len() as int] == glyph_of_char(d[0]));
        assert forall|k: int| 0 <= k < a.len() implies a[k] == b[k] by {
            assert(ds[k] == dp[k]);
        }
        lemma_scan_ends_at_newline(cfg, max_width, a, b);
    } else {
        assert forall|k: int| 0 <= k < a.len() implies a[k] == b[k] by {
            assert(p[k] == s[k]);
        }
        assert(b[i] == glyph_of_byte(s[i]));
        lemma_scan_ends_at_newline(cfg, max_width, a, b);
    }
}

/// Law: laying out glyphs never goes past `max_width` columns.
pub proof fn lemma_scan_within_width(cfg: Config, max_width: int, gs: Seq<GlyphView>, n: nat)
    requires
        max_width >= 0,
        cfg.tab_size > 0,
    ensures
        0 <= scan(cfg, max_width, gs, n).1 <= max_width,
    decreases n,
{
    if n > 0 {
        lemma_scan_within_width(cfg, max_width, gs, (n - 1) as nat);
        let prev = scan(cfg, max_width, gs, (n - 1) as nat);
        let tab = cfg.tab_size as int;
        assert(0 <= prev.1 % tab < tab);
    }
}

/// Law: a left half line is its laid-out text followed by padding that
/// ends exactly at the gutter's columns past `max_width`, whichever text it
/// holds.
pub proof fn lemma_left_half_line_ends_at_gutter(
    cfg: Config,
    s: Seq<u8>,
    max_width: int,
    white_space_gutter: bool,
)
    requires
        cfg.tab_size > 0,
        0 <= max_width <= cfg.sdiff_half_width,
        max_width <= cfg.sdiff_column_two_offset,
    ensures
        ({
            let st = scan_all(cfg, max_width, line_glyphs(s));
            let to = max_width + gutter_columns(white_space_gutter);
            &&& half_line(cfg, s, max_width, false, white_space_gutter) == st.0 + padding(
                st.1,
                to,
                cfg.tab_size as int,
                cfg.expanded,
            )
            &&& column_after(st.1, padding(st.1, to, cfg.tab_size as int, cfg.expanded), cfg.tab_size as int)
                == to
        }),
{
    reveal(half_line);
    let gs = line_glyphs(s);
    lemma_scan_within_width(cfg, max_width, gs, gs.len());
    let st = scan_all(cfg, max_width, gs);
    lemma_padding_reaches_column(
        st.1,
        max_width + gutter_columns(white_space_gutter),
        cfg.tab_size as int,
        cfg.expanded,
    );
}

/// Bytes below 0x80 are valid UTF-8, one character each.
pub proof fn lemma_ascii_valid_utf8(bytes: Seq<u8>)
    requires
        forall|i: int| 0 <= i < bytes.len() ==> bytes[i] <= 0x7F,
    ensures
        valid_utf8(bytes),
    decreases bytes.len(),
{
    if bytes.len() > 0 {
        let b = bytes[0];
        assert((b & 0x7F) as u32 == b as u32) by (bit_vector)
            requires
                b <= 0x7F,
        ;
        assert(valid_first_scalar(bytes));
        assert(pop_first_scalar(bytes) =~= bytes.drop_first());
        lemma_ascii_valid_utf8(bytes.drop_first());
    }
}

/// Padding is made of tabs and spaces only, so it is valid UTF-8.
pub proof fn lemma_padding_valid_utf8(from: int, to: int, tab_size: int, expanded: bool)
    ensures
        valid_utf8(padding(from, to, tab_size, expanded)),
{
    lemma_ascii_valid_utf8(padding(from, to, tab_size, expanded));
}

/// Laying out glyphs whose bytes are each valid UTF-8 writes valid UTF-8.
pub proof fn lemma_scan_valid_utf8(cfg: Config, max_width: int, gs: Seq<GlyphView>, n: nat)
    requires
        n <= gs.len(),
        forall|i: int| 0 <= i < gs.len() ==> valid_utf8(#[trigger] gs[i].bytes),
    ensures
        valid_utf8(scan(cfg, max_width, gs, n).0),
    decreases n,
{
    broadcast use valid_utf8_concat;

    if n > 0 {
        lemma_scan_valid_utf8(cfg, max_width, gs, (n - 1) as nat);
        let prev = scan(cfg, max_width, gs, (n - 1) as nat);
        let g = gs[n - 1];
        let tab = cfg.tab_size as int;
        lemma_ascii_valid_utf8(seq![TAB_BYTE]);
        lemma_ascii_valid_utf8(seq![CARRIAGE_RETURN_BYTE]);
        lemma_ascii_valid_utf8(Seq::<u8>::empty());
        lemma_ascii_valid_utf8(repeat_byte(SPACE_BYTE, (tab - prev.1 % tab) as nat));
        lemma_padding_valid_utf8(0, cfg.sdiff_column_two_offset as int, tab, cfg.expanded);
        valid_utf8_concat(
            seq![CARRIAGE_RETURN_BYTE],
            padding(0, cfg.sdiff_column_two_offset as int, tab, cfg.expanded),
        );
        assert(valid_utf8(g.bytes));
        if !prev.2 {
            match glyph_step(cfg, max_width, prev.1, g) {
                None => {},
                Some(step) => {
                    assert(valid_utf8(step.0));
                    valid_utf8_concat(prev.0, step.0);
                },
            }
        }
    }
}

/// Law: a half line of valid UTF-8 is written as valid UTF-8: characters
/// are never cut, and everything added around them is ASCII.
pub proof fn lemma_half_line_keeps_utf8(
    cfg: Config,
    s: Seq<u8>,
    max_width: int,
    is_right: bool,
    white_space_gutter: bool,
)
    requires
        valid_utf8(s),
    ensures
        valid_utf8(half_line(cfg, s, max_width, is_right, white_space_gutter)),
{
    broadcast use valid_utf8_concat;

    reveal(half_line);
    let gs = line_glyphs(s);
    assert forall|i: int| 0 <= i < gs.len() implies valid_utf8(#[trigger] gs[i].bytes) by {
        let c = decode_utf8(s)[i];
        assert(seq![c].drop_first() =~= Seq::<char>::empty());
        assert(encode_utf8(Seq::<char>::empty()) =~= Seq::<u8>::empty());
        assert(encode_utf8(seq![c].drop_first()) =~= Seq::<u8>::empty());
        assert(seq![c][0] == c);
        assert(encode_utf8(seq![c]) =~= encode_scalar(c as u32));
        encode_utf8_valid_utf8(seq![c]);
    }
    lemma_scan_valid_utf8(cfg, max_width, gs, gs.len());
    let st = scan_all(cfg, max_width, gs);
    lemma_padding_valid_utf8(
        st.1,
        max_width + gutter_columns(white_space_gutter),
        cfg.tab_size as int,
        cfg.expanded,
    );
    lemma_ascii_valid_utf8(Seq::<u8>::empty());
}

/// Printable ASCII: every byte from a space up to a tilde.
pub open spec fn is_printable_ascii(s: Seq<u8>) -> bool {
    forall|i: int| 0 <= i < s.len() ==> 0x20 <= #[trigger] s[i] < 0x7F
}

/// A glyph of printable ASCII: one column, written as its own byte.
pub open spec fn is_plain_glyph(g: GlyphView) -> bool {
    &&& 0x20 <= g.code < 0x7F
    &&& g.width == 1
    &&& g.bytes == seq![g.code as u8]
}

/// ASCII bytes decode to the characters with the same values, each encoded
/// as its own byte.
pub proof fn lemma_ascii_decode(s: Seq<u8>)
    requires
        forall|i: int| 0 <= i < s.len() ==> s[i] <= 0x7F,
    ensures
        valid_utf8(s),
        decode_utf8(s).len() == s.len(),
        forall|i: int|
            0 <= i < s.len() ==> (#[trigger] decode_utf8(s)[i]) as u32 == s[i] as u32
                && encode_scalar(decode_utf8(s)[i] as u32) == seq![s[i]],
    decreases s.len(),
{
    lemma_ascii_valid_utf8(s);
    if s.len() > 0 {
        let b = s[0];
        assert((b & 0x7F) as u32 == b as u32) by (bit_vector)
            requires
                b <= 0x7F,
        ;
        assert(pop_first_scalar(s) =~= s.drop_first());
        lemma_ascii_decode(s.drop_first());
        let d = decode_utf8(s);
        assert forall|i: int| 0 <= i < s.len() implies (#[trigger] d[i]) as u32 == s[i] as u32
            && encode_scalar(d[i] as u32) == seq![s[i]] by {
            if i > 0 {
                assert(d[i] == decode_utf8(s.drop_first())[i - 1]);
            }
            let v = d[i] as u32;
            let bi = s[i];
            assert(v == bi as u32);
            assert((v & 0x7F) as u8 == bi) by (bit_vector)
                requires
                    v == bi as u32,
                    bi <= 0x7F,
            ;
            assert(encode_scalar(v) =~= seq![bi]);
        }
    }
}

/// Law: glyphs of printable ASCII that fit in `max_width` are written as
/// they are, one column each, and the line goes on.
pub proof fn lemma_scan_plain(cfg: Config, max_width: int, gs: Seq<GlyphView>, n: nat)
    requires
        n <= gs.len(),
        n <= max_width,
        forall|i: int| 0 <= i < n ==> is_plain_glyph(#[trigger] gs[i]),
    ensures
        scan(cfg, max_width, gs, n) == (Seq::new(n, |i: int| gs[i].code as u8), n as int, false),
    decreases n,
{
    if n > 0 {
        lemma_scan_plain(cfg, max_width, gs, (n - 1) as nat);
        let g = gs[n - 1];
        assert(is_plain_glyph(g));
        assert(Seq::new((n - 1) as nat, |i: int| gs[i].code as u8) + g.bytes =~= Seq::new(
            n,
            |i: int| gs[i].code as u8,
        ));
    }
}

/// The columns that glyphs take, added up.
pub open spec fn total_width(gs: Seq<GlyphView>) -> nat
    decreases gs.len(),
{
    if gs.len() == 0 {
        0
    } else {
        total_width(gs.drop_last()) + gs.last().width
    }
}

/// The bytes of glyphs, one glyph after another.
pub open spec fn all_bytes(gs: Seq<GlyphView>) -> Seq<u8>
    decreases gs.len(),
{
    if gs.len() == 0 {
        seq![]
    } else {
        all_bytes(gs.drop_last()) + gs.last().bytes
    }
}

/// The first `n` glyphs of a line without control codes are laid out as
/// their longest prefix that fits in `max_width` columns: the state is
/// that prefix's bytes and width, given with the prefix's length.
pub proof fn lemma_scan_cut(cfg: Config, max_width: int, gs: Seq<GlyphView>, n: nat) -> (k: nat)
    requires
        max_width >= 0,
        n <= gs.len(),
        forall|i: int| 0 <= i < gs.len() ==> #[trigger] gs[i].code >= 0x20,
    ensures
        k <= n,
        scan(cfg, max_width, gs, n).0 == all_bytes(gs.take(k as int)),
        scan(cfg, max_width, gs, n).1 == total_width(gs.take(k as int)),
        total_width(gs.take(k as int)) <= max_width,
        !scan(cfg, max_width, gs, n).2 ==> k == n,
        scan(cfg, max_width, gs, n).2 ==> k < n && total_width(gs.take(k as int + 1)) > max_width,
    decreases n,
{
    if n == 0 {
        assert(gs.take(0) =~= Seq::<GlyphView>::empty());
        0
    } else {
        let k0 = lemma_scan_cut(cfg, max_width, gs, (n - 1) as nat);
        let prev = scan(cfg, max_width, gs, (n - 1) as nat);
        if prev.2 {
            k0
        } else {
            let g = gs[n - 1];
            assert(g.code >= 0x20);
            assert(gs.take(n as int).drop_last() =~= gs.take(n - 1));
            assert(gs.take(n as int).last() == g);
            if prev.1 + g.width > max_width {
                (n - 1) as nat
            } else {
                n
            }
        }
    }
}

/// Law: a line without control codes is cut at its longest prefix that
/// fits in `max_width` columns; all of that prefix is written, nothing
/// after it, and the column reached is the prefix's width.
pub proof fn lemma_layout_cuts_at_width(cfg: Config, max_width: int, gs: Seq<GlyphView>)
    requires
        max_width >= 0,
        forall|i: int| 0 <= i < gs.len() ==> #[trigger] gs[i].code >= 0x20,
    ensures
        exists|k: int|
            0 <= k <= gs.len() && scan_all(cfg, max_width, gs).0 == all_bytes(#[trigger] gs.take(k))
                && scan_all(cfg, max_width, gs).1 == total_width(gs.take(k)) && total_width(
                gs.take(k),
            ) <= max_width && (k == gs.len() || total_width(gs.take(k + 1)) > max_width),
{
    let k = lemma_scan_cut(cfg, max_width, gs, gs.len());
    assert(gs.take(k as int) == gs.take(k as int));
}

/// No byte of `s` is a newline.
pub open spec fn has_no_newline(s: Seq<u8>) -> bool {
    forall|j: int| 0 <= j < s.len() ==> #[trigger] s[j] != NEWLINE_BYTE
}

/// A glyph holds a newline byte only when it is the newline itself.
pub open spec fn newline_only_as_itself(g: GlyphView) -> bool {
    g.code != NEWLINE_BYTE as u32 ==> has_no_newline(g.bytes)
}

/// The UTF-8 encoding of a character other than a newline holds no newline
/// byte: other one-byte characters are other bytes, and every byte of a
/// longer encoding is at least 0x80.
pub proof fn lemma_encoding_has_no_newline(c: char)
    requires
        c as u32 != NEWLINE_BYTE as u32,
    ensures
        has_no_newline(encode_scalar(c as u32)),
{
    let v = c as u32;
    vstd::utf8::char_is_scalar(c);
    assert(v <= 0x7F ==> (v & 0x7F) as u8 != 10u8) by (bit_vector)
        requires
            v != 10u32,
    ;
    assert(0xC0u8 | ((v >> 6) & 0x1F) as u8 >= 0x80u8) by (bit_vector);
    assert(0xE0u8 | ((v >> 12) & 0x0F) as u8 >= 0x80u8) by (bit_vector);
    assert(0xF0u8 | ((v >> 18) & 0x7) as u8 >= 0x80u8) by (bit_vector);
    assert(0x80u8 | (v & 0x3F) as u8 >= 0x80u8) by (bit_vector);
    assert(0x80u8 | ((v >> 6) & 0x3F) as u8 >= 0x80u8) by (bit_vector);
    assert(0x80u8 | ((v >> 12) & 0x3F) as u8 >= 0x80u8) by (bit_vector);
}

/// Padding is tabs and spaces, never a newline.
pub proof fn lemma_padding_has_no_newline(from: int, to: int, tab_size: int, expanded: bool)
    ensures
        has_no_newline(padding(from, to, tab_size, expanded)),
{
    let p = padding(from, to, tab_size, expanded);
    assert forall|j: int| 0 <= j < p.len() implies #[trigger] p[j] != NEWLINE_BYTE by {
        if !expanded && from <= to && to / tab_size > from / tab_size {
            let k = (to / tab_size - from / tab_size) as nat;
            if j >= k {
                assert(p[j] == repeat_byte(SPACE_BYTE, (to % tab_size) as nat)[j - k]);
            }
        }
    }
}

/// Laying out glyphs that hold a newline only as themselves writes no
/// newline: a newline glyph ends the line and everything else written is a
/// glyph's own bytes, tabs, spaces or a carriage return.
pub proof fn lemma_scan_has_no_newline(cfg: Config, max_width: int, gs: Seq<GlyphView>, n: nat)
    requires
        n <= gs.len(),
        forall|i: int| 0 <= i < gs.len() ==> newline_only_as_itself(#[trigger] gs[i]),
    ensures
        has_no_newline(scan(cfg, max_width, gs, n).0),
    decreases n,
{
    if n > 0 {
        lemma_scan_has_no_newline(cfg, max_width, gs, (n - 1) as nat);
        let prev = scan(cfg, max_width, gs, (n - 1) as nat);
        let g = gs[n - 1];
        assert(newline_only_as_itself(g));
        let tab = cfg.tab_size as int;
        lemma_padding_has_no_newline(0, cfg.sdiff_column_two_offset as int, tab, cfg.expanded);
        if !prev.2 {
            match glyph_step(cfg, max_width, prev.1, g) {
                None => {},
                Some(step) => {
                    let out = prev.0 + step.0;
                    assert forall|j: int| 0 <= j < out.len() implies #[trigger] out[j] != NEWLINE_BYTE by {
                        if j >= prev.0.len() {
                            let jj = j - prev.0.len();
                            assert(out[j] == step.0[jj]);
                            if g.code == CARRIAGE_RETURN_BYTE as u32 && jj > 0 {
                                let pad = padding(0, cfg.sdiff_column_two_offset as int, tab, cfg.expanded);
                                assert(step.0[jj] == pad[jj - 1]);
                            }
                        }
                    }
                },
            }
        }
    }
}

/// Law: a half line never holds a newline byte, whatever the line holds.
pub proof fn lemma_half_line_has_no_newline(
    cfg: Config,
    s: Seq<u8>,
    max_width: int,
    is_right: bool,
    white_space_gutter: bool,
)
    ensures
        has_no_newline(half_line(cfg, s, max_width, is_right, white_space_gutter)),
{
    reveal(half_line);
    let gs = line_glyphs(s);
    assert forall|i: int| 0 <= i < gs.len() implies newline_only_as_itself(#[trigger] gs[i]) by {
        if valid_utf8(s) {
            let c = decode_utf8(s)[i];
            if c as u32 != NEWLINE_BYTE as u32 {
                lemma_encoding_has_no_newline(c);
            }
        } else {
            assert(gs[i] == glyph_of_byte(s[i]));
        }
    }
    lemma_scan_has_no_newline(cfg, max_width, gs, gs.len());
    let st = scan_all(cfg, max_width, gs);
    lemma_padding_has_no_newline(
        st.1,
        max_width + gutter_columns(white_space_gutter),
        cfg.tab_size as int,
        cfg.expanded,
    );
    let h = half_line(cfg, s, max_width, is_right, white_space_gutter);
    if !(max_width > cfg.sdiff_half_width || (max_width > cfg.sdiff_column_two_offset && !is_right))
        && !is_right {
        let pad = padding(
            st.1,
            max_width + gutter_columns(white_space_gutter),
            cfg.tab_size as int,
            cfg.expanded,
        );
        assert forall|j: int| 0 <= j < h.len() implies #[trigger] h[j] != NEWLINE_BYTE by {
            if j >= st.0.len() {
                assert(h[j] == pad[j - st.0.len()]);
            } else {
                assert(h[j] == st.0[j]);
            }
        }
    }
}

/// The display column reached from `col` by writing `bytes` on a terminal:
/// a tab moves to the next tab stop, the zero-width control codes stay in
/// place, every other byte takes one column.
pub open spec fn display_columns(col: int, bytes: Seq<u8>, tab_size: int) -> int
    decreases bytes.len(),
{
    if bytes.len() == 0 {
        col
    } else if bytes[0] == TAB_BYTE {
        display_columns(next_tab_stop(col, tab_size), bytes.drop_first(), tab_size)
    } else if is_zero_width_control(bytes[0] as u32) {
        display_columns(col, bytes.drop_first(), tab_size)
    } else {
        display_columns(col + 1, bytes.drop_first(), tab_size)
    }
}

/// Writing two runs of bytes one after the other reaches the column that
/// the second reaches from where the first ends.
pub proof fn lemma_display_columns_concat(col: int, a: Seq<u8>, b: Seq<u8>, tab_size: int)
    ensures
        display_columns(col, a + b, tab_size) == display_columns(
            display_columns(col, a, tab_size),
            b,
            tab_size,
        ),
    decreases a.len(),
{
    if a.len() == 0 {
        assert(a + b =~= b);
    } else {
        assert((a + b).drop_first() =~= a.drop_first() + b);
        assert((a + b)[0] == a[0]);
        let next = if a[0] == TAB_BYTE {
            next_tab_stop(col, tab_size)
        } else if is_zero_width_control(a[0] as u32) {
            col
        } else {
            col + 1
        };
        lemma_display_columns_concat(next, a.drop_first(), b, tab_size);
    }
}

/// On tabs and spaces, the display column is the column of `column_after`.
pub proof fn lemma_display_columns_of_blanks(col: int, bytes: Seq<u8>, tab_size: int)
    requires
        forall|j: int| 0 <= j < bytes.len() ==> #[trigger] bytes[j] == TAB_BYTE || bytes[j] == SPACE_BYTE,
    ensures
        display_columns(col, bytes, tab_size) == column_after(col, bytes, tab_size),
    decreases bytes.len(),
{
    if bytes.len() > 0 {
        assert(bytes[0] == TAB_BYTE || bytes[0] == SPACE_BYTE);
        let next = if bytes[0] == TAB_BYTE {
            next_tab_stop(col, tab_size)
        } else {
            col + 1
        };
        assert forall|j: int| 0 <= j < bytes.drop_first().len() implies #[trigger] bytes.drop_first()[j]
            == TAB_BYTE || bytes.drop_first()[j] == SPACE_BYTE by {
            assert(bytes.drop_first()[j] == bytes[j + 1]);
        }
        lemma_display_columns_of_blanks(next, bytes.drop_first(), tab_size);
    }
}

/// Padding is made of tabs and spaces.
pub proof fn lemma_padding_is_blanks(from: int, to: int, tab_size: int, expanded: bool)
    ensures
        forall|j: int|
            0 <= j < padding(from, to, tab_size, expanded).len() ==> #[trigger] padding(
                from,
                to,
                tab_size,
                expanded,
            )[j] == TAB_BYTE || padding(from, to, tab_size, expanded)[j] == SPACE_BYTE,
{
    let p = padding(from, to, tab_size, expanded);
    assert forall|j: int| 0 <= j < p.len() implies #[trigger] p[j] == TAB_BYTE || p[j] == SPACE_BYTE by {
        if !expanded && from <= to && to / tab_size > from / tab_size {
            let k = (to / tab_size - from / tab_size) as nat;
            if j >= k {
                assert(p[j] == repeat_byte(SPACE_BYTE, (to % tab_size) as nat)[j - k]);
            }
        }
    }
}

/// A glyph of a line that is not UTF-8: a byte, one column, written as is.
pub open spec fn is_byte_glyph(g: GlyphView) -> bool {
    &&& g.code < 256
    &&& g.width == 1
    &&& g.bytes == seq![g.code as u8]
}

/// Law: for glyphs that are bytes, and no carriage return among them, the
/// bytes written reach on a terminal exactly the column that the layout
/// reports; a tab that is written, as a tab or as spaces, reaches the next
/// tab stop, and a zero-width control takes no column.
pub proof fn lemma_scan_display_columns(cfg: Config, max_width: int, gs: Seq<GlyphView>, n: nat)
    requires
        n <= gs.len(),
        cfg.tab_size > 0,
        forall|i: int|
            0 <= i < gs.len() ==> is_byte_glyph(#[trigger] gs[i]) && gs[i].code
                != CARRIAGE_RETURN_BYTE as u32,
    ensures
        display_columns(0, scan(cfg, max_width, gs, n).0, cfg.tab_size as int) == scan(
            cfg,
            max_width,
            gs,
            n,
        ).1,
    decreases n,
{
    if n == 0 {
    } else {
        lemma_scan_display_columns(cfg, max_width, gs, (n - 1) as nat);
        let prev = scan(cfg, max_width, gs, (n - 1) as nat);
        let g = gs[n - 1];
        let t = cfg.tab_size as int;
        assert(is_byte_glyph(g));
        if !prev.2 {
            match glyph_step(cfg, max_width, prev.1, g) {
                None => {},
                Some(step) => {
                    lemma_display_columns_concat(0, prev.0, step.0, t);
                    let c = prev.1;
                    if g.code == TAB_BYTE as u32 {
                        let adv = t - c % t;
                        if c + adv <= max_width {
                            if cfg.expanded {
                                let sp = repeat_byte(SPACE_BYTE, adv as nat);
                                assert(step.0 == sp);
                                assert forall|j: int| 0 <= j < sp.len() implies #[trigger] sp[j] == TAB_BYTE
                                    || sp[j] == SPACE_BYTE by {}
                                lemma_display_columns_of_blanks(c, sp, t);
                                lemma_column_after_spaces(c, adv as nat, t);
                                assert(display_columns(c, step.0, t) == step.1);
                            } else {
                                assert(step.0 == seq![TAB_BYTE]);
                                assert(seq![TAB_BYTE].drop_first() =~= Seq::<u8>::empty());
                                assert(step.0[0] == TAB_BYTE);
                                assert(display_columns(next_tab_stop(c, t), Seq::<u8>::empty(), t) == next_tab_stop(c, t));
                                assert(display_columns(c, step.0, t) == display_columns(
                                    next_tab_stop(c, t),
                                    step.0.drop_first(),
                                    t,
                                ));
                                assert(display_columns(c, step.0, t) == step.1);
                            }
                        } else {
                            assert(display_columns(c, step.0, t) == step.1);
                        }
                    } else {
                        assert((g.code as u8) as u32 == g.code);
                        assert(step.0 == seq![g.code as u8]);
                        assert(step.0.drop_first() =~= Seq::<u8>::empty());
                        assert(step.0[0] == g.code as u8);
                        if is_zero_width_control(g.code) {
                            assert(step.0[0] as u32 == g.code);
                            assert(step.0[0] != TAB_BYTE);
                            assert(is_zero_width_control(step.0[0] as u32));
                            assert(display_columns(c, Seq::<u8>::empty(), t) == c);
                            assert(g.code != NEWLINE_BYTE as u32 && g.code != CARRIAGE_RETURN_BYTE as u32);
                            assert(step.1 == c);
                            assert(step.0.drop_first() == Seq::<u8>::empty());
                            assert(display_columns(c, step.0.drop_first(), t) == c);
                            assert(display_columns(c, step.0, t) == display_columns(
                                c,
                                step.0.drop_first(),
                                t,
                            ));
                            assert(display_columns(c, step.0, t) == step.1);
                        } else {
                            assert(step.0[0] as u32 == g.code);
                            assert(step.0[0] != TAB_BYTE);
                            assert(!is_zero_width_control(step.0[0] as u32));
                            assert(g.code != NEWLINE_BYTE as u32 && g.code != CARRIAGE_RETURN_BYTE as u32);
                            assert(step.1 == c + 1);
                            assert(step.0.drop_first() == Seq::<u8>::empty());
                            assert(display_columns(c + 1, step.0.drop_first(), t) == c + 1);
                            assert(display_columns(c, step.0, t) == display_columns(
                                c + 1,
                                step.0.drop_first(),
                                t,
                            ));
                            assert(display_columns(c, step.0, t) == step.1);
                        }
                    }
                    assert(display_columns(c, step.0, t) == step.1);
                },
            }
        }
    }
}

/// Law: a half line of a line that is not UTF-8 and holds no carriage
/// return reaches on a terminal the column its layout reports, at most
/// `max_width`; a left half reaches exactly the gutter's columns past
/// `max_width`.
pub proof fn lemma_half_line_display_columns(
    cfg: Config,
    s: Seq<u8>,
    max_width: int,
    is_right: bool,
    white_space_gutter: bool,
)
    requires
        !valid_utf8(s),
        forall|j: int| 0 <= j < s.len() ==> #[trigger] s[j] != CARRIAGE_RETURN_BYTE,
        cfg.tab_size > 0,
        0 <= max_width <= cfg.sdiff_half_width,
        is_right || max_width <= cfg.sdiff_column_two_offset,
    ensures
        display_columns(0, half_line(cfg, s, max_width, is_right, white_space_gutter), cfg.tab_size as int)
            == if is_right {
            scan_all(cfg, max_width, line_glyphs(s)).1
        } else {
            max_width + gutter_columns(white_space_gutter)
        },
        scan_all(cfg, max_width, line_glyphs(s)).1 <= max_width,
{
    reveal(half_line);
    let gs = line_glyphs(s);
    let t = cfg.tab_size as int;
    assert forall|i: int|
        0 <= i < gs.len() implies is_byte_glyph(#[trigger] gs[i]) && gs[i].code
            != CARRIAGE_RETURN_BYTE as u32 by {
        assert(gs[i] == glyph_of_byte(s[i]));
        assert(s[i] != CARRIAGE_RETURN_BYTE);
    }
    lemma_scan_display_columns(cfg, max_width, gs, gs.len());
    lemma_scan_within_width(cfg, max_width, gs, gs.len());
    let st = scan_all(cfg, max_width, gs);
    if !is_right {
        let to = max_width + gutter_columns(white_space_gutter);
        let pad = padding(st.1, to, t, cfg.expanded);
        lemma_display_columns_concat(0, st.0, pad, t);
        lemma_padding_is_blanks(st.1, to, t, cfg.expanded);
        lemma_display_columns_of_blanks(st.1, pad, t);
        lemma_padding_reaches_column(st.1, to, t, cfg.expanded);
    }
}

} // verus!
