//! Side-by-side formatting of two files, in the manner of `sdiff`.
use vstd::prelude::*;
use crate::layout::{
    config_for, lemma_config_geometry, lemma_next_tab_stop, lemma_next_tab_stop_bounded, padding,
    repeat_byte, CARRIAGE_RETURN_BYTE, NEWLINE_BYTE, SPACE_BYTE, TAB_BYTE,
};
use crate::half_line::{
    gutter_columns, glyph_of_byte, glyph_of_char, half_line, is_plain_glyph, is_printable_ascii,
    lemma_ascii_decode, lemma_scan_plain, lemma_scan_stopped, line_glyphs, scan, scan_all,
    GlyphView,
};
use crate::rows::{all_matched, ends_with_newline, left_side, matches_are_equal, right_side, row, rows, EditView};
use crate::bindings::{str_from_utf8, char_width, unicode_width, diff_lines, line_diff};
use crate::lines::{split_lines, lines_of};
use vstd::utf8::encode_scalar;
use vstd::arithmetic::div_mod::lemma_fundamental_div_mod;

verus! {

pub const GUTTER_WIDTH_MIN: usize = 3;

pub const FULL_WIDTH: usize = 130;

pub const TAB_SIZE: usize = 8;

/// The geometry of a side-by-side row.
pub struct Config {
    pub sdiff_half_width: usize,
    pub sdiff_column_two_offset: usize,
    pub tab_size: usize,
    pub expanded: bool,
    pub separator_pos: usize,
}

impl Config {
    /// The configuration for rows of `full_width` columns and tabs of
    /// `tab_size` columns, as `config_for` says.
    pub fn new(full_width: usize, tab_size: usize, expanded: bool) -> (r: Self)
        requires
            1 <= full_width <= isize::MAX,
            1 <= tab_size,
            tab_size + GUTTER_WIDTH_MIN <= isize::MAX,
        ensures
            r == config_for(full_width, tab_size, expanded),
            r.wf(),
    {
        let w = full_width as isize;
        let t = tab_size as isize;
        let t_plus_g = t + GUTTER_WIDTH_MIN as isize;
        proof {
            assert(w >> 1 == w / 2) by (bit_vector)
                requires w >= 0;
            assert(t_plus_g >> 1 == t_plus_g / 2) by (bit_vector)
                requires t_plus_g >= 0;
            assert((w & t_plus_g & 1) == (if w % 2 == 1 && t_plus_g % 2 == 1 { 1isize } else { 0isize }))
                by (bit_vector)
                requires w >= 0, t_plus_g >= 0;
        }
        let unaligned_off = (w >> 1) + (t_plus_g >> 1) + (w & t_plus_g & 1);
        let off = unaligned_off - unaligned_off % t;
        let narrowest = if off - (GUTTER_WIDTH_MIN as isize) <= w - off {
            off - GUTTER_WIDTH_MIN as isize
        } else {
            w - off
        };
        let hw = if narrowest > 0 {
            narrowest as usize
        } else {
            0
        };
        let c2o = if hw != 0 {
            off as usize
        } else {
            w as usize
        };
        proof {
            lemma_config_geometry(full_width, tab_size, expanded);
            let sum = (hw + c2o - 1) as usize;
            assert(sum >> 1 == sum / 2) by (bit_vector)
                requires sum >= 0;
            lemma_next_tab_stop(c2o as int, tab_size as int);
        }
        Self {
            expanded,
            sdiff_column_two_offset: c2o,
            tab_size,
            sdiff_half_width: hw,
            separator_pos: ((hw + c2o - 1) >> 1),
        }
    }

    /// The configuration's values leave room for the arithmetic of a row:
    /// a positive tab size, and tab stops past the second column, the
    /// separator and the gutter that fit in a `usize`.
    pub open spec fn wf(&self) -> bool {
        &&& self.tab_size > 0
        &&& (self.sdiff_column_two_offset / self.tab_size + 1) * self.tab_size <= usize::MAX
        &&& self.sdiff_half_width + GUTTER_WIDTH_MIN + self.tab_size <= usize::MAX
        &&& self.separator_pos < usize::MAX
    }
}

/// A unit of a line to lay out: a character of a UTF-8 line, or a byte of
/// a line that is not UTF-8.
pub struct Glyph {
    pub code: u32,
    pub width: usize,
    pub bytes: Vec<u8>,
}

impl View for Glyph {
    type V = GlyphView;

    open spec fn view(&self) -> GlyphView {
        GlyphView { code: self.code, width: self.width as nat, bytes: self.bytes@ }
    }
}

/// The views of a sequence of glyphs.
pub open spec fn glyph_views(gs: Seq<Glyph>) -> Seq<GlyphView> {
    gs.map_values(|g: Glyph| g@)
}

/// The UTF-8 encoding of a character.
pub fn utf8_bytes(c: char) -> (r: Vec<u8>)
    ensures
        r@ == encode_scalar(c as u32),
{
    let v = c as u32;
    proof {
        vstd::utf8::char_is_scalar(c);
    }
    let mut r: Vec<u8> = Vec::new();
    if v <= 0x7F {
        r.push((v & 0x7F) as u8);
    } else if v <= 0x7FF {
        r.push(0xC0 | ((v >> 6) & 0x1F) as u8);
        r.push(0x80 | (v & 0x3F) as u8);
    } else if v <= 0xFFFF {
        r.push(0xE0 | ((v >> 12) & 0x0F) as u8);
        r.push(0x80 | ((v >> 6) & 0x3F) as u8);
        r.push(0x80 | (v & 0x3F) as u8);
    } else {
        r.push(0xF0 | ((v >> 18) & 0x7) as u8);
        r.push(0x80 | ((v >> 12) & 0x3F) as u8);
        r.push(0x80 | ((v >> 6) & 0x3F) as u8);
        r.push(0x80 | (v & 0x3F) as u8);
    }
    assert(r@ =~= encode_scalar(v));
    r
}

/// The glyphs of a UTF-8 text: one per character, with its width from the
/// Unicode tables (one column for a control character) and its encoding.
pub fn char_glyphs(text: &str) -> (gs: Vec<Glyph>)
    ensures
        glyph_views(gs@) == text@.map_values(|c: char| glyph_of_char(c)),
        forall|i: int|
            0 <= i < gs@.len() && 0x20 <= #[trigger] gs@[i].code < 0x7F ==> gs@[i].width == 1,
        gs@.len() == text@.len(),
        forall|i: int|
            0 <= i < gs@.len() ==> (#[trigger] gs@[i]).code == text@[i] as u32 && gs@[i].bytes@
                == encode_scalar(text@[i] as u32) && gs@[i].width == match unicode_width(text@[i]) {
                Some(w) => w,
                None => 1,
            },
{
    let mut gs: Vec<Glyph> = Vec::new();
    let ghost chars = text@;
    for c in it: text.chars()
        invariant
            chars == text@,
            it.seq() == chars,
            glyph_views(gs@) == chars.take(it.index() as int).map_values(|c: char| glyph_of_char(c)),
            forall|i: int|
                0 <= i < gs@.len() && 0x20 <= #[trigger] gs@[i].code < 0x7F ==> gs@[i].width == 1,
    {
        assert(0 <= it.index() < chars.len());
        assert(c == chars[it.index() as int]);
        let width = char_width(c).unwrap_or(1);
        let g = Glyph { code: c as u32, width, bytes: utf8_bytes(c) };
        assert(g@ == glyph_of_char(c));
        let ghost prev = gs@;
        gs.push(g);
        let ghost k = it.index() as int;
        assert(glyph_views(gs@) =~= glyph_views(prev).push(g@));
        assert(chars.take(k + 1).map_values(|c: char| glyph_of_char(c)) =~= chars.take(k).map_values(
            |c: char| glyph_of_char(c),
        ).push(glyph_of_char(c)));
    }
    assert(chars.take(chars.len() as int) =~= chars);
    assert forall|i: int| 0 <= i < gs@.len() implies (#[trigger] gs@[i]).code == text@[i] as u32
        && gs@[i].bytes@ == encode_scalar(text@[i] as u32) && gs@[i].width == match unicode_width(
        text@[i],
    ) {
        Some(w) => w,
        None => 1,
    } by {
        assert(glyph_views(gs@)[i] == gs@[i]@);
        assert(glyph_views(gs@)[i] == glyph_of_char(text@[i]));
    }
    gs
}

/// The glyphs of a line that is not UTF-8: one per byte, one column each.
pub fn byte_glyphs(s: &[u8]) -> (gs: Vec<Glyph>)
    ensures
        glyph_views(gs@) == s@.map_values(|b: u8| glyph_of_byte(b)),
        gs@.len() == s@.len(),
        forall|i: int|
            0 <= i < gs@.len() ==> (#[trigger] gs@[i]).code == s@[i] as u32 && gs@[i].width == 1
                && gs@[i].bytes@ == seq![s@[i]],
{
    let mut gs: Vec<Glyph> = Vec::new();
    let mut i: usize = 0;
    while i < s.len()
        invariant
            i <= s@.len(),
            glyph_views(gs@) == s@.take(i as int).map_values(|b: u8| glyph_of_byte(b)),
        decreases s@.len() - i,
    {
        let b = s[i];
        let mut bytes: Vec<u8> = Vec::new();
        bytes.push(b);
        let g = Glyph { code: b as u32, width: 1, bytes };
        assert(g@ == glyph_of_byte(b)) by {
            assert(bytes@ =~= seq![b]);
        }
        let ghost prev = gs@;
        gs.push(g);
        assert(glyph_views(gs@) =~= glyph_views(prev).push(g@));
        assert(s@.take(i + 1).map_values(|b: u8| glyph_of_byte(b)) =~= s@.take(i as int).map_values(
            |b: u8| glyph_of_byte(b),
        ).push(glyph_of_byte(b)));
        i = i + 1;
    }
    assert(s@.take(s@.len() as int) =~= s@);
    assert forall|i: int| 0 <= i < gs@.len() implies (#[trigger] gs@[i]).code == s@[i] as u32
        && gs@[i].width == 1 && gs@[i].bytes@ == seq![s@[i]] by {
        assert(glyph_views(gs@)[i] == gs@[i]@);
        assert(glyph_views(gs@)[i] == glyph_of_byte(s@[i]));
    }
    gs
}

/// Appends all of `bytes` to `buf`.
fn push_all(buf: &mut Vec<u8>, bytes: &Vec<u8>)
    ensures
        final(buf)@ == old(buf)@ + bytes@,
{
    let mut i: usize = 0;
    while i < bytes.len()
        invariant
            i <= bytes@.len(),
            buf@ == old(buf)@ + bytes@.take(i as int),
        decreases bytes@.len() - i,
    {
        buf.push(bytes[i]);
        assert(bytes@.take(i + 1) =~= bytes@.take(i as int).push(bytes@[i as int]));
        i = i + 1;
    }
    assert(bytes@.take(bytes@.len() as int) =~= bytes@);
}

/// One step of an edit script between the lines of two files.
pub enum Edit {
    Left(Vec<u8>),
    Right(Vec<u8>),
    Both(Vec<u8>, Vec<u8>),
}

impl View for Edit {
    type V = EditView;

    open spec fn view(&self) -> EditView {
        match self {
            Edit::Left(l) => EditView::Left(l@),
            Edit::Right(r) => EditView::Right(r@),
            Edit::Both(l, r) => EditView::Both(l@, r@),
        }
    }
}

/// The views of a sequence of edits.
pub open spec fn edit_views(es: Seq<Edit>) -> Seq<EditView> {
    es.map_values(|e: Edit| e@)
}

/// Appends padding to a line buffer, under a configuration.
pub struct LineFormatter<'a> {
    pub config: &'a Config,
    pub buf: &'a mut Vec<u8>,
}

/// Appends `n` copies of `b` to `buf`.
fn push_repeated(buf: &mut Vec<u8>, b: u8, n: usize)
    ensures
        final(buf)@ == old(buf)@ + repeat_byte(b, n as nat),
{
    let mut i: usize = 0;
    while i < n
        invariant
            i <= n,
            buf@ == old(buf)@ + repeat_byte(b, i as nat),
        decreases n - i,
    {
        buf.push(b);
        i = i + 1;
        assert(buf@ =~= old(buf)@ + repeat_byte(b, i as nat));
    }
}

impl<'a> LineFormatter<'a> {
    pub fn new(config: &'a Config, buf: &'a mut Vec<u8>) -> (r: Self)
        ensures
            r.config == config,
            *r.buf == *old(buf),
            *final(r.buf) == *final(buf),
    {
        Self { config, buf }
    }

    /// Pads the buffer from display column `from` to column `to`: with
    /// spaces when the configuration is expanded, else with a tab for each
    /// tab stop on the way and spaces after the last one.
    pub fn format_tabs_and_spaces(&mut self, from: usize, to: usize)
        requires
            from <= to && !old(self).config.expanded ==> old(self).config.tab_size > 0 && (to
                / old(self).config.tab_size + 1) * old(self).config.tab_size <= usize::MAX,
        ensures
            final(self).config == old(self).config,
            final(self).buf@ == old(self).buf@ + padding(
                from as int,
                to as int,
                old(self).config.tab_size as int,
                old(self).config.expanded,
            ),
            *final(final(self).buf) == *final(old(self).buf),
    {
        let expanded = self.config.expanded;
        let tab_size = self.config.tab_size;
        let mut current = from;

        if current > to {
            return;
        }
        if expanded {
            push_repeated(self.buf, SPACE_BYTE, to - current);
            return;
        }
        let ghost t = tab_size as int;
        proof {
            lemma_next_tab_stop_bounded(current as int, to as int, t);
        }
        while current + (tab_size - current % tab_size) <= to
            invariant
                tab_size == self.config.tab_size,
                expanded == self.config.expanded,
                !expanded,
                tab_size > 0,
                t == tab_size as int,
                (to / tab_size + 1) * tab_size <= usize::MAX,
                from <= current <= to,
                current == from || current % tab_size == 0,
                self.buf@ == old(self).buf@ + repeat_byte(
                    TAB_BYTE,
                    (current / tab_size - from / tab_size) as nat,
                ),
                current / tab_size >= from / tab_size,
                current + (tab_size - current % tab_size) <= (to / tab_size + 1) * tab_size,
                self.config == old(self).config,
                *final(self.buf) == *final(old(self).buf),
            decreases to - current,
        {
            proof {
                lemma_next_tab_stop(current as int, tab_size as int);
            }
            let next_tab = current + (tab_size - current % tab_size);
            self.buf.push(TAB_BYTE);
            current = next_tab;
            assert(self.buf@ =~= old(self).buf@ + repeat_byte(
                TAB_BYTE,
                (current / tab_size - from / tab_size) as nat,
            ));
            proof {
                lemma_next_tab_stop_bounded(current as int, to as int, t);
            }
        }
        proof {
            let c = current as int;
            let tt = to as int;
            lemma_next_tab_stop(c, t);
            let q = c / t;
            let qt = tt / t;
            vstd::arithmetic::div_mod::lemma_div_is_ordered(c, tt, t);
            lemma_fundamental_div_mod(tt, t);
            assert(qt <= q) by (nonlinear_arith)
                requires (q + 1) * t > tt, tt == t * qt + tt % t, tt % t >= 0, t > 0;
            if current != from {
                lemma_fundamental_div_mod(c, t);
                assert(c == qt * t) by (nonlinear_arith)
                    requires c == t * q + 0, q == qt;
                assert(tt - c == tt % t) by (nonlinear_arith)
                    requires c == qt * t, tt == t * qt + tt % t;
                let f = from as int;
                lemma_fundamental_div_mod(f, t);
                assert(f / t < q) by (nonlinear_arith)
                    requires f == t * (f / t) + f % t, f % t >= 0, c == t * q, c > f, f / t <= q;
            }
        }
        push_repeated(self.buf, SPACE_BYTE, to - current);
        proof {
            let t = tab_size as int;
            if current == from {
                assert(repeat_byte(TAB_BYTE, 0) =~= Seq::<u8>::empty());
                assert(self.buf@ =~= old(self).buf@ + padding(from as int, to as int, t, false));
            } else {
                assert(self.buf@ =~= old(self).buf@ + padding(from as int, to as int, t, false));
            }
        }
    }

    /// Lays out glyphs from column zero within `max_width` columns, as
    /// `scan_all` says, and returns the column reached.
    pub fn lay_out(&mut self, glyphs: &Vec<Glyph>, max_width: usize) -> (col: usize)
        requires
            old(self).config.wf(),
        ensures
            final(self).config == old(self).config,
            final(self).buf@ == old(self).buf@ + scan_all(
                *old(self).config,
                max_width as int,
                glyph_views(glyphs@),
            ).0,
            col as int == scan_all(*old(self).config, max_width as int, glyph_views(glyphs@)).1,
            col <= max_width,
            *final(final(self).buf) == *final(old(self).buf),
    {
        let ghost cfg = *self.config;
        let ghost mw = max_width as int;
        let ghost gs = glyph_views(glyphs@);
        let tab_size = self.config.tab_size;
        let expanded = self.config.expanded;
        let column_two_offset = self.config.sdiff_column_two_offset;
        let mut current_width: usize = 0;
        let mut i: usize = 0;
        let mut ended = false;
        while i < glyphs.len() && !ended
            invariant
                i <= glyphs@.len(),
                self.config == old(self).config,
                cfg == *self.config,
                cfg.wf(),
                mw == max_width as int,
                tab_size == cfg.tab_size,
                expanded == cfg.expanded,
                column_two_offset == cfg.sdiff_column_two_offset,
                gs == glyph_views(glyphs@),
                self.buf@ == old(self).buf@ + scan(cfg, mw, gs, i as nat).0,
                current_width as int == scan(cfg, mw, gs, i as nat).1,
                ended == scan(cfg, mw, gs, i as nat).2,
                current_width <= max_width,
                *final(self.buf) == *final(old(self).buf),
            decreases glyphs@.len() - i,
        {
            let g = &glyphs[i];
            assert(gs[i as int] == g@);
            let ghost before = self.buf@;
            if g.width > max_width - current_width {
                ended = true;
            } else if g.code == TAB_BYTE as u32 {
                let advance = tab_size - current_width % tab_size;
                if advance <= max_width - current_width {
                    if expanded {
                        push_repeated(self.buf, SPACE_BYTE, advance);
                    } else {
                        self.buf.push(TAB_BYTE);
                        assert(self.buf@ =~= before + seq![TAB_BYTE]);
                    }
                    current_width = current_width + advance;
                }
            } else if g.code == NEWLINE_BYTE as u32 {
                ended = true;
            } else if g.code == CARRIAGE_RETURN_BYTE as u32 {
                self.buf.push(CARRIAGE_RETURN_BYTE);
                self.format_tabs_and_spaces(0, column_two_offset);
                current_width = 0;
                assert(self.buf@ =~= before + (seq![CARRIAGE_RETURN_BYTE] + padding(
                    0,
                    column_two_offset as int,
                    tab_size as int,
                    expanded,
                )));
            } else if g.code == 0 || g.code == 7 || g.code == 11 || g.code == 12 {
                push_all(self.buf, &g.bytes);
            } else {
                push_all(self.buf, &g.bytes);
                current_width = current_width + g.width;
            }
            i = i + 1;
            assert(self.buf@ =~= old(self).buf@ + scan(cfg, mw, gs, i as nat).0);
        }
        proof {
            if ended {
                lemma_scan_stopped(cfg, mw, gs, i as nat, gs.len());
            }
        }
        current_width
    }

    /// Writes one half of a row: the line's characters (its bytes, when it
    /// is not UTF-8) within `max_width` columns, and for a left half the
    /// padding up to the gutter, as `half_line` says. Writing to a vector
    /// cannot fail, so the result is always `Ok`.
    pub fn process_half_line(
        &mut self,
        s: &[u8],
        max_width: usize,
        is_right: bool,
        white_space_gutter: bool,
    ) -> (r: Result<(), std::io::Error>)
        requires
            old(self).config.wf(),
        ensures
            r is Ok,
            final(self).config == old(self).config,
            final(self).buf@ == old(self).buf@ + half_line(
                *old(self).config,
                s@,
                max_width as int,
                is_right,
                white_space_gutter,
            ),
            is_printable_ascii(s@) && s@.len() <= max_width && max_width
                <= old(self).config.sdiff_half_width && (is_right || max_width
                <= old(self).config.sdiff_column_two_offset) ==> final(self).buf@ == old(self).buf@
                + s@ + (if is_right {
                Seq::<u8>::empty()
            } else {
                padding(
                    s@.len() as int,
                    max_width + gutter_columns(white_space_gutter),
                    old(self).config.tab_size as int,
                    old(self).config.expanded,
                )
            }),
            *final(final(self).buf) == *final(old(self).buf),
    {
        reveal(half_line);
        if max_width > self.config.sdiff_half_width {
            return Ok(());
        }
        if max_width > self.config.sdiff_column_two_offset && !is_right {
            return Ok(());
        }
        let glyphs = match str_from_utf8(s) {
            Some(text) => char_glyphs(text),
            None => byte_glyphs(s),
        };
        assert(glyph_views(glyphs@) == line_glyphs(s@));
        proof {
            if is_printable_ascii(s@) && s@.len() <= max_width {
                lemma_ascii_decode(s@);
                let gs = glyph_views(glyphs@);
                assert forall|i: int| 0 <= i < gs.len() implies is_plain_glyph(#[trigger] gs[i]) by {
                    assert(gs[i] == glyphs@[i]@);
                    assert(0x20 <= glyphs@[i].code < 0x7F);
                }
                lemma_scan_plain(*self.config, max_width as int, gs, gs.len());
                assert(Seq::new(gs.len(), |i: int| gs[i].code as u8) =~= s@);
            }
        }
        let current_width = self.lay_out(&glyphs, max_width);
        if !is_right {
            let to = max_width + if white_space_gutter {
                GUTTER_WIDTH_MIN
            } else {
                1
            };
            proof {
                lemma_next_tab_stop(to as int, self.config.tab_size as int);
            }
            self.format_tabs_and_spaces(current_width, to);
        }
        Ok(())
    }
}

/// Writes a row from its two formatted half lines: the left half, the
/// symbol and the padding up to the second column unless the symbol is a
/// space, the right half, and a newline when asked for.
fn write_row(
    output: &mut Vec<u8>,
    config: &Config,
    left: &Vec<u8>,
    right: &Vec<u8>,
    symbol: u8,
    put_new_line: bool,
)
    requires
        config.wf(),
    ensures
        final(output)@ == old(output)@ + left@ + (if symbol == SPACE_BYTE {
            Seq::<u8>::empty()
        } else {
            seq![symbol] + padding(
                config.separator_pos + 1,
                config.sdiff_column_two_offset as int,
                config.tab_size as int,
                config.expanded,
            )
        }) + right@ + (if put_new_line {
            seq![NEWLINE_BYTE]
        } else {
            Seq::<u8>::empty()
        }),
{
    push_all(output, left);
    if symbol != SPACE_BYTE {
        let mut separator_buffer: Vec<u8> = Vec::new();
        let mut separator_formatter = LineFormatter::new(config, &mut separator_buffer);
        separator_formatter.format_tabs_and_spaces(config.separator_pos + 1, config.sdiff_column_two_offset);
        output.push(symbol);
        push_all(output, &separator_buffer);
    }
    push_all(output, right);
    if put_new_line {
        output.push(NEWLINE_BYTE);
    }
    assert(output@ =~= old(output)@ + left@ + (if symbol == SPACE_BYTE {
        Seq::<u8>::empty()
    } else {
        seq![symbol] + padding(
            config.separator_pos + 1,
            config.sdiff_column_two_offset as int,
            config.tab_size as int,
            config.expanded,
        )
    }) + right@ + (if put_new_line {
        seq![NEWLINE_BYTE]
    } else {
        Seq::<u8>::empty()
    }));
}

/// Writes the rows of a side-by-side diff into an output buffer, reusing
/// one buffer per half line.
pub struct OutputHandler<'a> {
    pub output: &'a mut Vec<u8>,
    pub config: Config,
    pub left_ln_buf: Vec<u8>,
    pub right_ln_buf: Vec<u8>,
}

impl<'a> OutputHandler<'a> {
    /// A handler writing to `output`; the left buffer is reserved for a half
    /// line and the gutter, the right one for a half line.
    pub fn new(config: Config, output: &'a mut Vec<u8>) -> (r: Self)
        requires
            config.sdiff_half_width + GUTTER_WIDTH_MIN <= usize::MAX,
        ensures
            r.config == config,
            *r.output == *old(output),
            *final(r.output) == *final(output),
            r.left_ln_buf@ == Seq::<u8>::empty(),
            r.right_ln_buf@ == Seq::<u8>::empty(),
    {
        let hw = config.sdiff_half_width;
        Self {
            config,
            output,
            left_ln_buf: Vec::with_capacity(hw + GUTTER_WIDTH_MIN),
            right_ln_buf: Vec::with_capacity(hw),
        }
    }

    /// Appends one row, as `row` says: the left line, the symbol in the
    /// gutter (a space leaves it blank), the right line. Writing to a vector
    /// cannot fail, so the result is always `Ok`.
    #[verifier::spinoff_prover]
    pub fn push_output(&mut self, left_ln: &[u8], right_ln: &[u8], symbol: u8) -> (r: Result<(), std::io::Error>)
        requires
            old(self).config.wf(),
        ensures
            r is Ok,
            final(self).config == old(self).config,
            final(self).output@ == old(self).output@ + row(old(self).config, left_ln@, right_ln@, symbol),
            final(self).left_ln_buf@ == half_line(
                old(self).config,
                left_ln@,
                old(self).config.sdiff_half_width as int,
                false,
                symbol == SPACE_BYTE,
            ),
            final(self).right_ln_buf@ == half_line(
                old(self).config,
                right_ln@,
                old(self).config.sdiff_half_width as int,
                true,
                symbol == SPACE_BYTE,
            ),
            *final(final(self).output) == *final(old(self).output),
    {
        self.left_ln_buf.clear();
        self.right_ln_buf.clear();
        let white_space_gutter = symbol == SPACE_BYTE;
        let half_width = self.config.sdiff_half_width;
        let mut put_new_line = false;

        if left_ln.len() > 0 {
            put_new_line = put_new_line || left_ln[left_ln.len() - 1] == NEWLINE_BYTE;
        }
        if right_ln.len() > 0 {
            put_new_line = put_new_line || right_ln[right_ln.len() - 1] == NEWLINE_BYTE;
        }

        let mut left_formatter = LineFormatter::new(&self.config, &mut self.left_ln_buf);
        match left_formatter.process_half_line(left_ln, half_width, false, white_space_gutter) {
            Ok(()) => {},
            Err(e) => return Err(e),
        }
        let mut right_line_formatter = LineFormatter::new(&self.config, &mut self.right_ln_buf);
        match right_line_formatter.process_half_line(right_ln, half_width, true, white_space_gutter) {
            Ok(()) => {},
            Err(e) => return Err(e),
        }

        write_row(
            self.output,
            &self.config,
            &self.left_ln_buf,
            &self.right_ln_buf,
            symbol,
            put_new_line,
        );
        proof {
            assert(put_new_line == (ends_with_newline(left_ln@) || ends_with_newline(right_ln@)));
        }
        Ok(())
    }
}

/// The rows of an edit script, as `rows` says: each line only on the left
/// with `<`, each line only on the right with `>`, each matched pair with a
/// blank gutter.
pub fn side_by_side(config: Config, edits: &Vec<Edit>) -> (out: Vec<u8>)
    requires
        config.wf(),
    ensures
        out@ == rows(config, edit_views(edits@)),
{
    let ghost cfg = config;
    let mut output: Vec<u8> = Vec::new();
    let empty: Vec<u8> = Vec::new();
    let mut output_handler = OutputHandler::new(config, &mut output);
    let mut i: usize = 0;
    while i < edits.len()
        invariant
            i <= edits@.len(),
            output_handler.config == cfg,
            cfg.wf(),
            empty@ == Seq::<u8>::empty(),
            output_handler.output@ == rows(cfg, edit_views(edits@).take(i as int)),
            *final(output_handler.output) == after_borrow(output),
        decreases edits@.len() - i,
    {
        let ghost before = output_handler.output@;
        match &edits[i] {
            Edit::Left(left_ln) => output_handler.push_output(left_ln.as_slice(), empty.as_slice(), 60u8).unwrap(),
            Edit::Right(right_ln) => output_handler.push_output(empty.as_slice(), right_ln.as_slice(), 62u8).unwrap(),
            Edit::Both(left_ln, right_ln) => {
                output_handler.push_output(left_ln.as_slice(), right_ln.as_slice(), SPACE_BYTE).unwrap()
            },
        }
        let ghost es = edit_views(edits@);
        assert(es.take(i + 1).drop_last() =~= es.take(i as int));
        assert(es.take(i + 1).last() == edits@[i as int]@);
        i = i + 1;
    }
    assert(edit_views(edits@).take(edits@.len() as int) =~= edit_views(edits@));
    output
}

/// The side-by-side diff of two files: their lines (split at newlines, no
/// piece after a final newline), the `diff` crate's edit script between
/// them, and the rows of that script in a configuration of `FULL_WIDTH`
/// columns and tabs of `TAB_SIZE` columns.
pub fn diff(from_file: &[u8], to_file: &[u8]) -> (out: Vec<u8>)
    ensures
        out@ == rows(
            config_for(FULL_WIDTH, TAB_SIZE, false),
            line_diff(lines_of(from_file@), lines_of(to_file@)),
        ),
        left_side(line_diff(lines_of(from_file@), lines_of(to_file@))) == lines_of(from_file@),
        right_side(line_diff(lines_of(from_file@), lines_of(to_file@))) == lines_of(to_file@),
        matches_are_equal(line_diff(lines_of(from_file@), lines_of(to_file@))),
        from_file@ == to_file@ ==> all_matched(line_diff(lines_of(from_file@), lines_of(to_file@))),
{
    let left_lines = split_lines(from_file);
    let right_lines = split_lines(to_file);
    let config = Config::new(FULL_WIDTH, TAB_SIZE, false);
    let edits = diff_lines(&left_lines, &right_lines);
    side_by_side(config, &edits)
}

} // verus!
