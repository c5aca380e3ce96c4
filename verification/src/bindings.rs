//! The calls that this library makes into code it does not verify: the
//! standard library's UTF-8 check, the `unicode-width` tables and the
//! `diff` crate's longest-common-subsequence engine. Each contract here is
//! believed, not proved; its doc comment says what it claims.
use vstd::prelude::*;
use vstd::utf8::{valid_utf8, decode_utf8};
use crate::rows::{EditView, left_side, right_side, matches_are_equal, all_matched};
use crate::side_diff::{Edit, edit_views};
use crate::lines::line_views;

verus! {

/// `std::io::Error`, carried as the error type of the formatting
/// functions' results (writing to a `Vec<u8>` never produces one).
#[verifier::external_type_specification]
#[verifier::external_body]
pub struct ExIoError(std::io::Error);

/// `std::str::from_utf8`: the text is returned exactly when the bytes are
/// well-formed UTF-8, and its characters are the UTF-8 decoding of the bytes.
#[verifier::external_body]
pub(crate) fn str_from_utf8(v: &[u8]) -> (r: Option<&str>)
    ensures
        r is Some <==> valid_utf8(v@),
        r matches Some(t) ==> t@ == decode_utf8(v@),
{
    std::str::from_utf8(v).ok()
}

/// The displayed width of a character in columns, as the `unicode-width`
/// tables give it (`None` for a control character).
pub uninterp spec fn unicode_width(c: char) -> Option<usize>;

/// `unicode_width::UnicodeWidthChar::width`: its result is named
/// `unicode_width`; the crate's source also shows that characters below
/// U+0020 and from U+007F to U+009F are control characters (`None`), that
/// printable ASCII takes one column, and that every other character has a
/// width of at most three columns.
#[verifier::external_body]
pub(crate) fn char_width(c: char) -> (r: Option<usize>)
    ensures
        r == unicode_width(c),
        (c as u32) < 0x20 ==> r == Option::<usize>::None,
        0x20 <= (c as u32) < 0x7F ==> r == Some(1usize),
        0x7F <= (c as u32) < 0xA0 ==> r == Option::<usize>::None,
        0xA0 <= (c as u32) ==> r is Some && r.unwrap() <= 3,
{
    unicode_width::UnicodeWidthChar::width(c)
}

/// The edit script that the `diff` crate computes between two sequences of
/// lines (a longest common subsequence, with the crate's own choice among
/// equally long ones).
pub uninterp spec fn line_diff(left: Seq<Seq<u8>>, right: Seq<Seq<u8>>) -> Seq<EditView>;

/// `diff::slice` on two sequences of lines: its result is named
/// `line_diff`, each element copied into an `Edit`. The crate's source also
/// shows that the script goes through every line of each side once, in
/// order, that it only matches equal lines, and that two equal sequences
/// are matched line by line.
#[verifier::external_body]
pub(crate) fn diff_lines(left: &Vec<Vec<u8>>, right: &Vec<Vec<u8>>) -> (r: Vec<Edit>)
    ensures
        edit_views(r@) == line_diff(line_views(left@), line_views(right@)),
        left_side(edit_views(r@)) == line_views(left@),
        right_side(edit_views(r@)) == line_views(right@),
        matches_are_equal(edit_views(r@)),
        line_views(left@) == line_views(right@) ==> all_matched(edit_views(r@)),
{
    diff::slice(left, right).into_iter().map(|d| match d {
        diff::Result::Left(l) => Edit::Left(l.clone()),
        diff::Result::Right(r) => Edit::Right(r.clone()),
        diff::Result::Both(l, r) => Edit::Both(l.clone(), r.clone()),
    }).collect()
}

} // verus!
