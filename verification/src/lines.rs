//! Splitting a file into lines at its newline bytes.
use vstd::prelude::*;
use crate::layout::NEWLINE_BYTE;

verus! {

/// The pieces of `data` between its newline bytes: one more piece than
/// there are newlines, the last one empty when `data` ends with a newline.
pub open spec fn split_at_newlines(data: Seq<u8>) -> Seq<Seq<u8>>
    decreases data.len(),
{
    if data.len() == 0 {
        seq![seq![]]
    } else {
        let prev = split_at_newlines(data.drop_last());
        if data.last() == NEWLINE_BYTE {
            prev.push(seq![])
        } else {
            prev.update(prev.len() - 1, prev.last().push(data.last()))
        }
    }
}

/// The lines of a file: its pieces between newlines, without the empty
/// piece after a final newline (so an empty file has no lines).
pub open spec fn lines_of(data: Seq<u8>) -> Seq<Seq<u8>> {
    let pieces = split_at_newlines(data);
    if pieces.last().len() == 0 {
        pieces.drop_last()
    } else {
        pieces
    }
}

/// The byte sequences of a vector of lines.
pub open spec fn line_views(lines: Seq<Vec<u8>>) -> Seq<Seq<u8>> {
    lines.map_values(|l: Vec<u8>| l@)
}

/// Pieces joined back with a newline between each two.
pub open spec fn join_with_newlines(pieces: Seq<Seq<u8>>) -> Seq<u8>
    decreases pieces.len(),
{
    if pieces.len() <= 1 {
        if pieces.len() == 0 {
            seq![]
        } else {
            pieces[0]
        }
    } else {
        join_with_newlines(pieces.drop_last()) + seq![NEWLINE_BYTE] + pieces.last()
    }
}

/// Law: splitting at newlines loses nothing and keeps no newline inside a
/// piece: the pieces joined with newlines give back the data.
pub proof fn lemma_split_join(data: Seq<u8>)
    ensures
        split_at_newlines(data).len() >= 1,
        join_with_newlines(split_at_newlines(data)) == data,
        forall|i: int, j: int|
            0 <= i < split_at_newlines(data).len() && 0 <= j < split_at_newlines(data)[i].len()
                ==> #[trigger] split_at_newlines(data)[i][j] != NEWLINE_BYTE,
    decreases data.len(),
{
    if data.len() > 0 {
        let prev = split_at_newlines(data.drop_last());
        lemma_split_join(data.drop_last());
        let cur = split_at_newlines(data);
        if data.last() == NEWLINE_BYTE {
            assert(cur.drop_last() =~= prev);
            assert(join_with_newlines(cur) =~= data);
        } else {
            let n = prev.len();
            assert(cur.last() == prev.last().push(data.last()));
            assert(cur.drop_last() =~= prev.drop_last());
            assert(data =~= data.drop_last().push(data.last()));
            if n == 1 {
                assert(cur.len() == 1);
                assert(join_with_newlines(cur) == cur[0]);
                assert(join_with_newlines(cur) =~= data);
            } else {
                assert(join_with_newlines(prev) == join_with_newlines(prev.drop_last()) + seq![NEWLINE_BYTE]
                    + prev.last());
                assert(join_with_newlines(cur) =~= data);
            }
            assert forall|i: int, j: int|
                0 <= i < cur.len() && 0 <= j < cur[i].len() implies #[trigger] cur[i][j] != NEWLINE_BYTE by {
                if i < n - 1 {
                    assert(cur[i] == prev[i]);
                } else if j < prev.last().len() {
                    assert(cur[i][j] == prev[i][j]);
                }
            }
        }
    }
}

/// Law: the lines of a file lose nothing but the newlines between them and
/// after the last one: joined with newlines, and followed by a newline when
/// the file ends with one, they give back the file. No line holds a
/// newline, and a file that is not empty has at least one line.
pub proof fn lemma_lines_give_back_the_file(data: Seq<u8>)
    ensures
        join_with_newlines(lines_of(data)) + (if data.len() > 0 && data.last() == NEWLINE_BYTE {
            seq![NEWLINE_BYTE]
        } else {
            Seq::<u8>::empty()
        }) == data,
        data.len() > 0 ==> lines_of(data).len() > 0,
        forall|i: int, j: int|
            0 <= i < lines_of(data).len() && 0 <= j < lines_of(data)[i].len() ==> #[trigger] lines_of(
                data,
            )[i][j] != NEWLINE_BYTE,
{
    lemma_split_join(data);
    let pieces = split_at_newlines(data);
    if data.len() == 0 {
        assert(lines_of(data) =~= Seq::<Seq<u8>>::empty());
        assert(join_with_newlines(lines_of(data)) =~= data);
    } else {
        let prev = split_at_newlines(data.drop_last());
        lemma_split_join(data.drop_last());
        if data.last() == NEWLINE_BYTE {
            assert(pieces.drop_last() =~= prev);
            assert(lines_of(data) == prev);
            assert(join_with_newlines(pieces) == join_with_newlines(prev) + seq![NEWLINE_BYTE]
                + pieces.last());
            assert(join_with_newlines(prev) + seq![NEWLINE_BYTE] =~= data);
            assert forall|i: int, j: int|
                0 <= i < lines_of(data).len() && 0 <= j < lines_of(data)[i].len() implies #[trigger] lines_of(
                data,
            )[i][j] != NEWLINE_BYTE by {
                assert(lines_of(data)[i] == pieces[i]);
            }
        } else {
            assert(pieces.last().len() > 0);
            assert(lines_of(data) == pieces);
            assert(join_with_newlines(lines_of(data)) + Seq::<u8>::empty() =~= data);
        }
    }
}

/// The lines of `data`, as `lines_of` says.
pub fn split_lines(data: &[u8]) -> (lines: Vec<Vec<u8>>)
    ensures
        line_views(lines@) == lines_of(data@),
{
    let mut lines: Vec<Vec<u8>> = Vec::new();
    let mut current: Vec<u8> = Vec::new();
    let mut i: usize = 0;
    while i < data.len()
        invariant
            i <= data@.len(),
            line_views(lines@).push(current@) == split_at_newlines(data@.take(i as int)),
        decreases data@.len() - i,
    {
        let ghost prefix = data@.take(i as int);
        assert(data@.take(i + 1).drop_last() =~= prefix);
        assert(data@.take(i + 1).last() == data@[i as int]);
        if data[i] == NEWLINE_BYTE {
            let ghost old_lines = line_views(lines@);
            let ghost old_cur = current@;
            lines.push(current);
            assert(line_views(lines@) =~= old_lines.push(old_cur));
            current = Vec::new();
            assert(line_views(lines@).push(current@) =~= split_at_newlines(prefix).push(seq![]));
        } else {
            let ghost before = line_views(lines@).push(current@);
            current.push(data[i]);
            assert(line_views(lines@).push(current@) =~= before.update(
                before.len() - 1,
                before.last().push(data@[i as int]),
            ));
        }
        i = i + 1;
    }
    assert(data@.take(data@.len() as int) =~= data@);
    let ghost pieces = split_at_newlines(data@);
    assert(pieces.last() == current@);
    assert(pieces.drop_last() =~= line_views(lines@));
    if current.len() > 0 {
        let ghost old_lines = line_views(lines@);
        let ghost old_cur = current@;
        lines.push(current);
        assert(line_views(lines@) =~= old_lines.push(old_cur));
        assert(line_views(lines@) =~= lines_of(data@));
    } else {
        assert(line_views(lines@) =~= lines_of(data@));
    }
    lines
}

} // verus!
