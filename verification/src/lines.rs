//! Splitting file content into lines and serializing rows back into file
//! content. The reader splits at "\n" and "\r\n" terminators; the writer
//! always emits "\n". The round-trip law says that serializing rows and
//! splitting the result gives the rows back.

use crate::graphemes::graphemes_of;
use crate::row::Row;
use vstd::prelude::*;

verus! {

/// Position of the first '\n' at or after `i`, or the content's length.
pub open spec fn next_newline(s: Seq<char>, i: int) -> int
    decreases s.len() - i,
{
    if i < 0 || i >= s.len() {
        s.len() as int
    } else if s[i] == '\n' {
        i
    } else {
        next_newline(s, i + 1)
    }
}

pub proof fn lemma_next_newline(s: Seq<char>, i: int)
    requires
        0 <= i <= s.len(),
    ensures
        i <= next_newline(s, i) <= s.len(),
        next_newline(s, i) < s.len() ==> s[next_newline(s, i)] == '\n',
        forall|j: int| i <= j < next_newline(s, i) ==> s[j] != '\n',
    decreases s.len() - i,
{
    if i < s.len() && s[i] != '\n' {
        lemma_next_newline(s, i + 1);
    }
}

/// One trailing carriage return removed: what remains of a line read up
/// to a '\n' when the file used "\r\n" terminators.
pub open spec fn strip_cr(line: Seq<char>) -> Seq<char> {
    if line.len() > 0 && line.last() == '\r' {
        line.drop_last()
    } else {
        line
    }
}

/// The lines of `s`: split at each '\n', with one '\r' directly before
/// the terminator dropped. A final segment without terminator is kept as
/// it is; a trailing terminator adds no empty line.
pub open spec fn lines_spec(s: Seq<char>) -> Seq<Seq<char>>
    decreases s.len(),
        via lines_spec_decreases
{
    if s.len() == 0 {
        Seq::empty()
    } else {
        let j = next_newline(s, 0);
        if j == s.len() {
            seq![s]
        } else {
            seq![strip_cr(s.take(j))] + lines_spec(s.skip(j + 1))
        }
    }
}

#[via_fn]
proof fn lines_spec_decreases(s: Seq<char>) {
    if s.len() > 0 {
        lemma_next_newline(s, 0);
    }
}

/// The file content of the rows' character sequences from `i` on: each
/// row followed by one newline.
pub open spec fn serialize_from(rows: Seq<Seq<char>>, i: int) -> Seq<char>
    decreases rows.len() - i,
{
    if i < 0 || i >= rows.len() {
        Seq::empty()
    } else {
        rows[i] + seq!['\n'] + serialize_from(rows, i + 1)
    }
}

/// The file content of a document: every row's characters followed by one
/// newline.
pub open spec fn serialize_rows(rows: Seq<Seq<char>>) -> Seq<char> {
    serialize_from(rows, 0)
}

/// Splitting content that starts with a newline-terminated line yields
/// that line followed by the remaining content's lines. `crlf` says the
/// terminator is "\r\n"; with a bare "\n" the line must not end in '\r'
/// (else the split would take that '\r' as part of the terminator).
pub proof fn lemma_lines_concat(r0: Seq<char>, crlf: bool, rest: Seq<char>)
    requires
        forall|k: int| 0 <= k < r0.len() ==> r0[k] != '\n',
        !crlf && r0.len() > 0 ==> r0.last() != '\r',
    ensures
        lines_spec(r0 + (if crlf {
            seq!['\r', '\n']
        } else {
            seq!['\n']
        }) + rest) == seq![r0] + lines_spec(rest),
{
    let term: Seq<char> = if crlf {
        seq!['\r', '\n']
    } else {
        seq!['\n']
    };
    let s = r0 + term + rest;
    let j = r0.len() + term.len() - 1;
    assert(s[j as int] == '\n');
    assert forall|k: int| 0 <= k < j implies s[k] != '\n' by {
        if k < r0.len() {
            assert(s[k] == r0[k]);
        } else {
            assert(crlf && k == r0.len());
            assert(s[k] == '\r');
        }
    }
    lemma_next_newline(s, 0);
    assert(next_newline(s, 0) == j) by {
        lemma_next_newline(s, 0);
        if next_newline(s, 0) < j {
            assert(s[next_newline(s, 0)] != '\n');
        }
        if next_newline(s, 0) > j {
            assert(s[j as int] != '\n');
        }
    }
    assert(strip_cr(s.take(j as int)) =~= r0) by {
        if crlf {
            assert(s.take(j as int) =~= r0 + seq!['\r']);
            assert(s.take(j as int).last() == '\r');
            assert(s.take(j as int).drop_last() =~= r0);
        } else {
            assert(s.take(j as int) =~= r0);
        }
    }
    assert(s.skip(j + 1) =~= rest);
    assert(seq![strip_cr(s.take(j as int))] + lines_spec(s.skip(j + 1)) =~= seq![r0] + lines_spec(
        rest,
    ));
}

/// Saving and reloading reproduces the rows: serializing rows that hold
/// no newline and do not end in a carriage return, and splitting the
/// result into lines, gives back exactly those rows. (A row ending in
/// '\r' would lose that character: the writer emits '\r' then '\n', and
/// the reader takes the two as one terminator.)
pub proof fn lemma_save_reload_identity(rows: Seq<Seq<char>>)
    requires
        forall|i: int, k: int|
            0 <= i < rows.len() && 0 <= k < rows[i].len() ==> #[trigger] rows[i][k] != '\n',
        forall|i: int|
            0 <= i < rows.len() && rows[i].len() > 0 ==> (#[trigger] rows[i]).last() != '\r',
    ensures
        lines_spec(serialize_rows(rows)) == rows,
{
    lemma_reload_from(rows, 0);
    assert(rows.skip(0) =~= rows);
}

/// Builds one row per line of `content`, as opening a file does: lines
/// are split at "\n" or "\r\n" terminators, a trailing terminator adds no
/// row, and each line's text is that line's own grapheme-cluster
/// segmentation.
pub fn rows_from_str(content: &str) -> (rows: Vec<Row>)
    ensures
        rows@.len() == lines_spec(content@).len(),
        forall|i: int|
            0 <= i < rows@.len() ==> (#[trigger] rows@[i])@.text == graphemes_of(
                lines_spec(content@)[i],
            ) && rows@[i]@.text.flatten() == lines_spec(content@)[i] && rows@[i]@.tags.len() == 0
                && !rows@[i]@.hl,
{
    let n = content.unicode_len();
    let mut rows: Vec<Row> = Vec::new();
    let ghost mut built: Seq<Seq<char>> = Seq::empty();
    let mut start: usize = 0;
    proof {
        assert(content@.skip(0) =~= content@);
        assert(built + lines_spec(content@.skip(0)) =~= lines_spec(content@));
    }
    while start < n
        invariant
            start <= n,
            n == content@.len(),
            built + lines_spec(content@.skip(start as int)) == lines_spec(content@),
            rows@.len() == built.len(),
            forall|i: int|
                0 <= i < rows@.len() ==> (#[trigger] rows@[i])@.text == graphemes_of(built[i])
                    && rows@[i]@.text.flatten() == built[i] && rows@[i]@.tags.len() == 0
                    && !rows@[i]@.hl,
        decreases n - start,
    {
        let ghost rem = content@.skip(start as int);
        let mut j = start;
        while j < n && content.get_char(j) != '\n'
            invariant
                start <= j <= n,
                n == content@.len(),
                rem == content@.skip(start as int),
                next_newline(rem, 0) == next_newline(rem, j - start as int),
            decreases n - j,
        {
            proof {
                assert(rem[j - start as int] == content@[j as int]);
                assert(next_newline(rem, j - start as int) == next_newline(
                    rem,
                    j + 1 - start as int,
                ));
            }
            j = j + 1;
        }
        proof {
            assert(rem.len() == n - start);
            if j < n {
                assert(rem[j - start as int] == content@[j as int]);
                assert(next_newline(rem, 0) == j - start);
            } else {
                assert(next_newline(rem, 0) == rem.len() as int);
            }
        }
        if j < n {
            let strip = j > start && content.get_char(j - 1) == '\r';
            let line_end = if strip {
                j - 1
            } else {
                j
            };
            let line = content.substring_char(start, line_end);
            let row = Row::from_str(line);
            proof {
                assert(rem.take(j - start as int) =~= content@.subrange(start as int, j as int));
                if strip {
                    assert(rem.take(j - start as int).last() == content@[j - 1 as int]);
                    assert(strip_cr(rem.take(j - start as int)) =~= line@);
                } else {
                    assert(strip_cr(rem.take(j - start as int)) =~= line@);
                }
                assert(rem.skip(j - start + 1 as int) =~= content@.skip(j + 1 as int));
                built = built.push(line@);
                assert(built + lines_spec(content@.skip(j + 1 as int)) =~= lines_spec(content@));
            }
            rows.push(row);
            start = j + 1;
        } else {
            let line = content.substring_char(start, n);
            let row = Row::from_str(line);
            proof {
                assert(rem =~= content@.subrange(start as int, n as int));
                assert(rem == line@);
                built = built.push(line@);
                assert(lines_spec(content@.skip(n as int)) =~= Seq::<Seq<char>>::empty()) by {
                    assert(content@.skip(n as int).len() == 0);
                };
                assert(built + lines_spec(content@.skip(n as int)) =~= lines_spec(content@));
            }
            rows.push(row);
            start = n;
        }
    }
    proof {
        assert(lines_spec(content@.skip(n as int)) =~= Seq::<Seq<char>>::empty()) by {
            assert(content@.skip(n as int).len() == 0);
        };
        assert(built =~= lines_spec(content@));
    }
    rows
}

proof fn lemma_reload_from(rows: Seq<Seq<char>>, i: int)
    requires
        0 <= i <= rows.len(),
        forall|i: int, k: int|
            0 <= i < rows.len() && 0 <= k < rows[i].len() ==> #[trigger] rows[i][k] != '\n',
        forall|i: int|
            0 <= i < rows.len() && rows[i].len() > 0 ==> (#[trigger] rows[i]).last() != '\r',
    ensures
        lines_spec(serialize_from(rows, i)) == rows.skip(i),
    decreases rows.len() - i,
{
    if i >= rows.len() {
        assert(rows.skip(i) =~= Seq::<Seq<char>>::empty());
    } else {
        lemma_reload_from(rows, i + 1);
        lemma_lines_concat(rows[i], false, serialize_from(rows, i + 1));
        assert(rows[i] + seq!['\n'] + serialize_from(rows, i + 1) == serialize_from(rows, i));
        assert(seq![rows[i]] + rows.skip(i + 1) =~= rows.skip(i));
    }
}

} // verus!
