//! The document: an ordered sequence of rows plus dirty/filename/filetype
//! state, with line-spanning edit operations, document-wide search, and the
//! highlight pass that threads block-comment state from row to row.

use crate::graphemes::graphemes_of;
use crate::highlighting::cluster_match;
use crate::lines::lines_spec;
use crate::lines::rows_from_str;
use crate::lines::serialize_from;
use crate::lines::serialize_rows;
use crate::options::FileType;
use crate::options::HlConfig;
use crate::row::clamp;
use crate::row::row_delete_text;
use crate::row::row_hl_out;
use crate::row::row_hl_result;
use crate::row::row_insert_text;
use crate::row::Row;
use crate::row::RowView;
use crate::Pos;
use crate::SearchDirection;
use vstd::prelude::*;

verus! {

/// The view of a row that has just been created empty.
pub open spec fn empty_row_view() -> RowView {
    RowView { text: Seq::empty(), tags: Seq::empty(), hl: false }
}

/// Rows after inserting a non-newline character at `at`: a new one-column
/// row when `at.y` is just past the last row, else the character spliced
/// into row `at.y`, whose tag cache the edit marks stale.
pub open spec fn doc_insert_char(rows: Seq<RowView>, at: Pos, c: char) -> Seq<RowView> {
    if at.y == rows.len() {
        rows.push(RowView { text: seq![seq![c]], tags: Seq::empty(), hl: false })
    } else {
        let r = rows[at.y as int];
        rows.update(
            at.y as int,
            RowView { text: row_insert_text(r.text, at.x as int, c), tags: r.tags, hl: false },
        )
    }
}

/// Rows after a newline at `at`: a new empty row at the end when `at.y`
/// is just past the last row; an empty row inserted after row `at.y` when
/// the column is exactly the row's length; otherwise row `at.y` split at
/// the column.
pub open spec fn doc_insert_newline(rows: Seq<RowView>, at: Pos) -> Seq<RowView> {
    if at.y == rows.len() {
        rows.push(empty_row_view())
    } else if at.x == rows[at.y as int].text.len() {
        rows.insert(at.y + 1 as int, empty_row_view())
    } else {
        let r = rows[at.y as int];
        let cut = clamp(at.x as int, r.text.len() as int);
        let left = RowView { text: r.text.take(cut), tags: r.tags, hl: false };
        let right = RowView { text: r.text.skip(cut), tags: Seq::empty(), hl: false };
        rows.update(at.y as int, left).insert(at.y + 1 as int, right)
    }
}

/// Rows after an insertion at `at` (requires `at.y <= rows.len()`).
pub open spec fn doc_insert(rows: Seq<RowView>, at: Pos, c: char) -> Seq<RowView> {
    if c == '\n' {
        doc_insert_newline(rows, at)
    } else {
        doc_insert_char(rows, at, c)
    }
}

/// Rows after a deletion at `at` (requires `at.y < rows.len()`): when the
/// column is exactly row `at.y`'s length and a row follows, that row is
/// merged in; otherwise one cluster of row `at.y` is deleted.
pub open spec fn doc_delete(rows: Seq<RowView>, at: Pos) -> Seq<RowView> {
    let r = rows[at.y as int];
    if at.x == r.text.len() && at.y + 1 < rows.len() {
        let merged = RowView {
            text: r.text + rows[at.y + 1 as int].text,
            tags: r.tags,
            hl: false,
        };
        rows.update(at.y as int, merged).remove(at.y + 1 as int)
    } else {
        rows.update(
            at.y as int,
            RowView { text: row_delete_text(r.text, at.x as int), tags: r.tags, hl: false },
        )
    }
}

/// Rows with the tag caches from row `start - 1` (or 0) onward marked
/// stale: an edit at row `start` can change the classification of that
/// region.
pub open spec fn unhighlight_from(rows: Seq<RowView>, start: int) -> Seq<RowView> {
    Seq::new(
        rows.len(),
        |i: int|
            if i >= start - 1 {
                RowView { text: rows[i].text, tags: rows[i].tags, hl: false }
            } else {
                rows[i]
            },
    )
}

/// The rows `[k, upto)` after the highlight pass, threading the
/// block-comment continuation state `st` from row to row.
pub open spec fn hl_span(
    rows: Seq<RowView>,
    cfg: HlConfig,
    word: Option<Seq<char>>,
    st: bool,
    k: int,
    upto: int,
) -> Seq<RowView>
    decreases upto - k,
{
    if k < 0 || k >= upto || k >= rows.len() {
        Seq::empty()
    } else {
        seq![row_hl_result(rows[k], cfg, word, st)] + hl_span(
            rows,
            cfg,
            word,
            row_hl_out(rows[k], cfg, word, st),
            k + 1,
            upto,
        )
    }
}

/// The continuation state after highlighting rows `[k, j)` starting from
/// state `st`.
pub open spec fn hl_state(
    rows: Seq<RowView>,
    cfg: HlConfig,
    word: Option<Seq<char>>,
    st: bool,
    k: int,
    j: int,
) -> bool
    decreases j - k,
{
    if k < 0 || k >= j || k >= rows.len() {
        st
    } else {
        hl_state(rows, cfg, word, row_hl_out(rows[k], cfg, word, st), k + 1, j)
    }
}

pub proof fn lemma_hl_span_len(
    rows: Seq<RowView>,
    cfg: HlConfig,
    word: Option<Seq<char>>,
    st: bool,
    k: int,
    upto: int,
)
    requires
        0 <= k <= upto <= rows.len(),
    ensures
        hl_span(rows, cfg, word, st, k, upto).len() == upto - k,
    decreases upto - k,
{
    if k < upto {
        lemma_hl_span_len(rows, cfg, word, row_hl_out(rows[k], cfg, word, st), k + 1, upto);
    }
}

/// Extending the highlighted span by one row appends that row's result,
/// computed from the threaded state.
pub proof fn lemma_hl_span_snoc(
    rows: Seq<RowView>,
    cfg: HlConfig,
    word: Option<Seq<char>>,
    st: bool,
    k: int,
    j: int,
)
    requires
        0 <= k <= j < rows.len(),
    ensures
        hl_span(rows, cfg, word, st, k, j + 1) == hl_span(rows, cfg, word, st, k, j) + seq![
            row_hl_result(rows[j], cfg, word, hl_state(rows, cfg, word, st, k, j)),
        ],
    decreases j - k,
{
    if k == j {
        let st1 = row_hl_out(rows[j], cfg, word, st);
        assert(hl_span(rows, cfg, word, st1, j + 1, j + 1) =~= Seq::<RowView>::empty());
        assert(hl_span(rows, cfg, word, st, k, j) =~= Seq::<RowView>::empty());
        assert(hl_span(rows, cfg, word, st, k, j + 1) =~= seq![row_hl_result(rows[j], cfg, word, st)]
            + hl_span(rows, cfg, word, st1, j + 1, j + 1));
        assert(hl_span(rows, cfg, word, st, k, j + 1) =~= hl_span(rows, cfg, word, st, k, j)
            + seq![row_hl_result(rows[j], cfg, word, hl_state(rows, cfg, word, st, k, j))]);
    } else {
        let st1 = row_hl_out(rows[k], cfg, word, st);
        lemma_hl_span_snoc(rows, cfg, word, st1, k + 1, j);
        assert(hl_span(rows, cfg, word, st, k, j + 1) == seq![row_hl_result(rows[k], cfg, word, st)]
            + hl_span(rows, cfg, word, st1, k + 1, j + 1));
        assert(hl_span(rows, cfg, word, st, k, j) == seq![row_hl_result(rows[k], cfg, word, st)]
            + hl_span(rows, cfg, word, st1, k + 1, j));
        assert(hl_state(rows, cfg, word, st, k, j) == hl_state(rows, cfg, word, st1, k + 1, j));
        assert(hl_span(rows, cfg, word, st, k, j + 1) =~= hl_span(rows, cfg, word, st, k, j)
            + seq![row_hl_result(rows[j], cfg, word, hl_state(rows, cfg, word, st, k, j))]);
    }
}

/// Extending the highlighted span by one row threads the state through
/// that row.
pub proof fn lemma_hl_state_snoc(
    rows: Seq<RowView>,
    cfg: HlConfig,
    word: Option<Seq<char>>,
    st: bool,
    k: int,
    j: int,
)
    requires
        0 <= k <= j < rows.len(),
    ensures
        hl_state(rows, cfg, word, st, k, j + 1) == row_hl_out(
            rows[j],
            cfg,
            word,
            hl_state(rows, cfg, word, st, k, j),
        ),
    decreases j - k,
{
    if k == j {
        let st1 = row_hl_out(rows[j], cfg, word, st);
        assert(hl_state(rows, cfg, word, st1, j + 1, j + 1) == st1);
    } else {
        lemma_hl_state_snoc(rows, cfg, word, row_hl_out(rows[k], cfg, word, st), k + 1, j);
    }
}

/// The bound of the highlight pass: one past `until` where that stays
/// inside the document, else the row count.
pub open spec fn hl_bound(until: Option<usize>, len: int) -> int {
    match until {
        Some(u) => if u + 1 < len {
            u + 1
        } else {
            len
        },
        None => len,
    }
}

/// The character contents of each row.
pub open spec fn row_texts(rows: Seq<RowView>) -> Seq<Seq<char>> {
    rows.map_values(|r: RowView| r.text.flatten())
}

/// A position `(x, y)` where the query's clusters stand in the document.
pub open spec fn doc_match(rows: Seq<RowView>, q: Seq<Seq<char>>, x: int, y: int) -> bool {
    0 <= y < rows.len() && cluster_match(rows[y].text, q, x)
}

/// A match that a forward search from `at` may report: at or below row
/// `at.y`, and within that row at or after column `at.x`.
pub open spec fn fwd_candidate(
    rows: Seq<RowView>,
    q: Seq<Seq<char>>,
    at: Pos,
    x: int,
    y: int,
) -> bool {
    &&& at.y <= y
    &&& doc_match(rows, q, x, y)
    &&& (y == at.y ==> at.x <= x)
}

/// A match that a backward search from `at` may report: at or above row
/// `at.y`; within row `at.y` it must end at or before column `at.x`, and
/// that row takes part only when `at.x` does not exceed its length.
pub open spec fn bwd_candidate(
    rows: Seq<RowView>,
    q: Seq<Seq<char>>,
    at: Pos,
    x: int,
    y: int,
) -> bool {
    &&& y <= at.y
    &&& doc_match(rows, q, x, y)
    &&& (y == at.y ==> x + q.len() <= at.x && at.x <= rows[at.y as int].text.len())
}

pub struct Document {
    rows: Vec<Row>,
    dirty: bool,
    pub filename: Option<String>,
    filetype: FileType,
}

impl Document {
    /// The rows' mathematical content.
    pub closed spec fn rows_view(self) -> Seq<RowView> {
        self.rows.deep_view()
    }

    pub closed spec fn dirty_spec(self) -> bool {
        self.dirty
    }

    pub closed spec fn filename_spec(self) -> Option<Seq<char>> {
        self.filename.deep_view()
    }

    pub closed spec fn filetype_name(self) -> Seq<char> {
        self.filetype.name_spec()
    }

    /// The highlighting configuration the document's file type selects.
    pub closed spec fn config(self) -> HlConfig {
        self.filetype.options_spec()
    }

    /// Builds a document from a file's text content: one row per line,
    /// each holding its line's own grapheme-cluster segmentation, clean,
    /// with the given filename and file type.
    pub fn from_text(content: &str, filename: Option<String>, filetype: FileType) -> (d: Document)
        ensures
            d.rows_view().len() == lines_spec(content@).len(),
            forall|i: int|
                0 <= i < d.rows_view().len() ==> (#[trigger] d.rows_view()[i]).text
                    == graphemes_of(lines_spec(content@)[i]) && d.rows_view()[i].text.flatten()
                    == lines_spec(content@)[i] && d.rows_view()[i].tags.len() == 0
                    && !d.rows_view()[i].hl,
            !d.dirty_spec(),
            d.filename_spec() == filename.deep_view(),
            d.filetype_name() == filetype.name_spec(),
            d.config() == filetype.options_spec(),
    {
        let rows = rows_from_str(content);
        let d = Document { rows, dirty: false, filename, filetype };
        proof {
            assert(forall|i: int|
                0 <= i < d.rows.deep_view().len() ==> #[trigger] d.rows.deep_view()[i]
                    == d.rows@[i]@);
        }
        d
    }

    /// Inserts `c` at position `at`; a silent no-op when `at.y` lies past
    /// the end. A newline splits the row; any other character is spliced
    /// into it (or starts a new last row). The affected region's tag
    /// caches are marked stale and the document becomes dirty.
    pub fn insert(&mut self, at: &Pos, c: char)
        ensures
            at.y > old(self).rows_view().len() ==> *final(self) == *old(self),
            at.y <= old(self).rows_view().len() ==> final(self).rows_view() == unhighlight_from(
                doc_insert(old(self).rows_view(), *at, c),
                at.y as int,
            ) && final(self).dirty_spec(),
            final(self).filename_spec() == old(self).filename_spec(),
            final(self).filetype_name() == old(self).filetype_name(),
            final(self).config() == old(self).config(),
    {
        let len = self.rows.len();
        if at.y > len {
            return ;
        }
        self.dirty = true;
        if c == '\n' {
            if at.y == len {
                self.rows.push(Row::empty());
                proof {
                    assert(self.rows.deep_view() =~~= doc_insert_newline(
                        old(self).rows_view(),
                        *at,
                    ));
                }
            } else {
                let row_len = self.rows[at.y].len();
                if at.x == row_len {
                    self.rows.insert(at.y + 1, Row::empty());
                    proof {
                        assert(self.rows.deep_view() =~~= doc_insert_newline(
                            old(self).rows_view(),
                            *at,
                        ));
                    }
                } else {
                    let mut row = self.rows.remove(at.y);
                    let new_row = row.split(at.x);
                    self.rows.insert(at.y, row);
                    self.rows.insert(at.y + 1, new_row);
                    proof {
                        assert(self.rows.deep_view() =~~= doc_insert_newline(
                            old(self).rows_view(),
                            *at,
                        ));
                    }
                }
            }
        } else if at.y == len {
            let mut row = Row::empty();
            row.insert(0, c);
            self.rows.push(row);
            proof {
                assert(row@.text =~~= seq![seq![c]]);
                assert(self.rows.deep_view() =~~= doc_insert_char(old(self).rows_view(), *at, c));
            }
        } else {
            let mut row = self.rows.remove(at.y);
            row.insert(at.x, c);
            self.rows.insert(at.y, row);
            proof {
                assert(self.rows.deep_view() =~~= doc_insert_char(old(self).rows_view(), *at, c));
            }
        }
        self.unhighlight_rows(at.y);
    }

    /// Inserts an empty row directly after row `y_at` (appended when
    /// `y_at` is the row count); a silent no-op past that.
    pub fn insert_newline_at_end(&mut self, y_at: usize)
        ensures
            y_at > old(self).rows_view().len() ==> *final(self) == *old(self),
            y_at == old(self).rows_view().len() ==> final(self).rows_view() == old(
                self,
            ).rows_view().push(empty_row_view()),
            y_at < old(self).rows_view().len() ==> final(self).rows_view() == old(
                self,
            ).rows_view().insert(y_at + 1 as int, empty_row_view()),
            final(self).dirty_spec() == old(self).dirty_spec(),
            final(self).filename_spec() == old(self).filename_spec(),
            final(self).filetype_name() == old(self).filetype_name(),
            final(self).config() == old(self).config(),
    {
        if y_at > self.rows.len() {
            return ;
        }
        if y_at == self.rows.len() {
            self.rows.push(Row::empty());
            proof {
                assert(self.rows.deep_view() =~~= old(self).rows_view().push(empty_row_view()));
            }
            return ;
        }
        self.rows.insert(y_at + 1, Row::empty());
        proof {
            assert(self.rows.deep_view() =~~= old(self).rows_view().insert(
                y_at + 1 as int,
                empty_row_view(),
            ));
        }
    }

    /// Splits row `at.y` at column `at.x` into two rows; appends an empty
    /// row when `at.y` is just past the end; a silent no-op beyond that.
    pub fn insert_newline(&mut self, at: &Pos)
        ensures
            at.y > old(self).rows_view().len() ==> *final(self) == *old(self),
            at.y == old(self).rows_view().len() ==> final(self).rows_view() == old(
                self,
            ).rows_view().push(empty_row_view()),
            at.y < old(self).rows_view().len() ==> ({
                let rows = old(self).rows_view();
                let r = rows[at.y as int];
                let cut = clamp(at.x as int, r.text.len() as int);
                final(self).rows_view() == rows.update(
                    at.y as int,
                    RowView { text: r.text.take(cut), tags: r.tags, hl: false },
                ).insert(
                    at.y + 1 as int,
                    RowView { text: r.text.skip(cut), tags: Seq::empty(), hl: false },
                )
            }),
            final(self).dirty_spec() == old(self).dirty_spec(),
            final(self).filename_spec() == old(self).filename_spec(),
            final(self).filetype_name() == old(self).filetype_name(),
            final(self).config() == old(self).config(),
    {
        if at.y > self.rows.len() {
            return ;
        }
        if at.y == self.rows.len() {
            self.rows.push(Row::empty());
            proof {
                assert(self.rows.deep_view() =~~= old(self).rows_view().push(empty_row_view()));
            }
            return ;
        }
        let mut row = self.rows.remove(at.y);
        let new_row = row.split(at.x);
        self.rows.insert(at.y, row);
        self.rows.insert(at.y + 1, new_row);
        proof {
            let rows = old(self).rows_view();
            let r = rows[at.y as int];
            let cut = clamp(at.x as int, r.text.len() as int);
            assert(self.rows.deep_view() =~~= rows.update(
                at.y as int,
                RowView { text: r.text.take(cut), tags: r.tags, hl: false },
            ).insert(at.y + 1 as int, RowView { text: r.text.skip(cut), tags: Seq::empty(), hl: false }));
        }
    }

    /// Deletes at position `at`: the cluster at `at.x`, or, when `at.x` is
    /// just past the row's end and a row follows, merges that row into
    /// this one. A silent no-op when `at.y` lies past the last row.
    pub fn delete(&mut self, at: &Pos)
        ensures
            at.y >= old(self).rows_view().len() ==> *final(self) == *old(self),
            at.y < old(self).rows_view().len() ==> final(self).rows_view() == unhighlight_from(
                doc_delete(old(self).rows_view(), *at),
                at.y as int,
            ) && final(self).dirty_spec(),
            final(self).filename_spec() == old(self).filename_spec(),
            final(self).filetype_name() == old(self).filetype_name(),
            final(self).config() == old(self).config(),
    {
        let len = self.rows.len();
        if at.y >= len {
            return ;
        }
        self.dirty = true;
        let row_len = self.rows[at.y].len();
        if at.x == row_len && at.y + 1 < len {
            let next_row = self.rows.remove(at.y + 1);
            let mut row = self.rows.remove(at.y);
            row.append(&next_row);
            self.rows.insert(at.y, row);
            proof {
                assert(self.rows.deep_view() =~~= doc_delete(old(self).rows_view(), *at));
            }
        } else {
            let mut row = self.rows.remove(at.y);
            row.delete(at.x);
            self.rows.insert(at.y, row);
            proof {
                assert(self.rows.deep_view() =~~= doc_delete(old(self).rows_view(), *at));
            }
        }
        self.unhighlight_rows(at.y);
    }

    /// Marks the tag caches stale from row `start - 1` (or 0) onward.
    fn unhighlight_rows(&mut self, start: usize)
        ensures
            final(self).rows_view() == unhighlight_from(old(self).rows_view(), start as int),
            final(self).dirty_spec() == old(self).dirty_spec(),
            final(self).filename_spec() == old(self).filename_spec(),
            final(self).filetype_name() == old(self).filetype_name(),
            final(self).config() == old(self).config(),
    {
        let mut i: usize = if start > 0 {
            start - 1
        } else {
            0
        };
        while i < self.rows.len()
            invariant
                self.rows@.len() == old(self).rows_view().len(),
                start > 0 ==> i >= start - 1,
                start == 0 ==> i >= 0,
                self.dirty == old(self).dirty_spec(),
                self.filename.deep_view() == old(self).filename_spec(),
                self.filetype.name_spec() == old(self).filetype_name(),
                self.filetype.options_spec() == old(self).config(),
                forall|j: int|
                    0 <= j < self.rows@.len() && (j < start - 1 || j >= i) ==> self.rows.deep_view()[j]
                        == old(self).rows_view()[j],
                forall|j: int|
                    start - 1 <= j < i && 0 <= j ==> self.rows.deep_view()[j] == (RowView {
                        text: old(self).rows_view()[j].text,
                        tags: old(self).rows_view()[j].tags,
                        hl: false,
                    }),
            decreases self.rows@.len() - i,
        {
            let ghost pre = self.rows.deep_view();
            let mut row = self.rows.remove(i);
            row.mark_unhighlighted();
            self.rows.insert(i, row);
            proof {
                assert(self.rows.deep_view() =~~= pre.update(
                    i as int,
                    RowView { text: pre[i as int].text, tags: pre[i as int].tags, hl: false },
                ));
            }
            i = i + 1;
        }
        proof {
            assert(self.rows.deep_view() =~~= unhighlight_from(
                old(self).rows_view(),
                start as int,
            ));
        }
    }

    /// Recomputes highlighting for the rows up to `until` (all rows when
    /// it is absent or past the end), threading the block-comment
    /// continuation state from row 0 onward and overlaying the search
    /// word's matches.
    pub fn highlight(&mut self, word: &Option<String>, until: Option<usize>)
        ensures
            ({
                let rows = old(self).rows_view();
                let upto = hl_bound(until, rows.len() as int);
                final(self).rows_view() == hl_span(
                    rows,
                    old(self).config(),
                    word.deep_view(),
                    false,
                    0,
                    upto,
                ) + rows.skip(upto)
            }),
            final(self).dirty_spec() == old(self).dirty_spec(),
            final(self).filename_spec() == old(self).filename_spec(),
            final(self).filetype_name() == old(self).filetype_name(),
            final(self).config() == old(self).config(),
    {
        let ghost rows0 = old(self).rows_view();
        let ghost cfg = old(self).config();
        let ghost wv = word.deep_view();
        let len = self.rows.len();
        let upto = match until {
            Some(u) => if u >= len {
                len
            } else {
                u + 1
            },
            None => len,
        };
        proof {
            assert(upto as int == hl_bound(until, rows0.len() as int));
        }
        let mut start_with_comment = false;
        let mut k: usize = 0;
        proof {
            assert(hl_span(rows0, cfg, wv, false, 0, 0) =~= Seq::<RowView>::empty());
            assert(self.rows.deep_view() =~~= hl_span(rows0, cfg, wv, false, 0, 0) + rows0.skip(0));
        }
        while k < upto
            invariant
                k <= upto,
                upto <= rows0.len(),
                rows0.len() == self.rows@.len(),
                self.dirty == old(self).dirty_spec(),
                self.filename.deep_view() == old(self).filename_spec(),
                self.filetype.name_spec() == old(self).filetype_name(),
                self.filetype.options_spec() == cfg,
                cfg == old(self).config(),
                wv == word.deep_view(),
                self.rows.deep_view() == hl_span(rows0, cfg, wv, false, 0, k as int) + rows0.skip(
                    k as int,
                ),
                start_with_comment == hl_state(rows0, cfg, wv, false, 0, k as int),
            decreases upto - k,
        {
            let ghost pre = self.rows.deep_view();
            proof {
                lemma_hl_span_len(rows0, cfg, wv, false, 0, k as int);
                assert(pre[k as int] == rows0[k as int]);
            }
            let mut row = self.rows.remove(k);
            let sc = row.highlight(self.filetype.options(), word, start_with_comment);
            self.rows.insert(k, row);
            proof {
                lemma_hl_span_snoc(rows0, cfg, wv, false, 0, k as int);
                lemma_hl_state_snoc(rows0, cfg, wv, false, 0, k as int);
                assert(row@ == row_hl_result(
                    rows0[k as int],
                    cfg,
                    wv,
                    hl_state(rows0, cfg, wv, false, 0, k as int),
                ));
                assert(self.rows.deep_view() =~~= pre.update(k as int, row@));
                assert(self.rows.deep_view() =~~= hl_span(rows0, cfg, wv, false, 0, k + 1 as int)
                    + rows0.skip(k + 1 as int));
            }
            start_with_comment = sc;
            k = k + 1;
        }
    }

    /// Document-wide search: Forward scans row `at.y` from column `at.x`
    /// and the rows below it from column 0; Backward scans row `at.y`
    /// for matches ending at or before `at.x` and the rows above it from
    /// their ends. The first position found is returned.
    pub fn find(&self, query: &str, at: &Pos, direction: SearchDirection) -> (r: Option<Pos>)
        ensures
            ({
                let rows = self.rows_view();
                let q = graphemes_of(query@);
                match direction {
                    SearchDirection::Forward => match r {
                        Some(p) => fwd_candidate(rows, q, *at, p.x as int, p.y as int) && forall|
                            x: int,
                            y: int,
                        |
                            fwd_candidate(rows, q, *at, x, y) ==> (p.y < y || (p.y == y && p.x
                                <= x)),
                        None => query@.len() == 0 || forall|x: int, y: int|
                            !fwd_candidate(rows, q, *at, x, y),
                    },
                    SearchDirection::Backward => match r {
                        Some(p) => (at.y as int) < rows.len() && bwd_candidate(
                            rows,
                            q,
                            *at,
                            p.x as int,
                            p.y as int,
                        ) && forall|x: int, y: int|
                            bwd_candidate(rows, q, *at, x, y) ==> (y < p.y || (p.y == y && x
                                <= p.x)),
                        None => query@.len() == 0 || at.y >= rows.len() || forall|x: int, y: int|
                            !bwd_candidate(rows, q, *at, x, y),
                    },
                }
            }),
    {
        let ghost rows = self.rows_view();
        let ghost q = graphemes_of(query@);
        if query.is_empty() {
            return None;
        }
        match direction {
            SearchDirection::Forward => {
                let mut y = at.y;
                let mut x = at.x;
                while y < self.rows.len()
                    invariant
                        at.y <= y,
                        rows == self.rows_view(),
                        q == graphemes_of(query@),
                        x == (if y == at.y {
                            at.x
                        } else {
                            0
                        }),
                        direction == SearchDirection::Forward,
                        query@.len() > 0,
                        forall|x2: int, y2: int| fwd_candidate(rows, q, *at, x2, y2) ==> y2 >= y,
                    decreases self.rows@.len() - y,
                {
                    proof {
                        assert(self.rows.deep_view()[y as int] == self.rows@[y as int]@);
                    }
                    match self.rows[y].find(query, x, SearchDirection::Forward) {
                        Some(i) => {
                            return Some(Pos { x: i, y });
                        },
                        None => {
                            proof {
                                assert forall|x2: int, y2: int|
                                    fwd_candidate(rows, q, *at, x2, y2) implies y2 >= y + 1 by {
                                    if y2 == y {
                                        assert(cluster_match(rows[y as int].text, q, x2));
                                    }
                                }
                            }
                            y = y + 1;
                            x = 0;
                        },
                    }
                }
                None
            },
            SearchDirection::Backward => {
                if at.y >= self.rows.len() {
                    return None;
                }
                let mut y = at.y;
                let mut x = at.x;
                loop
                    invariant
                        y <= at.y,
                        (at.y as int) < rows.len(),
                        rows == self.rows_view(),
                        rows.len() == self.rows@.len(),
                        q == graphemes_of(query@),
                        x as int == (if y == at.y {
                            at.x as int
                        } else {
                            rows[y as int].text.len() as int
                        }),
                        direction == SearchDirection::Backward,
                        query@.len() > 0,
                        forall|x2: int, y2: int| bwd_candidate(rows, q, *at, x2, y2) ==> y2 <= y,
                    decreases y,
                {
                    proof {
                        assert(self.rows.deep_view()[y as int] == self.rows@[y as int]@);
                    }
                    match self.rows[y].find(query, x, SearchDirection::Backward) {
                        Some(i) => {
                            return Some(Pos { x: i, y });
                        },
                        None => {
                            proof {
                                assert forall|x2: int, y2: int|
                                    bwd_candidate(rows, q, *at, x2, y2) implies y2 <= y - 1 by {
                                    if y2 == y {
                                        assert(cluster_match(rows[y as int].text, q, x2));
                                    }
                                }
                            }
                            if y == 0 {
                                return None;
                            }
                            y = y - 1;
                            x = self.rows[y].len();
                        },
                    }
                }
            },
        }
    }

    /// The characters that saving writes: every row's text followed by
    /// one newline.
    pub fn save_content(&self) -> (out: Vec<char>)
        ensures
            out@ == serialize_rows(row_texts(self.rows_view())),
    {
        let ghost texts = row_texts(self.rows_view());
        let mut out: Vec<char> = Vec::new();
        let mut i: usize = 0;
        proof {
            assert(out@ + serialize_from(texts, 0) =~= serialize_rows(texts));
        }
        while i < self.rows.len()
            invariant
                i <= self.rows@.len(),
                texts == row_texts(self.rows_view()),
                texts.len() == self.rows@.len(),
                out@ + serialize_from(texts, i as int) == serialize_rows(texts),
            decreases self.rows@.len() - i,
        {
            let cs = self.rows[i].text_chars();
            let ghost pre = out@;
            proof {
                assert(cs@ == texts[i as int]);
            }
            let mut u: usize = 0;
            while u < cs.len()
                invariant
                    u <= cs@.len(),
                    out@ == pre + cs@.take(u as int),
                decreases cs@.len() - u,
            {
                out.push(cs[u]);
                proof {
                    assert(cs@.take(u + 1 as int) =~= cs@.take(u as int).push(cs@[u as int]));
                }
                u = u + 1;
            }
            out.push('\n');
            proof {
                assert(cs@.take(cs@.len() as int) =~= cs@);
                assert(out@ =~= pre + texts[i as int] + seq!['\n']);
                assert(serialize_from(texts, i as int) == texts[i as int] + seq!['\n']
                    + serialize_from(texts, i + 1 as int));
                assert(out@ + serialize_from(texts, i + 1 as int) =~= serialize_rows(texts));
            }
            i = i + 1;
        }
        proof {
            assert(serialize_from(texts, texts.len() as int) =~= Seq::<char>::empty());
            assert(out@ =~= serialize_rows(texts));
        }
        out
    }

    /// Records a successful save: the file type now derived from the
    /// filename is installed and the document is clean again.
    pub fn mark_saved(&mut self, filetype: FileType)
        ensures
            final(self).rows_view() == old(self).rows_view(),
            !final(self).dirty_spec(),
            final(self).filename_spec() == old(self).filename_spec(),
            final(self).filetype_name() == filetype.name_spec(),
            final(self).config() == filetype.options_spec(),
    {
        self.filetype = filetype;
        self.dirty = false;
    }

    /// The row at `index`, if it exists.
    pub fn row(&self, index: usize) -> (r: Option<&Row>)
        ensures
            match r {
                Some(row) => index < self.rows_view().len() && row@ == self.rows_view()[index as int],
                None => index >= self.rows_view().len(),
            },
    {
        if index < self.rows.len() {
            proof {
                assert(self.rows.deep_view()[index as int] == self.rows@[index as int]@);
            }
            Some(&self.rows[index])
        } else {
            None
        }
    }

    /// The number of rows.
    pub fn len(&self) -> (n: usize)
        ensures
            n == self.rows_view().len(),
    {
        self.rows.len()
    }

    pub fn is_empty(&self) -> (b: bool)
        ensures
            b == (self.rows_view().len() == 0),
    {
        self.rows.len() == 0
    }

    /// The display name of the document's file type.
    pub fn file_type(&self) -> (r: String)
        ensures
            r@ == self.filetype_name(),
    {
        self.filetype.name()
    }

    /// True from the first mutation after a load until the next save.
    pub fn is_dirty(&self) -> (b: bool)
        ensures
            b == self.dirty_spec(),
    {
        self.dirty
    }
}

impl Default for Document {
    /// An empty, clean document without a filename, with the default file
    /// type.
    fn default() -> (d: Self)
        ensures
            d.rows_view().len() == 0,
            !d.dirty_spec(),
            d.filename_spec() is None,
            d.filetype_name() == "No filetype"@,
            !d.config().numbers,
            !d.config().strings,
            !d.config().characters,
            !d.config().comments,
            !d.config().multiline_comments,
            d.config().primary_keywords.len() == 0,
            d.config().secondary_keywords.len() == 0,
    {
        Document {
            rows: Vec::new(),
            dirty: false,
            filename: None,
            filetype: FileType::default(),
        }
    }
}

} // verus!
