//! One line of the document. A row stores its text as the sequence of
//! grapheme clusters the segmenter produced, so every column used by the
//! editing operations addresses a user-perceived character. Alongside the
//! text it stores one highlight tag per character (code point) and a flag
//! that says whether those tags are current.

use crate::graphemes::chars_of;
use crate::graphemes::graphemes_of;
use crate::graphemes::segment_graphemes;
use crate::highlighting::char_lit_at;
use crate::highlighting::char_lit_close;
use crate::highlighting::char_offset;
use crate::highlighting::cluster_match;
use crate::highlighting::ends_with_closer;
use crate::highlighting::find_closer;
use crate::highlighting::find_quote;
use crate::highlighting::first_kw;
use crate::highlighting::is_digit;
use crate::highlighting::is_num_cont;
use crate::highlighting::is_sep;
use crate::highlighting::keyword_at;
use crate::highlighting::kw_match_at;
use crate::highlighting::lemma_char_offset_le_total;
use crate::highlighting::lemma_char_offset_step;
use crate::highlighting::lemma_char_offset_zero;
use crate::highlighting::lemma_find_closer;
use crate::highlighting::lemma_find_quote;
use crate::highlighting::lemma_num_end;
use crate::highlighting::lemma_run_highlight_len;
use crate::highlighting::lemma_run_last_mlc;
use crate::highlighting::lemma_run_open_last_mlc;
use crate::highlighting::lemma_token_end_bounds;
use crate::highlighting::line_comment_at;
use crate::highlighting::ml_open_at;
use crate::highlighting::num_end;
use crate::highlighting::number_at;
use crate::highlighting::overlay_matches;
use crate::highlighting::prev_is_boundary;
use crate::highlighting::repeat_tag;
use crate::highlighting::run_highlight;
use crate::highlighting::scan;
use crate::highlighting::set_range;
use crate::highlighting::string_at;
use crate::highlighting::token_end;
use crate::highlighting::token_tag;
use crate::highlighting::Type;
use crate::options::HighlightingOptions;
use crate::options::HlConfig;
use crate::SearchDirection;
use vstd::prelude::*;

verus! {

/// The mathematical content of a row: grapheme clusters, per-character
/// highlight tags, and the tag-cache flag.
#[verifier::ext_equal]
pub ghost struct RowView {
    /// The text as grapheme clusters; each cluster is a character sequence.
    pub text: Seq<Seq<char>>,
    /// One highlight tag per character of the flattened text
    /// (once a highlight pass has run; stale or empty before that).
    pub tags: Seq<Type>,
    /// True while `tags` is known to be current for this text.
    pub hl: bool,
}

pub struct Row {
    graphemes: Vec<Vec<char>>,
    highlighting: Vec<Type>,
    pub is_highlighted: bool,
}

impl View for Row {
    type V = RowView;

    closed spec fn view(&self) -> RowView {
        RowView {
            text: self.graphemes.deep_view(),
            tags: self.highlighting@,
            hl: self.is_highlighted,
        }
    }
}

impl DeepView for Row {
    type V = RowView;

    open spec fn deep_view(&self) -> RowView {
        self.view()
    }
}

/// `at` clamped into `[0, n]`.
pub open spec fn clamp(at: int, n: int) -> int {
    if at <= n {
        at
    } else {
        n
    }
}

/// Text after inserting character `c` as a new cluster at column `at`
/// (appended when `at` is at or past the end).
pub open spec fn row_insert_text(t: Seq<Seq<char>>, at: int, c: char) -> Seq<Seq<char>> {
    if at >= t.len() {
        t.push(seq![c])
    } else {
        t.insert(at, seq![c])
    }
}

/// Text after deleting the cluster at column `at` (unchanged when `at`
/// is past the end).
pub open spec fn row_delete_text(t: Seq<Seq<char>>, at: int) -> Seq<Seq<char>> {
    if at >= t.len() {
        t
    } else {
        t.remove(at)
    }
}

/// The column of the first cluster at or after `i` that is not a single
/// space; 0 when the row is empty or all spaces.
pub open spec fn first_nonblank(t: Seq<Seq<char>>, i: int) -> int
    decreases t.len() - i,
{
    if i < 0 || i >= t.len() {
        0
    } else if t[i] != seq![' '] {
        i
    } else {
        first_nonblank(t, i + 1)
    }
}

/// The tag a character position carries; `Plain` where no tag was
/// computed.
pub open spec fn tag_or_plain(tags: Seq<Type>, p: int) -> Type {
    if 0 <= p < tags.len() {
        tags[p]
    } else {
        Type::Plain
    }
}

/// What a forward search from column `at` returns: the first column at or
/// after `at` whose clusters match the query's clusters `q`, or nothing
/// when the query (whose characters are `qchars`) is empty, `at` is past
/// the end, or no match lies at or after `at`.
pub open spec fn forward_find_ok(
    t: Seq<Seq<char>>,
    q: Seq<Seq<char>>,
    qchars: Seq<char>,
    at: int,
    r: Option<usize>,
) -> bool {
    match r {
        Some(i) => at <= t.len() && at <= i && cluster_match(t, q, i as int) && forall|j: int|
            at <= j < i ==> !cluster_match(t, q, j),
        None => qchars.len() == 0 || at > t.len() || forall|j: int|
            at <= j ==> !cluster_match(t, q, j),
    }
}

/// What a backward search from column `at` returns: the last column whose
/// match ends at or before `at`, or nothing when the query is empty, `at`
/// is past the end, or no match ends at or before `at`.
pub open spec fn backward_find_ok(
    t: Seq<Seq<char>>,
    q: Seq<Seq<char>>,
    qchars: Seq<char>,
    at: int,
    r: Option<usize>,
) -> bool {
    match r {
        Some(i) => at <= t.len() && i + q.len() <= at && cluster_match(t, q, i as int) && forall|
            j: int,
        |
            i < j && j + q.len() <= at ==> !cluster_match(t, q, j),
        None => qchars.len() == 0 || at > t.len() || forall|j: int|
            j + q.len() <= at ==> !cluster_match(t, q, j),
    }
}

/// The highlight pass reuses cached tags when they are current and no
/// search word is given.
pub open spec fn row_fast_path(r: RowView, word: Option<Seq<char>>) -> bool {
    r.hl && word is None
}

/// What the fast path reports for the comment-continuation state: the row
/// is taken to end inside an open block comment exactly when its last tag
/// is a block-comment tag and its final two characters are not the
/// closer "*/".
pub open spec fn row_fast_out(r: RowView) -> bool {
    r.tags.len() > 0 && r.tags.last() == Type::MultilineComment && !ends_with_closer(
        r.text.flatten(),
    )
}

/// The tags of a full pass: the classifier pass over the row's
/// characters, overlaid with `Match` on every occurrence of the search
/// word's clusters.
pub open spec fn row_full_tags(
    r: RowView,
    cfg: HlConfig,
    word: Option<Seq<char>>,
    start_with_comment: bool,
) -> Seq<Type> {
    let base = run_highlight(r.text.flatten(), cfg, start_with_comment).tags;
    match word {
        Some(w) => overlay_matches(base, r.text, graphemes_of(w), 0),
        None => base,
    }
}

/// Whether a full pass ends inside an unterminated block comment.
pub open spec fn row_full_open(r: RowView, cfg: HlConfig, start_with_comment: bool) -> bool {
    run_highlight(r.text.flatten(), cfg, start_with_comment).open_comment
}

/// The comment-continuation state `highlight` reports.
pub open spec fn row_hl_out(
    r: RowView,
    cfg: HlConfig,
    word: Option<Seq<char>>,
    start_with_comment: bool,
) -> bool {
    if row_fast_path(r, word) {
        row_fast_out(r)
    } else {
        row_full_open(r, cfg, start_with_comment)
    }
}

/// The row after `highlight`: unchanged on the fast path; otherwise the
/// text is kept, the tags are recomputed, and the tag cache is marked
/// current.
pub open spec fn row_hl_result(
    r: RowView,
    cfg: HlConfig,
    word: Option<Seq<char>>,
    start_with_comment: bool,
) -> RowView {
    if row_fast_path(r, word) {
        r
    } else {
        RowView {
            text: r.text,
            tags: row_full_tags(r, cfg, word, start_with_comment),
            hl: true,
        }
    }
}

impl Row {
    /// Builds a row from one line of text, segmented into grapheme clusters.
    pub fn from_str(slice: &str) -> (r: Row)
        ensures
            r@.text == graphemes_of(slice@),
            r@.text.flatten() == slice@,
            forall|i: int| 0 <= i < r@.text.len() ==> (#[trigger] r@.text[i]).len() > 0,
            r@.tags.len() == 0,
            !r@.hl,
    {
        let graphemes = segment_graphemes(slice);
        Row { graphemes, highlighting: Vec::new(), is_highlighted: false }
    }

    /// An empty row.
    pub fn empty() -> (r: Row)
        ensures
            r@.text == Seq::<Seq<char>>::empty(),
            r@.tags.len() == 0,
            !r@.hl,
    {
        let r = Row { graphemes: Vec::new(), highlighting: Vec::new(), is_highlighted: false };
        proof {
            assert(r@.text =~~= Seq::<Seq<char>>::empty());
        }
        r
    }

    /// The number of grapheme clusters: the row's length in columns.
    pub fn len(&self) -> (n: usize)
        ensures
            n == self@.text.len(),
    {
        self.graphemes.len()
    }

    pub fn is_empty(&self) -> (b: bool)
        ensures
            b == (self@.text.len() == 0),
    {
        self.graphemes.len() == 0
    }

    /// Inserts `c` as a new cluster before the cluster at column `at`,
    /// or appends it when `at` is at or past the end. The tag cache is
    /// marked stale: the text changed.
    pub fn insert(&mut self, at: usize, c: char)
        ensures
            final(self)@.text == row_insert_text(old(self)@.text, at as int, c),
            final(self)@.tags == old(self)@.tags,
            !final(self)@.hl,
    {
        self.is_highlighted = false;
        let mut g: Vec<char> = Vec::new();
        g.push(c);
        proof {
            assert(g.deep_view() =~= seq![c]);
        }
        if at >= self.graphemes.len() {
            self.graphemes.push(g);
            proof {
                assert(self.graphemes.deep_view() =~~= old(self)@.text.push(seq![c]));
            }
        } else {
            self.graphemes.insert(at, g);
            proof {
                assert(self.graphemes.deep_view() =~~= old(self)@.text.insert(at as int, seq![c]));
            }
        }
    }

    /// Deletes the cluster at column `at` and marks the tag cache stale;
    /// the text is unchanged when `at` is past the end.
    pub fn delete(&mut self, at: usize)
        ensures
            final(self)@.text == row_delete_text(old(self)@.text, at as int),
            final(self)@.tags == old(self)@.tags,
            !final(self)@.hl,
    {
        self.is_highlighted = false;
        if at < self.graphemes.len() {
            self.graphemes.remove(at);
            proof {
                assert(self.graphemes.deep_view() =~~= old(self)@.text.remove(at as int));
            }
        }
    }

    /// Concatenates `new`'s text onto this row and marks the tag cache
    /// stale.
    pub fn append(&mut self, new: &Row)
        ensures
            final(self)@.text == old(self)@.text + new@.text,
            final(self)@.tags == old(self)@.tags,
            !final(self)@.hl,
    {
        self.is_highlighted = false;
        let mut i: usize = 0;
        proof {
            assert(self.graphemes.deep_view() =~= old(self)@.text + new@.text.take(0));
        }
        while i < new.graphemes.len()
            invariant
                i <= new.graphemes.len(),
                self.graphemes.deep_view() == old(self)@.text + new@.text.take(i as int),
                self.highlighting@ == old(self)@.tags,
                !self.is_highlighted,
            decreases new.graphemes.len() - i,
        {
            let ghost prev = self.graphemes.deep_view();
            let g = copy_chars(&new.graphemes[i]);
            proof {
                assert(g.deep_view() =~= new@.text[i as int]);
            }
            self.graphemes.push(g);
            proof {
                assert(self.graphemes.deep_view() =~~= prev.push(new@.text[i as int]));
                assert(prev.push(new@.text[i as int]) =~~= old(self)@.text + new@.text.take(
                    i + 1 as int,
                ));
            }
            i = i + 1;
        }
        proof {
            assert(new@.text.take(new@.text.len() as int) =~= new@.text);
        }
    }

    /// Splits off the clusters from column `at` onward into a new row,
    /// keeping the clusters before `at`. Both rows' tag caches are marked
    /// stale.
    pub fn split(&mut self, at: usize) -> (other: Row)
        ensures
            final(self)@.text == old(self)@.text.take(clamp(at as int, old(self)@.text.len() as int)),
            final(self)@.tags == old(self)@.tags,
            !final(self)@.hl,
            other@.text == old(self)@.text.skip(clamp(at as int, old(self)@.text.len() as int)),
            other@.tags.len() == 0,
            !other@.hl,
    {
        let n = self.graphemes.len();
        let a = if at <= n {
            at
        } else {
            n
        };
        let tail = self.graphemes.split_off(a);
        self.is_highlighted = false;
        proof {
            assert(self.graphemes.deep_view() =~~= old(self)@.text.take(
                clamp(at as int, old(self)@.text.len() as int),
            ));
            assert(tail.deep_view() =~~= old(self)@.text.skip(
                clamp(at as int, old(self)@.text.len() as int),
            ));
        }
        Row { graphemes: tail, highlighting: Vec::new(), is_highlighted: false }
    }

    /// Looks for the query's grapheme clusters in the row: Forward gives
    /// the first match at or after column `at`, Backward the last match
    /// that ends at or before column `at`. None when the query is empty,
    /// `at` is past the end, or nothing matches.
    pub fn find(&self, query: &str, at: usize, direction: SearchDirection) -> (r: Option<usize>)
        ensures
            ({
                let t = self@.text;
                let q = graphemes_of(query@);
                match direction {
                    SearchDirection::Forward => forward_find_ok(t, q, query@, at as int, r),
                    SearchDirection::Backward => backward_find_ok(t, q, query@, at as int, r),
                }
            }),
    {
        let n = self.graphemes.len();
        if query.is_empty() || at > n {
            return None;
        }
        let q = segment_graphemes(query);
        let ghost qv = q.deep_view();
        let ghost t = self@.text;
        let ql = q.len();
        proof {
            if qv.len() == 0 {
                assert(qv.flatten() =~= Seq::<char>::empty());
            }
        }
        match direction {
            SearchDirection::Forward => {
                let mut i = at;
                while i <= n && ql <= n - i
                    invariant
                        at <= i <= n,
                        n == t.len(),
                        t == self@.text,
                        ql == qv.len(),
                        ql >= 1,
                        ql == q@.len(),
                        qv == q.deep_view(),
                        qv == graphemes_of(query@),
                        direction == SearchDirection::Forward,
                        forall|j: int| at <= j < i ==> !cluster_match(t, qv, j),
                    decreases n - i,
                {
                    if clusters_match_at(&self.graphemes, &q, i) {
                        return Some(i);
                    }
                    proof {
                        assert(!cluster_match(t, qv, i as int));
                    }
                    i = i + 1;
                }
                proof {
                    assert forall|j: int| at <= j implies !cluster_match(t, qv, j) by {
                        if j >= i {
                            assert(j + qv.len() > t.len());
                        }
                    };
                }
                None
            },
            SearchDirection::Backward => {
                if ql > at {
                    proof {
                        assert forall|j: int| j + qv.len() <= at implies !cluster_match(
                            t,
                            qv,
                            j,
                        ) by {
                            assert(j < 0);
                        };
                    }
                    return None;
                }
                let mut i = at - ql;
                loop
                    invariant
                        i + ql <= at,
                        at <= n,
                        n == t.len(),
                        t == self@.text,
                        ql == qv.len(),
                        ql >= 1,
                        ql == q@.len(),
                        qv == q.deep_view(),
                        qv == graphemes_of(query@),
                        direction == SearchDirection::Backward,
                        forall|j: int| i < j && j + ql <= at ==> !cluster_match(t, qv, j),
                    decreases i,
                {
                    if clusters_match_at(&self.graphemes, &q, i) {
                        return Some(i);
                    }
                    proof {
                        assert(!cluster_match(t, qv, i as int));
                    }
                    if i == 0 {
                        proof {
                            assert forall|j: int| j + qv.len() <= at implies !cluster_match(
                                t,
                                qv,
                                j,
                            ) by {
                                if j < 0 {
                                } else if j == 0 {
                                } else {
                                }
                            };
                        }
                        return None;
                    }
                    i = i - 1;
                }
            },
        }
    }

    /// The column of the first cluster that is not a single space; 0 when
    /// the row is empty or has no such cluster.
    pub fn index_first_char(&self) -> (r: usize)
        ensures
            r as int == first_nonblank(self@.text, 0),
    {
        let n = self.graphemes.len();
        let mut i: usize = 0;
        while i < n
            invariant
                i <= n,
                n == self@.text.len(),
                first_nonblank(self@.text, 0) == first_nonblank(self@.text, i as int),
            decreases n - i,
        {
            let g = &self.graphemes[i];
            proof {
                assert(self@.text[i as int] =~= g@);
            }
            let is_blank = g.len() == 1 && g[0] == ' ';
            if !is_blank {
                proof {
                    assert(self@.text[i as int] != seq![' ']) by {
                        if self@.text[i as int] == seq![' '] {
                            assert(g@.len() == 1 && g@[0] == ' ');
                        }
                    };
                }
                return i;
            }
            proof {
                assert(self@.text[i as int] =~= seq![' ']);
                assert(first_nonblank(self@.text, i as int) == first_nonblank(
                    self@.text,
                    i + 1 as int,
                ));
            }
            i = i + 1;
        }
        0
    }

    /// The display window `[start, end)` in columns, clamped to the row:
    /// the characters of those clusters, paired position by position with
    /// their highlight tags. Turning tag changes into color escapes is
    /// the terminal renderer's concern.
    pub fn render(&self, start: usize, end: usize) -> (r: (Vec<char>, Vec<Type>))
        ensures
            ({
                let t = self@.text;
                let e = clamp(end as int, t.len() as int);
                let s = clamp(start as int, e);
                &&& r.0@ == t.subrange(s, e).flatten()
                &&& r.1@.len() == r.0@.len()
                &&& forall|k: int|
                    0 <= k < r.0@.len() ==> r.1@[k] == tag_or_plain(
                        self@.tags,
                        char_offset(t, s) + k,
                    )
            }),
    {
        let ghost t = self@.text;
        let n = self.graphemes.len();
        let e = if end <= n {
            end
        } else {
            n
        };
        let s = if start <= e {
            start
        } else {
            e
        };
        let total_vec = self.text_chars();
        let total = total_vec.len();
        let mut out_chars: Vec<char> = Vec::new();
        let mut out_tags: Vec<Type> = Vec::new();
        let mut coff: usize = 0;
        let mut g: usize = 0;
        proof {
            lemma_char_offset_zero(t);
        }
        while g < s
            invariant
                g <= s,
                s <= e <= n,
                n == t.len(),
                t == self@.text,
                coff == char_offset(t, g as int),
                total == t.flatten().len(),
                coff <= total,
            decreases s - g,
        {
            let cl = self.graphemes[g].len();
            proof {
                assert(t[g as int].len() == cl);
                lemma_char_offset_step(t, g as int);
                lemma_char_offset_le_total(t, g + 1 as int);
            }
            coff = coff + cl;
            g = g + 1;
        }
        proof {
            assert(t.subrange(s as int, s as int) =~= Seq::<Seq<char>>::empty());
            assert(Seq::<Seq<char>>::empty().flatten() =~= Seq::<char>::empty());
        }
        while g < e
            invariant
                s <= g <= e,
                e <= n,
                n == t.len(),
                t == self@.text,
                coff == char_offset(t, g as int),
                total == t.flatten().len(),
                coff <= total,
                char_offset(t, s as int) + out_chars@.len() == coff,
                out_chars@ == t.subrange(s as int, g as int).flatten(),
                out_tags@.len() == out_chars@.len(),
                forall|k: int|
                    0 <= k < out_chars@.len() ==> out_tags@[k] == tag_or_plain(
                        self@.tags,
                        char_offset(t, s as int) + k,
                    ),
            decreases e - g,
        {
            let cluster = &self.graphemes[g];
            let cl = cluster.len();
            proof {
                assert(t[g as int] =~= cluster@);
                lemma_char_offset_step(t, g as int);
                lemma_char_offset_le_total(t, g + 1 as int);
            }
            let mut u: usize = 0;
            while u < cl
                invariant
                    u <= cl,
                    s <= g < e,
                    e <= n,
                    n == t.len(),
                    t == self@.text,
                    cl == t[g as int].len(),
                    cluster@ == t[g as int],
                    coff == char_offset(t, g as int),
                    coff + cl <= total,
                    total == t.flatten().len(),
                    char_offset(t, s as int) + out_chars@.len() == coff + u,
                    out_chars@ == t.subrange(s as int, g as int).flatten() + cluster@.take(
                        u as int,
                    ),
                    out_tags@.len() == out_chars@.len(),
                    forall|k: int|
                        0 <= k < out_chars@.len() ==> out_tags@[k] == tag_or_plain(
                            self@.tags,
                            char_offset(t, s as int) + k,
                        ),
                decreases cl - u,
            {
                out_chars.push(cluster[u]);
                let p = coff + u;
                let tg = if p < self.highlighting.len() {
                    self.highlighting[p]
                } else {
                    Type::Plain
                };
                out_tags.push(tg);
                proof {
                    assert(cluster@.take(u + 1 as int) =~= cluster@.take(u as int).push(
                        cluster@[u as int],
                    ));
                    assert(out_chars@ =~= t.subrange(s as int, g as int).flatten() + cluster@.take(
                        u + 1 as int,
                    ));
                }
                u = u + 1;
            }
            proof {
                assert(cluster@.take(cl as int) =~= cluster@);
                assert(t.subrange(s as int, g + 1 as int) =~= t.subrange(s as int, g as int).push(
                    t[g as int],
                ));
                t.subrange(s as int, g as int).lemma_flatten_push(t[g as int]);
                assert(out_chars@ =~= t.subrange(s as int, g + 1 as int).flatten());
            }
            coff = coff + cl;
            g = g + 1;
        }
        (out_chars, out_tags)
    }

    /// The row's characters: the flattened grapheme clusters.
    pub fn text_chars(&self) -> (r: Vec<char>)
        ensures
            r@ == self@.text.flatten(),
    {
        flatten_clusters(&self.graphemes)
    }

    /// Marks the cached tags stale, so that the next highlight pass
    /// recomputes them.
    pub fn mark_unhighlighted(&mut self)
        ensures
            final(self)@.text == old(self)@.text,
            final(self)@.tags == old(self)@.tags,
            !final(self)@.hl,
    {
        self.is_highlighted = false;
    }

    /// Appends `count` copies of `t` to the tag vector.
    fn push_repeat(&mut self, count: usize, t: Type)
        ensures
            final(self)@.tags == old(self)@.tags + repeat_tag(t, count as int),
            final(self)@.text == old(self)@.text,
            final(self)@.hl == old(self)@.hl,
    {
        let mut k: usize = 0;
        proof {
            assert(self.highlighting@ =~= old(self)@.tags + repeat_tag(t, 0));
        }
        while k < count
            invariant
                k <= count,
                self.highlighting@ == old(self)@.tags + repeat_tag(t, k as int),
                self.graphemes == old(self).graphemes,
                self.is_highlighted == old(self).is_highlighted,
            decreases count - k,
        {
            self.highlighting.push(t);
            proof {
                assert(old(self)@.tags + repeat_tag(t, k + 1 as int) =~= (old(self)@.tags
                    + repeat_tag(t, k as int)).push(t));
            }
            k = k + 1;
        }
    }

    /// Replaces the tags at positions `[from, from + count)` (clamped to
    /// the tag vector's length) by `Match`.
    fn set_match_range(&mut self, from: usize, count: usize)
        requires
            from + count <= usize::MAX,
        ensures
            final(self)@.tags == set_range(
                old(self)@.tags,
                from as int,
                from as int + count,
                Type::Match,
            ),
            final(self)@.text == old(self)@.text,
            final(self)@.hl == old(self)@.hl,
    {
        let mut u: usize = 0;
        proof {
            assert(self.highlighting@ =~= set_range(
                old(self)@.tags,
                from as int,
                from as int,
                Type::Match,
            ));
        }
        while u < count
            invariant
                u <= count,
                from + count <= usize::MAX,
                self.highlighting@ == set_range(
                    old(self)@.tags,
                    from as int,
                    from + u as int,
                    Type::Match,
                ),
                self.graphemes == old(self).graphemes,
                self.is_highlighted == old(self).is_highlighted,
            decreases count - u,
        {
            if from + u < self.highlighting.len() {
                self.highlighting.set(from + u, Type::Match);
            }
            proof {
                assert(self.highlighting@ =~= set_range(
                    old(self)@.tags,
                    from as int,
                    from + u + 1 as int,
                    Type::Match,
                ));
            }
            u = u + 1;
        }
    }

    /// Consumes a "/*" block comment: everything through the next "*/",
    /// or the rest of the row when no closer follows, in which case
    /// `still_open` is set.
    fn highlight_multiline_comment(
        &mut self,
        index: &mut usize,
        still_open: &mut bool,
        opts: &HighlightingOptions,
        c: char,
        chars: &Vec<char>,
    ) -> (consumed: bool)
        requires
            *old(index) < chars@.len(),
            c == chars@[*old(index) as int],
        ensures
            consumed == ml_open_at(chars@, opts@, *old(index) as int),
            final(self)@.text == old(self)@.text,
            final(self)@.hl == old(self)@.hl,
            consumed ==> *final(index) == token_end(chars@, opts@, *old(index) as int)
                && final(self)@.tags == old(self)@.tags + repeat_tag(
                Type::MultilineComment,
                token_end(chars@, opts@, *old(index) as int) - *old(index),
            ) && *final(still_open) == (find_closer(chars@, *old(index) + 2) is None),
            !consumed ==> *final(index) == *old(index) && final(self)@.tags == old(self)@.tags
                && *final(still_open) == *old(still_open),
    {
        if opts.multiline_comments && c == '/' && chars.len() - *index >= 2 {
            if chars[*index + 1] == '*' {
                let i0 = *index;
                let closing: usize;
                match find_star_slash(chars, i0 + 2) {
                    Some(cpos) => {
                        proof {
                            lemma_find_closer(chars@, i0 + 2 as int);
                        }
                        closing = cpos + 2;
                        *still_open = false;
                    },
                    None => {
                        closing = chars.len();
                        *still_open = true;
                    },
                }
                self.push_repeat(closing - i0, Type::MultilineComment);
                *index = closing;
                return true;
            }
        }
        false
    }

    /// Consumes a character literal of the exact shape 'x' or '\x',
    /// quotes included.
    fn highlight_char(
        &mut self,
        index: &mut usize,
        opts: &HighlightingOptions,
        c: char,
        chars: &Vec<char>,
    ) -> (consumed: bool)
        requires
            *old(index) < chars@.len(),
            c == chars@[*old(index) as int],
        ensures
            consumed == char_lit_at(chars@, opts@, *old(index) as int),
            final(self)@.text == old(self)@.text,
            final(self)@.hl == old(self)@.hl,
            consumed ==> *final(index) == char_lit_close(chars@, *old(index) as int) + 1
                && final(self)@.tags == old(self)@.tags + repeat_tag(
                Type::Character,
                char_lit_close(chars@, *old(index) as int) + 1 - *old(index),
            ),
            !consumed ==> *final(index) == *old(index) && final(self)@.tags == old(self)@.tags,
    {
        if opts.characters && c == '\'' {
            let i0 = *index;
            if chars.len() - i0 >= 2 {
                let off: usize = if chars[i0 + 1] == '\\' {
                    3
                } else {
                    2
                };
                if chars.len() - i0 > off {
                    if chars[i0 + off] == '\'' {
                        self.push_repeat(off + 1, Type::Character);
                        *index = i0 + off + 1;
                        return true;
                    }
                }
            }
        }
        false
    }

    /// Consumes a "//" line comment: the rest of the row.
    fn highlight_comment(
        &mut self,
        index: &mut usize,
        opts: &HighlightingOptions,
        c: char,
        chars: &Vec<char>,
    ) -> (consumed: bool)
        requires
            *old(index) < chars@.len(),
            c == chars@[*old(index) as int],
        ensures
            consumed == line_comment_at(chars@, opts@, *old(index) as int),
            final(self)@.text == old(self)@.text,
            final(self)@.hl == old(self)@.hl,
            consumed ==> *final(index) == chars@.len() && final(self)@.tags == old(self)@.tags
                + repeat_tag(Type::Comment, chars@.len() - *old(index)),
            !consumed ==> *final(index) == *old(index) && final(self)@.tags == old(self)@.tags,
    {
        if opts.comments && c == '/' && chars.len() - *index >= 2 {
            if chars[*index + 1] == '/' {
                let i0 = *index;
                self.push_repeat(chars.len() - i0, Type::Comment);
                *index = chars.len();
                return true;
            }
        }
        false
    }

    /// Consumes a string literal: from the opening quote through the next
    /// '"', or the rest of the row when none follows.
    fn highlight_string(
        &mut self,
        index: &mut usize,
        opts: &HighlightingOptions,
        c: char,
        chars: &Vec<char>,
    ) -> (consumed: bool)
        requires
            *old(index) < chars@.len(),
            c == chars@[*old(index) as int],
        ensures
            consumed == string_at(chars@, opts@, *old(index) as int),
            final(self)@.text == old(self)@.text,
            final(self)@.hl == old(self)@.hl,
            consumed ==> ({
                let e = match find_quote(chars@, *old(index) + 1) {
                    Some(q) => q + 1,
                    None => chars@.len() as int,
                };
                *final(index) == e && final(self)@.tags == old(self)@.tags + repeat_tag(
                    Type::Str,
                    e - *old(index),
                )
            }),
            !consumed ==> *final(index) == *old(index) && final(self)@.tags == old(self)@.tags,
    {
        if opts.strings && c == '"' {
            let i0 = *index;
            let n = chars.len();
            let e: usize = match find_quote_pos(chars, i0 + 1) {
                Some(q) => {
                    proof {
                        lemma_find_quote(chars@, i0 + 1 as int);
                    }
                    q + 1
                },
                None => n,
            };
            self.push_repeat(e - i0, Type::Str);
            *index = e;
            return true;
        }
        false
    }

    /// Consumes a number run: a digit preceded by a separator or the row
    /// start, together with the following digits and '.' characters.
    fn highlight_numbers(
        &mut self,
        index: &mut usize,
        opts: &HighlightingOptions,
        c: char,
        chars: &Vec<char>,
    ) -> (consumed: bool)
        requires
            *old(index) < chars@.len(),
            c == chars@[*old(index) as int],
        ensures
            consumed == number_at(chars@, opts@, *old(index) as int),
            final(self)@.text == old(self)@.text,
            final(self)@.hl == old(self)@.hl,
            consumed ==> *final(index) == num_end(chars@, *old(index) + 1) && final(self)@.tags
                == old(self)@.tags + repeat_tag(
                Type::Number,
                num_end(chars@, *old(index) + 1) - *old(index),
            ),
            !consumed ==> *final(index) == *old(index) && final(self)@.tags == old(self)@.tags,
    {
        if opts.numbers && is_digit(c) {
            let i0 = *index;
            if i0 > 0 {
                if !is_sep(chars[i0 - 1]) {
                    return false;
                }
            }
            let n = chars.len();
            let mut j = i0 + 1;
            while j < n && is_num_cont(chars[j])
                invariant
                    i0 + 1 <= j <= n,
                    n == chars@.len(),
                    num_end(chars@, i0 + 1 as int) == num_end(chars@, j as int),
                decreases n - j,
            {
                proof {
                    assert(num_end(chars@, j as int) == num_end(chars@, j + 1 as int));
                }
                j = j + 1;
            }
            proof {
                assert(num_end(chars@, j as int) == j);
                lemma_num_end(chars@, i0 + 1 as int);
            }
            self.push_repeat(j - i0, Type::Number);
            *index = j;
            return true;
        }
        false
    }

    /// Consumes `substring` if it stands literally at the cursor.
    fn highlight_str(
        &mut self,
        index: &mut usize,
        substring: &str,
        chars: &Vec<char>,
        hl_type: Type,
    ) -> (consumed: bool)
        requires
            *old(index) <= chars@.len(),
        ensures
            consumed == (substring@.len() > 0 && *old(index) + substring@.len() <= chars@.len()
                && chars@.subrange(*old(index) as int, *old(index) + substring@.len())
                == substring@),
            final(self)@.text == old(self)@.text,
            final(self)@.hl == old(self)@.hl,
            consumed ==> *final(index) == *old(index) + substring@.len() && final(self)@.tags
                == old(self)@.tags + repeat_tag(hl_type, substring@.len() as int),
            !consumed ==> *final(index) == *old(index) && final(self)@.tags == old(self)@.tags,
    {
        let w = chars_of(substring);
        let wl = w.len();
        let n = chars.len();
        let i0 = *index;
        if wl == 0 {
            return false;
        }
        if n - i0 < wl {
            return false;
        }
        let mut j: usize = 0;
        while j < wl
            invariant
                j <= wl,
                wl == substring@.len(),
                w@ == substring@,
                i0 + wl <= n,
                n == chars@.len(),
                i0 == *index,
                *index == *old(index),
                self@.tags == old(self)@.tags,
                self@.text == old(self)@.text,
                self@.hl == old(self)@.hl,
                chars@.subrange(i0 as int, i0 + j as int) == substring@.take(j as int),
            decreases wl - j,
        {
            if chars[i0 + j] != w[j] {
                proof {
                    assert(chars@.subrange(i0 as int, i0 + wl as int)[j as int] == chars@[i0 + j]);
                    assert(chars@.subrange(i0 as int, i0 + wl as int) != substring@);
                }
                return false;
            }
            proof {
                assert(chars@.subrange(i0 as int, i0 + j + 1 as int) =~= chars@.subrange(
                    i0 as int,
                    i0 + j as int,
                ).push(chars@[i0 + j]));
                assert(substring@.take(j + 1 as int) =~= substring@.take(j as int).push(
                    substring@[j as int],
                ));
            }
            j = j + 1;
        }
        proof {
            assert(substring@.take(wl as int) =~= substring@);
        }
        self.push_repeat(wl, hl_type);
        *index = i0 + wl;
        true
    }

    /// Tries each word of `keywords` in order at the cursor; a word
    /// matches only when bounded by separators (or the row's ends).
    fn highlight_keywords(
        &mut self,
        index: &mut usize,
        chars: &Vec<char>,
        keywords: &Vec<String>,
        hl_type: Type,
    ) -> (consumed: bool)
        requires
            *old(index) < chars@.len(),
        ensures
            consumed == keyword_at(chars@, keywords.deep_view(), *old(index) as int),
            final(self)@.text == old(self)@.text,
            final(self)@.hl == old(self)@.hl,
            consumed ==> ({
                let w = first_kw(keywords.deep_view(), chars@, *old(index) as int).unwrap();
                *final(index) == *old(index) + w.len() && final(self)@.tags == old(self)@.tags
                    + repeat_tag(hl_type, w.len() as int)
            }),
            !consumed ==> *final(index) == *old(index) && final(self)@.tags == old(self)@.tags,
    {
        let i0 = *index;
        let n = chars.len();
        if i0 > 0 {
            if !is_sep(chars[i0 - 1]) {
                return false;
            }
        }
        let ghost kws = keywords.deep_view();
        let mut k: usize = 0;
        proof {
            assert(kws.skip(0) =~= kws);
        }
        while k < keywords.len()
            invariant
                k <= keywords.len(),
                kws == keywords.deep_view(),
                i0 == *index,
                *index == *old(index),
                i0 < n,
                n == chars@.len(),
                prev_is_boundary(chars@, i0 as int),
                first_kw(kws, chars@, i0 as int) == first_kw(kws.skip(k as int), chars@, i0 as int),
                self@.tags == old(self)@.tags,
                self@.text == old(self)@.text,
                self@.hl == old(self)@.hl,
            decreases keywords.len() - k,
        {
            let word = &keywords[k];
            proof {
                assert(kws[k as int] == word@);
            }
            let wl = word.as_str().unicode_len();
            if wl <= n - i0 {
                let after_ok = i0 + wl == n || is_sep(chars[i0 + wl]);
                if after_ok {
                    if self.highlight_str(index, word.as_str(), chars, hl_type) {
                        proof {
                            assert(kw_match_at(chars@, kws[k as int], i0 as int));
                            assert(first_kw(kws.skip(k as int), chars@, i0 as int) == Some(
                                kws[k as int],
                            ));
                        }
                        return true;
                    }
                }
            }
            proof {
                assert(!kw_match_at(chars@, kws[k as int], i0 as int));
                assert(kws.skip(k as int).drop_first() =~~= kws.skip(k + 1 as int));
                assert(first_kw(kws.skip(k as int), chars@, i0 as int) == first_kw(
                    kws.skip(k + 1 as int),
                    chars@,
                    i0 as int,
                ));
            }
            k = k + 1;
        }
        proof {
            assert(kws.skip(keywords.len() as int).len() == 0);
        }
        false
    }

    /// Tries the configuration's primary keywords at the cursor.
    fn highlight_primary_keywords(
        &mut self,
        index: &mut usize,
        opts: &HighlightingOptions,
        chars: &Vec<char>,
    ) -> (consumed: bool)
        requires
            *old(index) < chars@.len(),
        ensures
            consumed == keyword_at(chars@, opts@.primary_keywords, *old(index) as int),
            final(self)@.text == old(self)@.text,
            final(self)@.hl == old(self)@.hl,
            consumed ==> ({
                let w = first_kw(opts@.primary_keywords, chars@, *old(index) as int).unwrap();
                *final(index) == *old(index) + w.len() && final(self)@.tags == old(self)@.tags
                    + repeat_tag(Type::PrimaryKeywords, w.len() as int)
            }),
            !consumed ==> *final(index) == *old(index) && final(self)@.tags == old(self)@.tags,
    {
        self.highlight_keywords(index, chars, &opts.primary_keywords, Type::PrimaryKeywords)
    }

    /// Overlays `Match` on every non-overlapping occurrence of the search
    /// word's clusters, walking the row left to right.
    fn highlight_match(&mut self, word: &Option<String>)
        ensures
            final(self)@.text == old(self)@.text,
            final(self)@.hl == old(self)@.hl,
            final(self)@.tags == (match word.deep_view() {
                Some(w) => overlay_matches(old(self)@.tags, old(self)@.text, graphemes_of(w), 0),
                None => old(self)@.tags,
            }),
    {
        let w: &String = match word {
            Some(w) => w,
            None => {
                return ;
            },
        };
        let q = segment_graphemes(w.as_str());
        let ghost qv = q.deep_view();
        let ghost text = self@.text;
        let ghost tags0 = self@.tags;
        let ql = q.len();
        if ql == 0 {
            proof {
                assert(overlay_matches(tags0, text, qv, 0) == tags0);
            }
            return ;
        }
        let total_vec = self.text_chars();
        let total = total_vec.len();
        let n = self.graphemes.len();
        let mut g: usize = 0;
        let mut coff: usize = 0;
        proof {
            lemma_char_offset_zero(text);
        }
        while n - g >= ql
            invariant
                g <= n,
                n == self.graphemes@.len(),
                ql == qv.len(),
                ql >= 1,
                ql == q@.len(),
                qv == q.deep_view(),
                self@.text == text,
                text == old(self)@.text,
                self@.hl == old(self)@.hl,
                tags0 == old(self)@.tags,
                coff == char_offset(text, g as int),
                total == text.flatten().len(),
                overlay_matches(self@.tags, text, qv, g as int) == overlay_matches(
                    tags0,
                    text,
                    qv,
                    0,
                ),
            decreases n - g,
        {
            if clusters_match_at(&self.graphemes, &q, g) {
                let ghost tags_in = self@.tags;
                let mut j: usize = 0;
                let mut p: usize = coff;
                proof {
                    lemma_char_offset_le_total(text, g as int);
                    assert(self@.tags =~= set_range(
                        tags_in,
                        coff as int,
                        coff as int,
                        Type::Match,
                    ));
                }
                while j < ql
                    invariant
                        j <= ql,
                        ql == qv.len(),
                        g + ql <= n,
                        n == self.graphemes@.len(),
                        self@.text == text,
                        self@.hl == old(self)@.hl,
                        p == char_offset(text, g + j as int),
                        total == text.flatten().len(),
                        coff <= p <= total,
                        coff == char_offset(text, g as int),
                        self@.tags == set_range(tags_in, coff as int, p as int, Type::Match),
                    decreases ql - j,
                {
                    let cl = self.graphemes[g + j].len();
                    proof {
                        assert(text[g + j as int].len() == cl);
                        lemma_char_offset_step(text, g + j as int);
                        lemma_char_offset_le_total(text, g + j + 1 as int);
                    }
                    self.set_match_range(p, cl);
                    proof {
                        assert(self@.tags =~= set_range(
                            tags_in,
                            coff as int,
                            p + cl as int,
                            Type::Match,
                        ));
                    }
                    p = p + cl;
                    j = j + 1;
                }
                proof {
                    assert(cluster_match(text, qv, g as int));
                    assert(overlay_matches(tags_in, text, qv, g as int) == overlay_matches(
                        self@.tags,
                        text,
                        qv,
                        g + ql as int,
                    ));
                }
                g = g + ql;
                coff = p;
            } else {
                let cl = self.graphemes[g].len();
                proof {
                    assert(text[g as int].len() == cl);
                    lemma_char_offset_step(text, g as int);
                    lemma_char_offset_le_total(text, g + 1 as int);
                    assert(!cluster_match(text, qv, g as int));
                    assert(overlay_matches(self@.tags, text, qv, g as int) == overlay_matches(
                        self@.tags,
                        text,
                        qv,
                        g + 1 as int,
                    ));
                }
                coff = coff + cl;
                g = g + 1;
            }
        }
        proof {
            assert(overlay_matches(self@.tags, text, qv, g as int) == self@.tags);
        }
    }

    /// Computes the row's highlight tags: one classifier pass over the
    /// characters, then the search-word overlay. `start_with_comment` says
    /// the row begins inside an open block comment; the result reports
    /// whether the row ends inside one. When the cached tags are current
    /// and no search word is given, the pass is skipped and the
    /// continuation state is read off the cached tags. A pass with a
    /// search word caches the Match-overlaid tags, so a later word-less
    /// pass reuses them until the cache is marked stale.
    pub fn highlight(
        &mut self,
        opts: &HighlightingOptions,
        word: &Option<String>,
        start_with_comment: bool,
    ) -> (still_open: bool)
        ensures
            final(self)@ == row_hl_result(old(self)@, opts@, word.deep_view(), start_with_comment),
            still_open == row_hl_out(old(self)@, opts@, word.deep_view(), start_with_comment),
    {
        if self.is_highlighted && word.is_none() {
            let tn = self.highlighting.len();
            if tn == 0 {
                return false;
            }
            let last = self.highlighting[tn - 1];
            if !(last == Type::MultilineComment) {
                return false;
            }
            let cs = self.text_chars();
            let m = cs.len();
            if m >= 2 && cs[m - 2] == '*' && cs[m - 1] == '/' {
                return false;
            }
            return true;
        }
        let chars = self.text_chars();
        let ghost cs = chars@;
        let ghost cfg = opts@;
        let ghost full = run_highlight(cs, cfg, start_with_comment);
        let n = chars.len();
        self.highlighting = Vec::new();
        let mut index: usize = 0;
        let mut open_acc = false;
        if start_with_comment {
            match find_star_slash(&chars, 0) {
                Some(cpos) => {
                    proof {
                        lemma_find_closer(cs, 0);
                    }
                    self.push_repeat(cpos + 2, Type::MultilineComment);
                    index = cpos + 2;
                },
                None => {
                    self.push_repeat(n, Type::MultilineComment);
                    index = n;
                    open_acc = true;
                },
            }
        }
        proof {
            assert(self.highlighting@ + scan(cs, cfg, index as int).tags =~= full.tags);
        }
        while index < n
            invariant
                index <= n,
                n == cs.len(),
                chars@ == cs,
                cfg == opts@,
                full == run_highlight(cs, cfg, start_with_comment),
                self.highlighting@ + scan(cs, cfg, index as int).tags == full.tags,
                full.open_comment == (open_acc || scan(cs, cfg, index as int).open_comment),
                open_acc ==> index == n,
                self@.text == old(self)@.text,
                self@.hl == old(self)@.hl,
                cs == old(self)@.text.flatten(),
            decreases n - index,
        {
            let c = chars[index];
            let ghost i0 = index as int;
            let ghost pre_tags = self.highlighting@;
            let mut ml_still_open = false;
            if self.highlight_multiline_comment(&mut index, &mut ml_still_open, opts, c, &chars) {
                if ml_still_open {
                    open_acc = true;
                }
            } else if self.highlight_char(&mut index, opts, c, &chars) {
            } else if self.highlight_comment(&mut index, opts, c, &chars) {
            } else if self.highlight_primary_keywords(&mut index, opts, &chars) {
            } else if self.highlight_secondary_keywords(&mut index, opts, &chars) {
            } else if self.highlight_string(&mut index, opts, c, &chars) {
            } else if self.highlight_numbers(&mut index, opts, c, &chars) {
            } else {
                self.highlighting.push(Type::Plain);
                proof {
                    assert(self.highlighting@ =~= pre_tags + repeat_tag(Type::Plain, 1));
                }
                index = index + 1;
            }
            proof {
                lemma_token_end_bounds(cs, cfg, i0);
                assert(index == token_end(cs, cfg, i0));
                assert(self.highlighting@ =~= pre_tags + repeat_tag(
                    token_tag(cs, cfg, i0),
                    token_end(cs, cfg, i0) - i0,
                ));
                assert(self.highlighting@ + scan(cs, cfg, index as int).tags =~= full.tags);
            }
        }
        proof {
            assert(scan(cs, cfg, index as int).tags =~= Seq::<Type>::empty());
            assert(self.highlighting@ =~= full.tags);
        }
        self.highlight_match(word);
        self.is_highlighted = true;
        open_acc
    }

    /// Tries the configuration's secondary keywords at the cursor.
    fn highlight_secondary_keywords(
        &mut self,
        index: &mut usize,
        opts: &HighlightingOptions,
        chars: &Vec<char>,
    ) -> (consumed: bool)
        requires
            *old(index) < chars@.len(),
        ensures
            consumed == keyword_at(chars@, opts@.secondary_keywords, *old(index) as int),
            final(self)@.text == old(self)@.text,
            final(self)@.hl == old(self)@.hl,
            consumed ==> ({
                let w = first_kw(opts@.secondary_keywords, chars@, *old(index) as int).unwrap();
                *final(index) == *old(index) + w.len() && final(self)@.tags == old(self)@.tags
                    + repeat_tag(Type::SecondaryKeywords, w.len() as int)
            }),
            !consumed ==> *final(index) == *old(index) && final(self)@.tags == old(self)@.tags,
    {
        self.highlight_keywords(index, chars, &opts.secondary_keywords, Type::SecondaryKeywords)
    }
}

/// Inserting a character at any column up to the length and then deleting
/// at the same column gives back the original text.
pub proof fn lemma_insert_delete_identity(t: Seq<Seq<char>>, i: int, c: char)
    requires
        0 <= i <= t.len(),
    ensures
        row_delete_text(row_insert_text(t, i, c), i) == t,
{
    if i >= t.len() {
        assert(t.push(seq![c]).remove(i) =~= t);
    } else {
        assert(t.insert(i, seq![c]).remove(i) =~= t);
    }
}

/// Splitting a row at any column and appending the two parts gives back
/// the original text.
pub proof fn lemma_split_append_identity(t: Seq<Seq<char>>, i: int)
    requires
        0 <= i,
    ensures
        t.take(clamp(i, t.len() as int)) + t.skip(clamp(i, t.len() as int)) == t,
{
    assert(t.take(clamp(i, t.len() as int)) + t.skip(clamp(i, t.len() as int)) =~= t);
}

/// Forward and backward search agree on a row that holds exactly one
/// occurrence of the query: any result of a forward search from column 0
/// and any result of a backward search from the row's length is that
/// occurrence's column.
pub proof fn lemma_find_consistent(
    t: Seq<Seq<char>>,
    q: Seq<Seq<char>>,
    qchars: Seq<char>,
    m: int,
    rf: Option<usize>,
    rb: Option<usize>,
)
    requires
        qchars.len() > 0,
        cluster_match(t, q, m),
        forall|j: int| j != m ==> !cluster_match(t, q, j),
        forward_find_ok(t, q, qchars, 0, rf),
        backward_find_ok(t, q, qchars, t.len() as int, rb),
    ensures
        rf == Some(m as usize),
        rb == Some(m as usize),
{
    match rf {
        Some(i) => {
            if i as int != m {
                assert(!cluster_match(t, q, i as int));
            }
        },
        None => {
            assert(cluster_match(t, q, m));
        },
    }
    match rb {
        Some(i) => {
            if i as int != m {
                assert(!cluster_match(t, q, i as int));
            }
        },
        None => {
            assert(m + q.len() <= t.len());
        },
    }
}

/// Highlighting is idempotent: running the pass a second time on the
/// unmodified row with the same configuration, search word and
/// continuation input yields the same tag sequence and reports the same
/// continuation state. The one proviso concerns a word-less full pass
/// that ends inside an open comment on a row that is empty or whose last
/// two characters happen to be "*/" (an opener overlapping the row end,
/// as in "/*/"): there the cached-tag fast path of the second run reads
/// the row as closed, so such rows are left out.
pub proof fn lemma_highlight_idempotent(
    r: RowView,
    cfg: HlConfig,
    word: Option<Seq<char>>,
    start_with_comment: bool,
)
    requires
        word is None && !row_fast_path(r, word) && row_full_open(r, cfg, start_with_comment)
            ==> r.text.flatten().len() > 0 && !ends_with_closer(r.text.flatten()),
    ensures
        row_hl_result(
            row_hl_result(r, cfg, word, start_with_comment),
            cfg,
            word,
            start_with_comment,
        ).tags == row_hl_result(r, cfg, word, start_with_comment).tags,
        row_hl_out(row_hl_result(r, cfg, word, start_with_comment), cfg, word, start_with_comment)
            == row_hl_out(r, cfg, word, start_with_comment),
{
    let r1 = row_hl_result(r, cfg, word, start_with_comment);
    if !row_fast_path(r, word) && word is None {
        let cs = r.text.flatten();
        let sc = run_highlight(cs, cfg, start_with_comment);
        assert(r1.hl);
        assert(r1.tags == sc.tags);
        lemma_run_highlight_len(cs, cfg, start_with_comment);
        if sc.open_comment {
            lemma_run_open_last_mlc(cs, cfg, start_with_comment);
            assert(row_fast_out(r1));
        } else {
            if r1.tags.len() > 0 && r1.tags.last() == Type::MultilineComment {
                lemma_run_last_mlc(cs, cfg, start_with_comment);
            }
            assert(!row_fast_out(r1));
        }
    }
}

impl Default for Row {
    /// An empty row.
    fn default() -> (r: Self)
        ensures
            r@.text == Seq::<Seq<char>>::empty(),
            r@.tags.len() == 0,
            !r@.hl,
    {
        Row::empty()
    }
}

/// Copies a cluster's characters into a fresh vector.
fn copy_chars(g: &Vec<char>) -> (r: Vec<char>)
    ensures
        r@ == g@,
{
    let mut r: Vec<char> = Vec::new();
    let mut i: usize = 0;
    while i < g.len()
        invariant
            i <= g.len(),
            r@ == g@.take(i as int),
        decreases g.len() - i,
    {
        r.push(g[i]);
        proof {
            assert(g@.take(i + 1 as int) =~= g@.take(i as int).push(g@[i as int]));
        }
        i = i + 1;
    }
    proof {
        assert(g@.take(g@.len() as int) =~= g@);
    }
    r
}

/// First position at or after `from` where "*/" stands in `chars`.
fn find_star_slash(chars: &Vec<char>, from: usize) -> (r: Option<usize>)
    requires
        from <= chars@.len(),
    ensures
        ({
            let fc = find_closer(chars@, from as int);
            match r {
                Some(u) => fc == Some(u as int),
                None => fc is None,
            }
        }),
{
    let n = chars.len();
    let mut j = from;
    while n - j >= 2
        invariant
            from <= j <= n,
            n == chars@.len(),
            find_closer(chars@, from as int) == find_closer(chars@, j as int),
        decreases n - j,
    {
        if chars[j] == '*' && chars[j + 1] == '/' {
            return Some(j);
        }
        proof {
            assert(find_closer(chars@, j as int) == find_closer(chars@, j + 1 as int));
        }
        j = j + 1;
    }
    None
}

/// First position at or after `from` holding '"' in `chars`.
fn find_quote_pos(chars: &Vec<char>, from: usize) -> (r: Option<usize>)
    requires
        from <= chars@.len(),
    ensures
        ({
            let fq = find_quote(chars@, from as int);
            match r {
                Some(u) => fq == Some(u as int),
                None => fq is None,
            }
        }),
{
    let n = chars.len();
    let mut j = from;
    while j < n
        invariant
            from <= j <= n,
            n == chars@.len(),
            find_quote(chars@, from as int) == find_quote(chars@, j as int),
        decreases n - j,
    {
        if chars[j] == '"' {
            return Some(j);
        }
        proof {
            assert(find_quote(chars@, j as int) == find_quote(chars@, j + 1 as int));
        }
        j = j + 1;
    }
    None
}

/// Character-wise equality of two clusters.
fn chars_eq(a: &Vec<char>, b: &Vec<char>) -> (r: bool)
    ensures
        r == (a@ == b@),
{
    if a.len() != b.len() {
        return false;
    }
    let mut j: usize = 0;
    while j < a.len()
        invariant
            j <= a.len(),
            a@.len() == b@.len(),
            forall|k: int| 0 <= k < j ==> a@[k] == b@[k],
        decreases a.len() - j,
    {
        if a[j] != b[j] {
            return false;
        }
        j = j + 1;
    }
    proof {
        assert(a@ =~= b@);
    }
    true
}

/// Whether the clusters of `q` stand at cluster position `g` of `gs`.
fn clusters_match_at(gs: &Vec<Vec<char>>, q: &Vec<Vec<char>>, g: usize) -> (r: bool)
    requires
        q@.len() > 0,
        g + q@.len() <= gs@.len(),
    ensures
        r == cluster_match(gs.deep_view(), q.deep_view(), g as int),
{
    let ql = q.len();
    let n = gs.len();
    let mut j: usize = 0;
    while j < ql
        invariant
            j <= ql,
            ql == q@.len(),
            n == gs@.len(),
            g + ql <= n,
            forall|k: int| 0 <= k < j ==> gs.deep_view()[g + k] == q.deep_view()[k],
        decreases ql - j,
    {
        proof {
            assert(gs.deep_view()[g + j] =~= gs@[g + j as int]@);
            assert(q.deep_view()[j as int] =~= q@[j as int]@);
        }
        if !chars_eq(&gs[g + j], &q[j]) {
            proof {
                assert(gs.deep_view()[g + j] != q.deep_view()[j as int]);
                assert(gs.deep_view().subrange(g as int, g + q.deep_view().len())[j as int]
                    == gs.deep_view()[g + j]);
            }
            return false;
        }
        j = j + 1;
    }
    proof {
        assert(gs.deep_view().subrange(g as int, g + q.deep_view().len()) =~= q.deep_view());
    }
    true
}

/// Concatenates a sequence of clusters into one character vector.
fn flatten_clusters(gs: &Vec<Vec<char>>) -> (r: Vec<char>)
    ensures
        r@ == gs.deep_view().flatten(),
{
    let mut r: Vec<char> = Vec::new();
    let mut i: usize = 0;
    while i < gs.len()
        invariant
            i <= gs.len(),
            r@ == gs.deep_view().take(i as int).flatten(),
        decreases gs.len() - i,
    {
        let mut j: usize = 0;
        let g = &gs[i];
        proof {
            assert(r@ =~= gs.deep_view().take(i as int).flatten() + g@.take(0));
        }
        while j < g.len()
            invariant
                j <= g.len(),
                i < gs.len(),
                g@ =~= gs.deep_view()[i as int],
                r@ == gs.deep_view().take(i as int).flatten() + g@.take(j as int),
            decreases g.len() - j,
        {
            r.push(g[j]);
            proof {
                assert(g@.take(j + 1 as int) =~= g@.take(j as int).push(g@[j as int]));
            }
            j = j + 1;
        }
        proof {
            assert(g@.take(g@.len() as int) =~= g@);
            assert(gs.deep_view().take(i + 1 as int) =~~= gs.deep_view().take(i as int).push(g@));
            gs.deep_view().take(i as int).lemma_flatten_push(g@);
        }
        i = i + 1;
    }
    proof {
        assert(gs.deep_view().take(gs.deep_view().len() as int) =~= gs.deep_view());
    }
    r
}

} // verus!
