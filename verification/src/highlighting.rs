//! The highlight-tag alphabet and the specification of the per-row
//! classifier: a single left-to-right pass that assigns one tag to every
//! character of a row, plus the block-comment continuation state the row
//! hands to the row below it.

use crate::options::HlConfig;
use vstd::prelude::*;

verus! {

/// Classification assigned to one character position of a row.
/// Flat alphabet: each character belongs to exactly one tag.
#[derive(Clone, Copy, PartialEq, Eq, Structural, Debug)]
pub enum Type {
    Plain,
    Number,
    Match,
    Str,
    Character,
    Comment,
    MultilineComment,
    PrimaryKeywords,
    SecondaryKeywords,
}

/// A separator bounds keywords and numbers: ASCII punctuation or ASCII
/// whitespace.
pub open spec fn is_sep_char(c: char) -> bool {
    ||| c as u32 == 0x20
    ||| c as u32 == 0x09
    ||| c as u32 == 0x0a
    ||| c as u32 == 0x0c
    ||| c as u32 == 0x0d
    ||| 0x21 <= c as u32 <= 0x2f
    ||| 0x3a <= c as u32 <= 0x40
    ||| 0x5b <= c as u32 <= 0x60
    ||| 0x7b <= c as u32 <= 0x7e
}

/// ASCII punctuation or ASCII whitespace.
pub fn is_sep(c: char) -> (r: bool)
    ensures
        r == is_sep_char(c),
{
    let u = c as u32;
    u == 0x20 || u == 0x09 || u == 0x0a || u == 0x0c || u == 0x0d || (0x21 <= u && u <= 0x2f) || (
    0x3a <= u && u <= 0x40) || (0x5b <= u && u <= 0x60) || (0x7b <= u && u <= 0x7e)
}

pub open spec fn is_digit_char(c: char) -> bool {
    0x30 <= c as u32 <= 0x39
}

pub fn is_digit(c: char) -> (r: bool)
    ensures
        r == is_digit_char(c),
{
    let u = c as u32;
    0x30 <= u && u <= 0x39
}

/// A character that continues a number run: a digit or '.'.
pub open spec fn is_num_cont_char(c: char) -> bool {
    is_digit_char(c) || c == '.'
}

pub fn is_num_cont(c: char) -> (r: bool)
    ensures
        r == is_num_cont_char(c),
{
    is_digit(c) || c == '.'
}

/// The comment closer "*/" stands at position `i`.
pub open spec fn closer_at(cs: Seq<char>, i: int) -> bool {
    0 <= i && i + 2 <= cs.len() && cs[i] == '*' && cs[i + 1] == '/'
}

/// The first position at or after `i` where "*/" stands.
pub open spec fn find_closer(cs: Seq<char>, i: int) -> Option<int>
    decreases cs.len() - i,
{
    if i < 0 || i + 2 > cs.len() {
        None
    } else if closer_at(cs, i) {
        Some(i)
    } else {
        find_closer(cs, i + 1)
    }
}

pub proof fn lemma_find_closer(cs: Seq<char>, i: int)
    requires
        0 <= i,
    ensures
        match find_closer(cs, i) {
            Some(c) => i <= c && closer_at(cs, c) && forall|j: int| i <= j < c ==> !closer_at(cs, j),
            None => forall|j: int| i <= j ==> !closer_at(cs, j),
        },
    decreases cs.len() - i,
{
    if i + 2 > cs.len() {
    } else if closer_at(cs, i) {
    } else {
        lemma_find_closer(cs, i + 1);
    }
}

/// The first position at or after `i` holding '"'.
pub open spec fn find_quote(cs: Seq<char>, i: int) -> Option<int>
    decreases cs.len() - i,
{
    if i < 0 || i >= cs.len() {
        None
    } else if cs[i] == '"' {
        Some(i)
    } else {
        find_quote(cs, i + 1)
    }
}

pub proof fn lemma_find_quote(cs: Seq<char>, i: int)
    requires
        0 <= i,
    ensures
        match find_quote(cs, i) {
            Some(q) => i <= q < cs.len() && cs[q] == '"' && forall|j: int|
                i <= j < q ==> cs[j] != '"',
            None => forall|j: int| i <= j < cs.len() ==> cs[j] != '"',
        },
    decreases cs.len() - i,
{
    if i >= cs.len() {
    } else if cs[i] == '"' {
    } else {
        lemma_find_quote(cs, i + 1);
    }
}

/// The first position at or after `i` that does not continue a number run.
pub open spec fn num_end(cs: Seq<char>, i: int) -> int
    decreases cs.len() - i,
{
    if i < 0 || i >= cs.len() {
        i
    } else if !is_num_cont_char(cs[i]) {
        i
    } else {
        num_end(cs, i + 1)
    }
}

pub proof fn lemma_num_end(cs: Seq<char>, i: int)
    requires
        0 <= i <= cs.len(),
    ensures
        i <= num_end(cs, i) <= cs.len(),
        forall|j: int| i <= j < num_end(cs, i) ==> is_num_cont_char(cs[j]),
        num_end(cs, i) == cs.len() || !is_num_cont_char(cs[num_end(cs, i)]),
    decreases cs.len() - i,
{
    if i >= cs.len() {
    } else if !is_num_cont_char(cs[i]) {
    } else {
        lemma_num_end(cs, i + 1);
    }
}

/// The word `w` matches literally at `i` and the character after it, if
/// any, is a separator.
pub open spec fn kw_match_at(cs: Seq<char>, w: Seq<char>, i: int) -> bool {
    &&& w.len() > 0
    &&& 0 <= i
    &&& i + w.len() <= cs.len()
    &&& cs.subrange(i, i + w.len()) == w
    &&& (i + w.len() == cs.len() || is_sep_char(cs[i + w.len()]))
}

/// The first word of `kws`, in list order, that matches at `i`.
pub open spec fn first_kw(kws: Seq<Seq<char>>, cs: Seq<char>, i: int) -> Option<Seq<char>>
    decreases kws.len(),
{
    if kws.len() == 0 {
        None
    } else if kw_match_at(cs, kws[0], i) {
        Some(kws[0])
    } else {
        first_kw(kws.drop_first(), cs, i)
    }
}

/// The character before `i`, if any, is a separator.
pub open spec fn prev_is_boundary(cs: Seq<char>, i: int) -> bool {
    i == 0 || is_sep_char(cs[i - 1])
}

/// A block comment opens at `i`.
pub open spec fn ml_open_at(cs: Seq<char>, cfg: HlConfig, i: int) -> bool {
    cfg.multiline_comments && 0 <= i && i + 1 < cs.len() && cs[i] == '/' && cs[i + 1] == '*'
}

/// Where the closing quote of a character literal opened at `i` must
/// stand: one past the body, which is two characters when escaped.
pub open spec fn char_lit_close(cs: Seq<char>, i: int) -> int {
    if cs[i + 1] == '\\' {
        i + 3
    } else {
        i + 2
    }
}

/// A character literal of the exact shape 'x' or '\x' stands at `i`.
pub open spec fn char_lit_at(cs: Seq<char>, cfg: HlConfig, i: int) -> bool {
    &&& cfg.characters
    &&& 0 <= i
    &&& i + 1 < cs.len()
    &&& cs[i] == '\''
    &&& char_lit_close(cs, i) < cs.len()
    &&& cs[char_lit_close(cs, i)] == '\''
}

/// A line comment "//" opens at `i`.
pub open spec fn line_comment_at(cs: Seq<char>, cfg: HlConfig, i: int) -> bool {
    cfg.comments && 0 <= i && i + 1 < cs.len() && cs[i] == '/' && cs[i + 1] == '/'
}

/// Some word of `kws` matches at `i`, with a separator (or the row start)
/// before it.
pub open spec fn keyword_at(cs: Seq<char>, kws: Seq<Seq<char>>, i: int) -> bool {
    prev_is_boundary(cs, i) && first_kw(kws, cs, i) is Some
}

/// A string literal opens at `i`.
pub open spec fn string_at(cs: Seq<char>, cfg: HlConfig, i: int) -> bool {
    cfg.strings && 0 <= i && i < cs.len() && cs[i] == '"'
}

/// A number run starts at `i`: a digit preceded by a separator or the
/// row start.
pub open spec fn number_at(cs: Seq<char>, cfg: HlConfig, i: int) -> bool {
    cfg.numbers && 0 <= i && i < cs.len() && is_digit_char(cs[i]) && prev_is_boundary(cs, i)
}

/// The tag of the token consumed at position `i`, by classifier priority:
/// block comment, character literal, line comment, primary keyword,
/// secondary keyword, string, number; otherwise the single character at
/// `i` is left plain.
pub open spec fn token_tag(cs: Seq<char>, cfg: HlConfig, i: int) -> Type {
    if ml_open_at(cs, cfg, i) {
        Type::MultilineComment
    } else if char_lit_at(cs, cfg, i) {
        Type::Character
    } else if line_comment_at(cs, cfg, i) {
        Type::Comment
    } else if keyword_at(cs, cfg.primary_keywords, i) {
        Type::PrimaryKeywords
    } else if keyword_at(cs, cfg.secondary_keywords, i) {
        Type::SecondaryKeywords
    } else if string_at(cs, cfg, i) {
        Type::Str
    } else if number_at(cs, cfg, i) {
        Type::Number
    } else {
        Type::Plain
    }
}

/// One past the last character of the token consumed at `i` (same
/// priority as `token_tag`).
pub open spec fn token_end(cs: Seq<char>, cfg: HlConfig, i: int) -> int {
    if ml_open_at(cs, cfg, i) {
        match find_closer(cs, i + 2) {
            Some(c) => c + 2,
            None => cs.len() as int,
        }
    } else if char_lit_at(cs, cfg, i) {
        char_lit_close(cs, i) + 1
    } else if line_comment_at(cs, cfg, i) {
        cs.len() as int
    } else if keyword_at(cs, cfg.primary_keywords, i) {
        i + first_kw(cfg.primary_keywords, cs, i).unwrap().len()
    } else if keyword_at(cs, cfg.secondary_keywords, i) {
        i + first_kw(cfg.secondary_keywords, cs, i).unwrap().len()
    } else if string_at(cs, cfg, i) {
        match find_quote(cs, i + 1) {
            Some(q) => q + 1,
            None => cs.len() as int,
        }
    } else if number_at(cs, cfg, i) {
        num_end(cs, i + 1)
    } else {
        i + 1
    }
}

pub proof fn lemma_first_kw(kws: Seq<Seq<char>>, cs: Seq<char>, i: int)
    ensures
        match first_kw(kws, cs, i) {
            Some(w) => kw_match_at(cs, w, i),
            None => true,
        },
    decreases kws.len(),
{
    if kws.len() == 0 {
    } else if kw_match_at(cs, kws[0], i) {
    } else {
        lemma_first_kw(kws.drop_first(), cs, i);
    }
}

/// Every token consumes at least one character and stays inside the row.
pub proof fn lemma_token_end_bounds(cs: Seq<char>, cfg: HlConfig, i: int)
    requires
        0 <= i < cs.len(),
    ensures
        i < token_end(cs, cfg, i) <= cs.len(),
{
    if ml_open_at(cs, cfg, i) {
        lemma_find_closer(cs, i + 2);
    } else if char_lit_at(cs, cfg, i) {
    } else if line_comment_at(cs, cfg, i) {
    } else if keyword_at(cs, cfg.primary_keywords, i) {
        lemma_first_kw(cfg.primary_keywords, cs, i);
    } else if keyword_at(cs, cfg.secondary_keywords, i) {
        lemma_first_kw(cfg.secondary_keywords, cs, i);
    } else if string_at(cs, cfg, i) {
        lemma_find_quote(cs, i + 1);
    } else if number_at(cs, cfg, i) {
        lemma_num_end(cs, i + 1);
    } else {
    }
}

/// `n` copies of one tag.
pub open spec fn repeat_tag(t: Type, n: int) -> Seq<Type> {
    Seq::new(n as nat, |k: int| t)
}

/// What one pass over the characters from some position onward yields:
/// the tags for those characters, and whether the pass ran off the end of
/// the row inside an unterminated block comment.
pub ghost struct ScanOut {
    pub tags: Seq<Type>,
    pub open_comment: bool,
}

/// Tags for the characters of `cs` from position `i` on: the token at `i`
/// is consumed whole and tagging continues after it. `open_comment` is
/// true exactly when the last consumed token is a block comment without
/// its closer.
pub open spec fn scan(cs: Seq<char>, cfg: HlConfig, i: int) -> ScanOut
    decreases cs.len() - i,
        via scan_decreases
{
    if i < 0 || i >= cs.len() {
        ScanOut { tags: Seq::empty(), open_comment: false }
    } else {
        let e = token_end(cs, cfg, i);
        let rest = scan(cs, cfg, e);
        ScanOut {
            tags: repeat_tag(token_tag(cs, cfg, i), e - i) + rest.tags,
            open_comment: (ml_open_at(cs, cfg, i) && find_closer(cs, i + 2) is None)
                || rest.open_comment,
        }
    }
}

#[via_fn]
proof fn scan_decreases(cs: Seq<char>, cfg: HlConfig, i: int) {
    if 0 <= i && i < cs.len() {
        lemma_token_end_bounds(cs, cfg, i);
    }
}

pub proof fn lemma_scan_len(cs: Seq<char>, cfg: HlConfig, i: int)
    requires
        0 <= i <= cs.len(),
    ensures
        scan(cs, cfg, i).tags.len() == cs.len() - i,
    decreases cs.len() - i,
{
    if i < cs.len() {
        lemma_token_end_bounds(cs, cfg, i);
        lemma_scan_len(cs, cfg, token_end(cs, cfg, i));
    }
}

/// The whole-row pass: when the row starts inside an open block comment,
/// everything through the first "*/" (or the whole row, reporting the
/// comment still open) is tagged as block comment before normal scanning
/// resumes.
pub open spec fn run_highlight(cs: Seq<char>, cfg: HlConfig, start_with_comment: bool) -> ScanOut {
    if start_with_comment {
        match find_closer(cs, 0) {
            Some(c) => {
                let rest = scan(cs, cfg, c + 2);
                ScanOut {
                    tags: repeat_tag(Type::MultilineComment, c + 2) + rest.tags,
                    open_comment: rest.open_comment,
                }
            },
            None => ScanOut {
                tags: repeat_tag(Type::MultilineComment, cs.len() as int),
                open_comment: true,
            },
        }
    } else {
        scan(cs, cfg, 0)
    }
}

pub proof fn lemma_run_highlight_len(cs: Seq<char>, cfg: HlConfig, start_with_comment: bool)
    ensures
        run_highlight(cs, cfg, start_with_comment).tags.len() == cs.len(),
{
    if start_with_comment {
        lemma_find_closer(cs, 0);
        match find_closer(cs, 0) {
            Some(c) => {
                lemma_scan_len(cs, cfg, c + 2);
            },
            None => {},
        }
    } else {
        lemma_scan_len(cs, cfg, 0);
    }
}

/// The row's final two characters are the comment closer "*/".
pub open spec fn ends_with_closer(cs: Seq<char>) -> bool {
    cs.len() >= 2 && cs[cs.len() - 2] == '*' && cs[cs.len() - 1] == '/'
}

/// A pass that ends with a block-comment tag but not inside an open
/// comment ends exactly on a closer.
pub proof fn lemma_scan_last_mlc(cs: Seq<char>, cfg: HlConfig, i: int)
    requires
        0 <= i <= cs.len(),
        !scan(cs, cfg, i).open_comment,
        scan(cs, cfg, i).tags.len() > 0,
        scan(cs, cfg, i).tags.last() == Type::MultilineComment,
    ensures
        ends_with_closer(cs),
    decreases cs.len() - i,
{
    lemma_scan_len(cs, cfg, i);
    let e = token_end(cs, cfg, i);
    lemma_token_end_bounds(cs, cfg, i);
    lemma_scan_len(cs, cfg, e);
    if e < cs.len() {
        lemma_scan_last_mlc(cs, cfg, e);
    } else {
        assert(scan(cs, cfg, i).tags.last() == token_tag(cs, cfg, i));
        assert(ml_open_at(cs, cfg, i));
        match find_closer(cs, i + 2) {
            Some(c) => {
                lemma_find_closer(cs, i + 2);
                assert(c + 2 == cs.len());
                assert(closer_at(cs, c));
            },
            None => {
                assert(scan(cs, cfg, i).open_comment);
            },
        }
    }
}

/// Same statement for the whole-row pass.
pub proof fn lemma_run_last_mlc(cs: Seq<char>, cfg: HlConfig, start_with_comment: bool)
    requires
        !run_highlight(cs, cfg, start_with_comment).open_comment,
        run_highlight(cs, cfg, start_with_comment).tags.len() > 0,
        run_highlight(cs, cfg, start_with_comment).tags.last() == Type::MultilineComment,
    ensures
        ends_with_closer(cs),
{
    if start_with_comment {
        lemma_find_closer(cs, 0);
        match find_closer(cs, 0) {
            Some(c) => {
                lemma_scan_len(cs, cfg, c + 2);
                if c + 2 < cs.len() {
                    lemma_scan_last_mlc(cs, cfg, c + 2);
                } else {
                    assert(closer_at(cs, c));
                }
            },
            None => {},
        }
    } else {
        lemma_scan_last_mlc(cs, cfg, 0);
    }
}

/// A pass that ends inside an open comment ends on block-comment tags.
pub proof fn lemma_scan_open_last_mlc(cs: Seq<char>, cfg: HlConfig, i: int)
    requires
        0 <= i <= cs.len(),
        scan(cs, cfg, i).open_comment,
    ensures
        scan(cs, cfg, i).tags.len() > 0,
        scan(cs, cfg, i).tags.last() == Type::MultilineComment,
    decreases cs.len() - i,
{
    lemma_scan_len(cs, cfg, i);
    let e = token_end(cs, cfg, i);
    lemma_token_end_bounds(cs, cfg, i);
    lemma_scan_len(cs, cfg, e);
    if ml_open_at(cs, cfg, i) && find_closer(cs, i + 2) is None {
        assert(e == cs.len());
        assert(scan(cs, cfg, i).tags.last() == token_tag(cs, cfg, i));
    } else {
        assert(scan(cs, cfg, e).open_comment);
        lemma_scan_open_last_mlc(cs, cfg, e);
        assert(scan(cs, cfg, i).tags.last() == scan(cs, cfg, e).tags.last());
    }
}

/// Same statement for the whole-row pass, given a non-empty row.
pub proof fn lemma_run_open_last_mlc(cs: Seq<char>, cfg: HlConfig, start_with_comment: bool)
    requires
        run_highlight(cs, cfg, start_with_comment).open_comment,
        cs.len() > 0,
    ensures
        run_highlight(cs, cfg, start_with_comment).tags.len() > 0,
        run_highlight(cs, cfg, start_with_comment).tags.last() == Type::MultilineComment,
{
    lemma_run_highlight_len(cs, cfg, start_with_comment);
    if start_with_comment {
        lemma_find_closer(cs, 0);
        match find_closer(cs, 0) {
            Some(c) => {
                lemma_scan_len(cs, cfg, c + 2);
                assert(scan(cs, cfg, c + 2).open_comment);
                lemma_scan_open_last_mlc(cs, cfg, c + 2);
                assert(run_highlight(cs, cfg, start_with_comment).tags.last() == scan(
                    cs,
                    cfg,
                    c + 2,
                ).tags.last());
            },
            None => {
                assert(run_highlight(cs, cfg, start_with_comment).tags.last()
                    == Type::MultilineComment);
            },
        }
    } else {
        lemma_scan_open_last_mlc(cs, cfg, 0);
    }
}

/// Tags with positions `[a, b)` replaced by `t`.
pub open spec fn set_range(tags: Seq<Type>, a: int, b: int, t: Type) -> Seq<Type> {
    Seq::new(tags.len(), |k: int| if a <= k < b { t } else { tags[k] })
}

/// The cluster sequence `q` stands at cluster position `i` of `text`.
pub open spec fn cluster_match(text: Seq<Seq<char>>, q: Seq<Seq<char>>, i: int) -> bool {
    &&& q.len() > 0
    &&& 0 <= i
    &&& i + q.len() <= text.len()
    &&& text.subrange(i, i + q.len()) == q
}

/// The character position where cluster `i` begins.
pub open spec fn char_offset(text: Seq<Seq<char>>, i: int) -> int {
    text.take(i).flatten().len() as int
}

pub proof fn lemma_char_offset_zero(text: Seq<Seq<char>>)
    ensures
        char_offset(text, 0) == 0,
{
    assert(text.take(0) =~= Seq::<Seq<char>>::empty());
    assert(Seq::<Seq<char>>::empty().flatten() =~= Seq::<char>::empty());
}

/// Moving one cluster to the right moves the character offset by that
/// cluster's length.
pub proof fn lemma_char_offset_step(text: Seq<Seq<char>>, i: int)
    requires
        0 <= i < text.len(),
    ensures
        char_offset(text, i + 1) == char_offset(text, i) + text[i].len(),
{
    assert(text.take(i + 1) =~= text.take(i).push(text[i]));
    text.take(i).lemma_flatten_push(text[i]);
}

/// A character offset never passes the end of the flattened text.
pub proof fn lemma_char_offset_le_total(text: Seq<Seq<char>>, i: int)
    requires
        0 <= i <= text.len(),
    ensures
        0 <= char_offset(text, i) <= text.flatten().len(),
{
    vstd::seq_lib::lemma_flatten_concat(text.take(i), text.skip(i));
    assert(text.take(i) + text.skip(i) =~= text);
}

/// Search-match overlay: walking the clusters from `i` on, every
/// non-overlapping occurrence of `q` has the tags of its characters
/// replaced by `Match`.
pub open spec fn overlay_matches(
    tags: Seq<Type>,
    text: Seq<Seq<char>>,
    q: Seq<Seq<char>>,
    i: int,
) -> Seq<Type>
    decreases text.len() - i,
{
    if q.len() == 0 || i < 0 || i + q.len() > text.len() {
        tags
    } else if cluster_match(text, q, i) {
        overlay_matches(
            set_range(tags, char_offset(text, i), char_offset(text, i + q.len()), Type::Match),
            text,
            q,
            i + q.len(),
        )
    } else {
        overlay_matches(tags, text, q, i + 1)
    }
}

} // verus!
