//! The one-line summary shown for a scrap on index pages.
//!
//! A leading heading is the term's expanded name and indexes better than any
//! excerpt. Without one, lines made only of tags or embeds are skipped so the
//! summary starts at prose.

use vstd::prelude::*;

use crate::text::{chars_of, string_of};
use crate::wiki::{marker_at, opens_at};
use crate::textops::{
    after_last_bar, after_last_bar_vec, append_range, collapse_whitespace, collapse_ws, find_close,
    find_close_exec, is_whitespace, is_ws, lemma_find_close_bounds, lemma_ws_run_back_bounds, lines,
    slice_to_vec, join_words, words_from, ws_run, ws_run_back, word_end, lemma_ws_run_bounds, lemma_word_end_bounds,
    split_lines, trim, trim_end, trim_end_vec, trim_start, trim_start_vec, trim_vec, lines_from,
    line_between, next_newline, lemma_next_newline_bounds, lemma_last_bar_bounds,
};

verus! {

broadcast use crate::model::lemma_scrap_view;

/// One-line summary of a scrap's markdown body.
#[derive(Debug, Clone, PartialEq, Eq)]
pub struct Summary(String);

impl View for Summary {
    type V = Seq<char>;

    closed spec fn view(&self) -> Seq<char> {
        self.0@
    }
}

// ---------------------------------------------------------------- specs --

/// The first index at or after `i` that does not hold `c`.
pub open spec fn run_of(s: Seq<char>, c: char, i: int) -> int
    decreases s.len() - i,
{
    if 0 <= i < s.len() && s[i] == c {
        run_of(s, c, i + 1)
    } else {
        i
    }
}

/// `## Foo` gives `Foo`: one to six `#` then whitespace, the rest trimmed and
/// non-empty. `#[[Tag]]` is not a heading.
pub open spec fn heading_text(line: Seq<char>) -> Option<Seq<char>> {
    let k = run_of(line, '#', 0);
    if 1 <= k <= 6 && k < line.len() && is_ws(line[k]) {
        let t = trim(line.skip(k));
        if t.len() == 0 {
            None
        } else {
            Some(t)
        }
    } else {
        None
    }
}

pub open spec fn is_rule_char(c: char) -> bool {
    c == '-' || c == '*' || c == '_'
}

/// A heading, or a thematic break of three or more `-`, `*` or `_`.
pub open spec fn is_block_break(line: Seq<char>) -> bool {
    heading_text(line) is Some || (line.len() >= 3 && forall|i: int|
        0 <= i < line.len() ==> is_rule_char(#[trigger] line[i]))
}

/// `line` from index `i` on, with every `p[[...]]` (closed by `]]`) removed.
pub open spec fn drop_links_from(c: Seq<char>, p: char, i: int) -> Seq<char>
    decreases c.len() - i,
{
    if i < 0 || i >= c.len() {
        seq![]
    } else if c[i] == p && c.len() - i >= 3 && c[i + 1] == '[' && c[i + 2] == '[' && find_close(
        c,
        i + 3,
    ) is Some && find_close(c, i + 3)->0 + 2 > i && find_close(c, i + 3)->0 + 2 <= c.len() {
        drop_links_from(c, p, find_close(c, i + 3)->0 + 2)
    } else {
        seq![c[i]] + drop_links_from(c, p, i + 1)
    }
}

/// A line of nothing but `#[[tags]]` and `![[embeds]]` is metadata.
pub open spec fn is_meta_line(line: Seq<char>) -> bool {
    trim(drop_links_from(drop_links_from(line, '#', 0), '!', 0)).len() == 0
}

/// The first index at or after `i` holding neither `'>'` nor `' '`.
pub open spec fn quote_run(s: Seq<char>, i: int) -> int
    decreases s.len() - i,
{
    if 0 <= i < s.len() && (s[i] == '>' || s[i] == ' ') {
        quote_run(s, i + 1)
    } else {
        i
    }
}

/// Quote markers dropped, then a list bullet (`- `, `* `, `+ `) with the
/// whitespace after it.
pub open spec fn strip_prose_marker(line: Seq<char>) -> Seq<char> {
    let rest = line.skip(quote_run(line, 0));
    if rest.len() >= 2 && (rest[0] == '-' || rest[0] == '*' || rest[0] == '+') && rest[1] == ' ' {
        trim_start(rest.skip(2))
    } else {
        rest
    }
}

/// `s` from index `i` on with each pair `xx` (taken left to right) removed.
pub open spec fn remove_pairs_from(s: Seq<char>, x: char, i: int) -> Seq<char>
    decreases s.len() - i,
{
    if i < 0 || i >= s.len() {
        seq![]
    } else if i + 1 < s.len() && s[i] == x && s[i + 1] == x {
        remove_pairs_from(s, x, i + 2)
    } else {
        seq![s[i]] + remove_pairs_from(s, x, i + 1)
    }
}

/// `s` from index `i` on with every `x` removed.
pub open spec fn remove_char_from(s: Seq<char>, x: char, i: int) -> Seq<char>
    decreases s.len() - i,
{
    if i < 0 || i >= s.len() {
        seq![]
    } else if s[i] == x {
        remove_char_from(s, x, i + 1)
    } else {
        seq![s[i]] + remove_char_from(s, x, i + 1)
    }
}

/// What a reader sees of a closed wiki construct: `#a` for a tag, the alias
/// (or the target) for a link or an embed.
pub open spec fn wiki_piece(marker: Option<char>, inner: Seq<char>) -> Seq<char> {
    if marker == Some('#') {
        seq!['#'] + trim(inner)
    } else {
        trim(after_last_bar(inner))
    }
}

/// Wiki syntax of `c` from index `i` on rendered as text (before whitespace
/// is collapsed).
pub open spec fn render_wiki_from(c: Seq<char>, i: int) -> Seq<char>
    decreases c.len() - i,
{
    if i < 0 || i >= c.len() {
        seq![]
    } else if !opens_at(c, i) {
        seq![c[i]] + render_wiki_from(c, i + 1)
    } else {
        let start = if marker_at(c, i) is Some {
            i + 3
        } else {
            i + 2
        };
        match find_close(c, start) {
            Some(end) => {
                if end + 2 > i && end + 2 <= c.len() && start <= end {
                    wiki_piece(marker_at(c, i), c.subrange(start, end)) + render_wiki_from(
                        c,
                        end + 2,
                    )
                } else {
                    seq![c[i]] + render_wiki_from(c, i + 1)
                }
            },
            None => seq![c[i]] + render_wiki_from(c, i + 1),
        }
    }
}

/// `[[a|b]]` → `b`, `[[a]]` → `a`, `#[[a]]` → `#a`, `![[a]]` → `a`, with
/// whitespace collapsed.
pub open spec fn strip_wiki_syntax(line: Seq<char>) -> Seq<char> {
    collapse_ws(render_wiki_from(line, 0))
}

/// Bold markers and code ticks dropped, wiki syntax rendered as text.
pub open spec fn clean(line: Seq<char>) -> Seq<char> {
    strip_wiki_syntax(
        remove_char_from(
            remove_pairs_from(remove_pairs_from(line, '*', 0), '_', 0),
            '`',
            0,
        ),
    )
}

pub open spec fn is_ascii_char(c: char) -> bool {
    (c as u32) < 128
}

/// A space goes between wrapped ASCII words, none between wrapped Japanese.
pub open spec fn needs_space(para: Seq<char>, next: Seq<char>) -> bool {
    para.len() > 0 && next.len() > 0 && is_ascii_char(para.last()) && is_ascii_char(next[0])
}

pub open spec fn starts_fence(line: Seq<char>) -> bool {
    line.len() >= 3 && ((line[0] == '`' && line[1] == '`' && line[2] == '`') || (line[0] == '~'
        && line[1] == '~' && line[2] == '~'))
}

/// What a paragraph line contributes: nothing for a line that ends a
/// paragraph, its cleaned prose otherwise.
pub open spec fn cleaned_line(line: Seq<char>) -> Seq<char> {
    if line.len() == 0 || is_block_break(line) || is_meta_line(line) {
        seq![]
    } else {
        clean(strip_prose_marker(line))
    }
}

/// The first paragraph of `ls[k..]`, given the paragraph `para` gathered so
/// far and whether a code fence is open. Fenced lines are skipped, empty
/// lines before the paragraph too; the first empty line after it ends it.
pub open spec fn paragraph_from(ls: Seq<Seq<char>>, k: int, para: Seq<char>, in_fence: bool) -> Seq<
    char,
>
    decreases ls.len() - k,
{
    if k < 0 || k >= ls.len() {
        para
    } else if starts_fence(ls[k]) {
        paragraph_from(ls, k + 1, para, !in_fence)
    } else if in_fence {
        paragraph_from(ls, k + 1, para, in_fence)
    } else {
        let cleaned = cleaned_line(ls[k]);
        if cleaned.len() == 0 {
            if para.len() == 0 {
                paragraph_from(ls, k + 1, para, in_fence)
            } else {
                para
            }
        } else {
            let joined = if needs_space(para, cleaned) {
                para + seq![' '] + cleaned
            } else {
                para + cleaned
            };
            paragraph_from(ls, k + 1, joined, in_fence)
        }
    }
}

/// At most `max` characters; a longer text is cut, its trailing whitespace
/// dropped and `…` appended.
pub open spec fn truncate(text: Seq<char>, max: nat) -> Seq<char> {
    if text.len() <= max {
        text
    } else {
        trim_end(text.take(max as int)).push('…')
    }
}

/// Index of the first non-empty line at or after `k`.
pub open spec fn first_nonempty(ls: Seq<Seq<char>>, k: int) -> int
    decreases ls.len() - k,
{
    if 0 <= k < ls.len() && ls[k].len() == 0 {
        first_nonempty(ls, k + 1)
    } else {
        k
    }
}

/// The trimmed lines of a markdown text.
pub open spec fn trimmed_lines(md: Seq<char>) -> Seq<Seq<char>> {
    lines(md).map_values(|l: Seq<char>| trim(l))
}

/// The summary of `md` cut to `max` characters: the first heading when the
/// text opens with one, the first paragraph of prose otherwise; `None` when
/// that is empty.
pub open spec fn summary_of(md: Seq<char>, max: nat) -> Option<Seq<char>> {
    let ls = trimmed_lines(md);
    let f = first_nonempty(ls, 0);
    if f < 0 || f >= ls.len() {
        None
    } else {
        let text = match heading_text(ls[f]) {
            Some(expanded) => clean(expanded),
            None => paragraph_from(ls, f, seq![], false),
        };
        let t = truncate(text, max);
        if t.len() == 0 {
            None
        } else {
            Some(t)
        }
    }
}

/// The text a summary is cut from: the cleaned first heading when the text
/// opens with one, else its first paragraph of prose; empty when the text
/// has no line.
pub open spec fn summary_text(md: Seq<char>) -> Seq<char> {
    let ls = trimmed_lines(md);
    let f = first_nonempty(ls, 0);
    if f < 0 || f >= ls.len() {
        seq![]
    } else {
        match heading_text(ls[f]) {
            Some(expanded) => clean(expanded),
            None => paragraph_from(ls, f, seq![], false),
        }
    }
}

/// The limit only cuts: the summary is the uncut text cut to `max`
/// characters (with `…` where it was cut), and whether there is one at all
/// does not depend on the limit; with a limit the text fits, it is the text
/// itself.
pub proof fn lemma_summary_only_truncates(md: Seq<char>, max: nat, other: nat)
    ensures
        summary_of(md, max) == (if summary_text(md).len() == 0 {
            None
        } else {
            Some(truncate(summary_text(md), max))
        }),
        (summary_of(md, max) is None) == (summary_of(md, other) is None),
        summary_text(md).len() <= max ==> summary_of(md, max) == (if summary_text(md).len() == 0 {
            None::<Seq<char>>
        } else {
            Some(summary_text(md))
        }),
{
    let t = summary_text(md);
    assert(truncate(t, max).len() == 0 <==> t.len() == 0);
    assert(truncate(t, other).len() == 0 <==> t.len() == 0);
}

/// A tidy text: its only whitespace is single spaces between two other
/// characters, so it sits on one line, trimmed, with no doubled space.
pub open spec fn tidy(t: Seq<char>) -> bool {
    forall|i: int|
        0 <= i < t.len() && is_ws(#[trigger] t[i]) ==> t[i] == ' ' && 0 < i && i + 1 < t.len() && !is_ws(
            t[i - 1],
        ) && !is_ws(t[i + 1])
}

proof fn lemma_tidy_ends(t: Seq<char>)
    requires
        tidy(t),
        t.len() > 0,
    ensures
        !is_ws(t[0]),
        !is_ws(t[t.len() - 1]),
{
    if is_ws(t[0]) {
        assert(0 < 0);
    }
    if is_ws(t[t.len() - 1]) {
        assert(t.len() - 1 + 1 < t.len());
    }
}

proof fn lemma_tidy_concat(a: Seq<char>, b: Seq<char>)
    requires
        tidy(a),
        tidy(b),
        a.len() > 0,
        b.len() > 0,
    ensures
        tidy(a + b),
        tidy(a + seq![' '] + b),
{
    lemma_tidy_ends(a);
    lemma_tidy_ends(b);
    let c = a + b;
    assert forall|i: int| 0 <= i < c.len() && is_ws(#[trigger] c[i]) implies c[i] == ' ' && 0 < i && i + 1
        < c.len() && !is_ws(c[i - 1]) && !is_ws(c[i + 1]) by {
        if i < a.len() {
            assert(c[i] == a[i]);
            assert(is_ws(a[i]));
            assert(c[i + 1] == a[i + 1]);
            assert(c[i - 1] == a[i - 1]);
        } else {
            assert(c[i] == b[i - a.len()]);
            assert(is_ws(b[i - a.len()]));
            assert(c[i + 1] == b[i + 1 - a.len()]);
            assert(c[i - 1] == b[i - 1 - a.len()]);
        }
    }
    let d = a + seq![' '] + b;
    assert forall|i: int| 0 <= i < d.len() && is_ws(#[trigger] d[i]) implies d[i] == ' ' && 0 < i && i + 1
        < d.len() && !is_ws(d[i - 1]) && !is_ws(d[i + 1]) by {
        if i < a.len() {
            assert(d[i] == a[i]);
            assert(is_ws(a[i]));
            assert(d[i + 1] == a[i + 1]);
            assert(d[i - 1] == a[i - 1]);
        } else if i == a.len() {
            assert(d[i - 1] == a[a.len() - 1]);
            assert(d[i + 1] == b[0]);
        } else {
            assert(d[i] == b[i - a.len() - 1]);
            assert(is_ws(b[i - a.len() - 1]));
            assert(d[i + 1] == b[i - a.len()]);
            assert(d[i - 1] == b[i - 2 - a.len()]);
        }
    }
}

proof fn lemma_words_are_words(s: Seq<char>, i: int)
    requires
        0 <= i <= s.len(),
    ensures
        forall|w: int|
            0 <= w < words_from(s, i).len() ==> (#[trigger] words_from(s, i)[w]).len() > 0 && forall|m: int|
                0 <= m < words_from(s, i)[w].len() ==> !is_ws(#[trigger] words_from(s, i)[w][m]),
    decreases s.len() - i,
{
    lemma_ws_run_bounds(s, i);
    let j = ws_run(s, i);
    if j < s.len() {
        lemma_word_end_bounds(s, j);
        let k = word_end(s, j);
        if k > j {
            lemma_words_are_words(s, k);
            let rest = words_from(s, k);
            let all = words_from(s, i);
            assert(all == seq![s.subrange(j, k)] + rest);
            assert forall|w: int| 0 <= w < all.len() implies (#[trigger] all[w]).len() > 0 && forall|m: int|
                0 <= m < all[w].len() ==> !is_ws(#[trigger] all[w][m]) by {
                if w == 0 {
                    assert(all[0] == s.subrange(j, k));
                    assert forall|m: int| 0 <= m < all[0].len() implies !is_ws(#[trigger] all[0][m]) by {
                        assert(all[0][m] == s[j + m]);
                    }
                } else {
                    assert(all[w] == rest[w - 1]);
                }
            }
        }
    }
}

proof fn lemma_join_words_tidy(ws: Seq<Seq<char>>)
    requires
        forall|w: int|
            0 <= w < ws.len() ==> (#[trigger] ws[w]).len() > 0 && forall|m: int|
                0 <= m < ws[w].len() ==> !is_ws(#[trigger] ws[w][m]),
    ensures
        tidy(join_words(ws)),
        ws.len() > 0 ==> join_words(ws).len() > 0,
    decreases ws.len(),
{
    if ws.len() == 1 {
        assert(ws[0].len() > 0);
        assert forall|i: int| 0 <= i < ws[0].len() && is_ws(#[trigger] ws[0][i]) implies false by {}
    } else if ws.len() > 1 {
        let init = ws.drop_last();
        assert forall|w: int| 0 <= w < init.len() implies (#[trigger] init[w]).len() > 0 && forall|m: int|
            0 <= m < init[w].len() ==> !is_ws(#[trigger] init[w][m]) by {
            assert(init[w] == ws[w]);
        }
        lemma_join_words_tidy(init);
        let last = ws.last();
        assert(last == ws[ws.len() - 1]);
        assert forall|i: int| 0 <= i < last.len() && is_ws(#[trigger] last[i]) implies false by {}
        lemma_tidy_concat(join_words(init), last);
    }
}

/// Collapsed whitespace is tidy.
proof fn lemma_collapse_tidy(s: Seq<char>)
    ensures
        tidy(collapse_ws(s)),
{
    lemma_words_are_words(s, 0);
    lemma_join_words_tidy(words_from(s, 0));
}

proof fn lemma_paragraph_tidy(ls: Seq<Seq<char>>, k: int, para: Seq<char>, in_fence: bool)
    requires
        tidy(para),
    ensures
        tidy(paragraph_from(ls, k, para, in_fence)),
    decreases ls.len() - k,
{
    if k < 0 || k >= ls.len() {
    } else if starts_fence(ls[k]) {
        lemma_paragraph_tidy(ls, k + 1, para, !in_fence);
    } else if in_fence {
        lemma_paragraph_tidy(ls, k + 1, para, in_fence);
    } else {
        let cleaned = cleaned_line(ls[k]);
        if cleaned.len() == 0 {
            if para.len() == 0 {
                lemma_paragraph_tidy(ls, k + 1, para, in_fence);
            }
        } else {
            let line = ls[k];
            if !(line.len() == 0 || is_block_break(line) || is_meta_line(line)) {
                let x = remove_char_from(
                    remove_pairs_from(remove_pairs_from(strip_prose_marker(line), '*', 0), '_', 0),
                    '`',
                    0,
                );
                lemma_collapse_tidy(render_wiki_from(x, 0));
            }
            if para.len() > 0 {
                lemma_tidy_concat(para, cleaned);
            }
            let joined = if needs_space(para, cleaned) {
                para + seq![' '] + cleaned
            } else {
                para + cleaned
            };
            if para.len() == 0 {
                assert(joined =~= cleaned);
            }
            lemma_paragraph_tidy(ls, k + 1, joined, in_fence);
        }
    }
}

proof fn lemma_truncate_tidy(t: Seq<char>, max: nat)
    requires
        tidy(t),
    ensures
        tidy(truncate(t, max)),
{
    if t.len() > max {
        let h = t.take(max as int);
        lemma_ws_run_back_bounds(h, h.len() as int);
        let u = trim_end(h);
        let r = u.push('…');
        assert forall|i: int| 0 <= i < r.len() && is_ws(#[trigger] r[i]) implies r[i] == ' ' && 0 < i && i + 1
            < r.len() && !is_ws(r[i - 1]) && !is_ws(r[i + 1]) by {
            assert(i < u.len());
            assert(r[i] == t[i]);
            assert(is_ws(t[i]));
            assert(r[i - 1] == t[i - 1]);
            if i + 1 < u.len() {
                assert(r[i + 1] == t[i + 1]);
            } else {
                assert(r[i + 1] == '…');
            }
        }
    }
}

/// A summary is never empty, and tidy: its only whitespace is single
/// spaces between words, so it is one line, trimmed, with no doubled space.
/// It runs to the limit plus the `…` at most, and a summary of that full
/// length ends in `…`.
pub proof fn lemma_summary_is_one_tidy_line(md: Seq<char>, max: nat)
    ensures
        summary_of(md, max) matches Some(t) ==> {
            &&& t.len() > 0
            &&& tidy(t)
            &&& t.len() <= max + 1
            &&& t.len() == max + 1 ==> t.last() == '…'
        },
{
    let t = summary_text(md);
    let ls = trimmed_lines(md);
    let f = first_nonempty(ls, 0);
    if 0 <= f < ls.len() {
        match heading_text(ls[f]) {
            Some(expanded) => {
                let x = remove_char_from(
                    remove_pairs_from(remove_pairs_from(expanded, '*', 0), '_', 0),
                    '`',
                    0,
                );
                lemma_collapse_tidy(render_wiki_from(x, 0));
            },
            None => {
                lemma_paragraph_tidy(ls, f, seq![], false);
            },
        }
        lemma_truncate_tidy(t, max);
        lemma_summary_fits(md, max);
        lemma_summary_only_truncates(md, max, max);
        if t.len() > max {
            let h = t.take(max as int);
            lemma_ws_run_back_bounds(h, h.len() as int);
        }
    }
}

// ------------------------------------------------------ no longer --

proof fn lemma_trim_shrinks(s: Seq<char>)
    ensures
        trim(s).len() <= s.len(),
        trim_start(s).len() <= s.len(),
{
    lemma_ws_run_bounds(s, 0);
    let t = trim_start(s);
    lemma_ws_run_back_bounds(t, t.len() as int);
}

proof fn lemma_join_first(w: Seq<char>, rest: Seq<Seq<char>>)
    ensures
        join_words(seq![w] + rest) == if rest.len() == 0 {
            w
        } else {
            w + seq![' '] + join_words(rest)
        },
    decreases rest.len(),
{
    let a = seq![w] + rest;
    if rest.len() == 0 {
        assert(a.len() == 1);
        assert(a[0] == w);
    } else {
        assert(a.drop_last() =~= seq![w] + rest.drop_last());
        assert(a.last() == rest.last());
        lemma_join_first(w, rest.drop_last());
        if rest.len() == 1 {
            assert(rest.drop_last().len() == 0);
            assert(rest[0] == rest.last());
        } else {
            assert(join_words(rest) == join_words(rest.drop_last()) + seq![' '] + rest.last());
            assert(w + seq![' '] + join_words(rest.drop_last()) + seq![' '] + rest.last() =~= w + seq![' ']
                + (join_words(rest.drop_last()) + seq![' '] + rest.last()));
        }
    }
}

proof fn lemma_words_shrink(s: Seq<char>, i: int)
    requires
        0 <= i <= s.len(),
    ensures
        join_words(words_from(s, i)).len() <= s.len() - i,
    decreases s.len() - i,
{
    lemma_ws_run_bounds(s, i);
    let j = ws_run(s, i);
    if j < s.len() {
        lemma_word_end_bounds(s, j);
        let k = word_end(s, j);
        if k > j {
            let rest = words_from(s, k);
            assert(words_from(s, i) == seq![s.subrange(j, k)] + rest);
            lemma_join_first(s.subrange(j, k), rest);
            if rest.len() > 0 {
                assert(k < s.len()) by {
                    if k >= s.len() {
                        lemma_ws_run_bounds(s, k);
                    }
                }
                lemma_word_end_stops(s, j);
                assert(is_ws(s[k]));
                lemma_ws_run_bounds(s, k + 1);
                assert(ws_run(s, k) == ws_run(s, k + 1));
                assert(words_from(s, k) == words_from(s, k + 1));
                lemma_words_shrink(s, k + 1);
            }
        }
    }
}

proof fn lemma_word_end_stops(s: Seq<char>, j: int)
    requires
        0 <= j <= s.len(),
    ensures
        word_end(s, j) < s.len() ==> is_ws(s[word_end(s, j)]),
    decreases s.len() - j,
{
    if j < s.len() && !is_ws(s[j]) {
        lemma_word_end_stops(s, j + 1);
    }
}

proof fn lemma_collapse_shrinks(s: Seq<char>)
    ensures
        collapse_ws(s).len() <= s.len(),
{
    lemma_words_shrink(s, 0);
}

proof fn lemma_remove_pairs_shrinks(s: Seq<char>, x: char, i: int)
    requires
        0 <= i <= s.len(),
    ensures
        remove_pairs_from(s, x, i).len() <= s.len() - i,
    decreases s.len() - i,
{
    if i < s.len() {
        if i + 1 < s.len() && s[i] == x && s[i + 1] == x {
            lemma_remove_pairs_shrinks(s, x, i + 2);
        } else {
            lemma_remove_pairs_shrinks(s, x, i + 1);
        }
    }
}

proof fn lemma_remove_char_shrinks(s: Seq<char>, x: char, i: int)
    requires
        0 <= i <= s.len(),
    ensures
        remove_char_from(s, x, i).len() <= s.len() - i,
    decreases s.len() - i,
{
    if i < s.len() {
        lemma_remove_char_shrinks(s, x, i + 1);
    }
}

proof fn lemma_render_wiki_shrinks(c: Seq<char>, i: int)
    requires
        0 <= i <= c.len(),
    ensures
        render_wiki_from(c, i).len() <= c.len() - i,
    decreases c.len() - i,
{
    if i < c.len() {
        if !opens_at(c, i) {
            lemma_render_wiki_shrinks(c, i + 1);
        } else {
            let start = if marker_at(c, i) is Some {
                i + 3
            } else {
                i + 2
            };
            match find_close(c, start) {
                Some(end) => {
                    if end + 2 > i && end + 2 <= c.len() && start <= end {
                        let inner = c.subrange(start, end);
                        lemma_trim_shrinks(inner);
                        lemma_last_bar_bounds(inner, inner.len() as int);
                        lemma_trim_shrinks(after_last_bar(inner));
                        lemma_render_wiki_shrinks(c, end + 2);
                    } else {
                        lemma_render_wiki_shrinks(c, i + 1);
                    }
                },
                None => {
                    lemma_render_wiki_shrinks(c, i + 1);
                },
            }
        }
    }
}

proof fn lemma_clean_shrinks(line: Seq<char>)
    ensures
        clean(line).len() <= line.len(),
{
    let a = remove_pairs_from(line, '*', 0);
    lemma_remove_pairs_shrinks(line, '*', 0);
    let b = remove_pairs_from(a, '_', 0);
    lemma_remove_pairs_shrinks(a, '_', 0);
    let c = remove_char_from(b, '`', 0);
    lemma_remove_char_shrinks(b, '`', 0);
    lemma_render_wiki_shrinks(c, 0);
    lemma_collapse_shrinks(render_wiki_from(c, 0));
}

proof fn lemma_cleaned_line_shrinks(line: Seq<char>)
    ensures
        cleaned_line(line).len() <= line.len(),
{
    if !(line.len() == 0 || is_block_break(line) || is_meta_line(line)) {
        let q = quote_run(line, 0);
        lemma_quote_run_bounds(line, 0);
        let rest = line.skip(q);
        if rest.len() >= 2 && (rest[0] == '-' || rest[0] == '*' || rest[0] == '+') && rest[1] == ' ' {
            lemma_trim_shrinks(rest.skip(2));
        }
        lemma_clean_shrinks(strip_prose_marker(line));
    }
}

/// The characters of the lines from `k` on, a line end counted after each.
pub open spec fn line_budget(ls: Seq<Seq<char>>, k: int) -> int
    decreases ls.len() - k,
{
    if k < 0 || k >= ls.len() {
        0
    } else {
        ls[k].len() + 1 + line_budget(ls, k + 1)
    }
}

proof fn lemma_budget_nonneg(ls: Seq<Seq<char>>, k: int)
    ensures
        line_budget(ls, k) >= 0,
    decreases ls.len() - k,
{
    if 0 <= k < ls.len() {
        lemma_budget_nonneg(ls, k + 1);
    }
}

proof fn lemma_paragraph_budget(ls: Seq<Seq<char>>, k: int, para: Seq<char>, in_fence: bool)
    requires
        0 <= k,
    ensures
        paragraph_from(ls, k, para, in_fence).len() <= para.len() + line_budget(ls, k),
        para.len() == 0 ==> paragraph_from(ls, k, para, in_fence).len() == 0 || paragraph_from(
            ls,
            k,
            para,
            in_fence,
        ).len() + 1 <= line_budget(ls, k),
    decreases ls.len() - k,
{
    if k < ls.len() {
        assert(line_budget(ls, k) == ls[k].len() + 1 + line_budget(ls, k + 1));
        lemma_budget_nonneg(ls, k + 1);
        if starts_fence(ls[k]) {
            lemma_paragraph_budget(ls, k + 1, para, !in_fence);
        } else if in_fence {
            lemma_paragraph_budget(ls, k + 1, para, in_fence);
        } else {
            let cleaned = cleaned_line(ls[k]);
            lemma_cleaned_line_shrinks(ls[k]);
            if cleaned.len() == 0 {
                if para.len() == 0 {
                    lemma_paragraph_budget(ls, k + 1, para, in_fence);
                }
            } else {
                let joined = if needs_space(para, cleaned) {
                    para + seq![' '] + cleaned
                } else {
                    para + cleaned
                };
                assert(joined.len() <= para.len() + 1 + cleaned.len());
                assert(para.len() == 0 ==> joined.len() == cleaned.len());
                lemma_paragraph_budget(ls, k + 1, joined, in_fence);
            }
        }
    }
}

proof fn lemma_budget_from(ls: Seq<Seq<char>>, a: int, b: int)
    requires
        0 <= a <= b,
    ensures
        line_budget(ls, b) <= line_budget(ls, a),
    decreases b - a,
{
    if a < b {
        lemma_budget_from(ls, a + 1, b);
    }
}

proof fn lemma_budget_shift(l: Seq<char>, rest: Seq<Seq<char>>, k: int)
    requires
        0 <= k,
    ensures
        line_budget(seq![l] + rest, k + 1) == line_budget(rest, k),
    decreases rest.len() - k,
{
    if k < rest.len() {
        assert((seq![l] + rest)[k + 1] == rest[k]);
        lemma_budget_shift(l, rest, k + 1);
    }
}

proof fn lemma_budget_entry(ls: Seq<Seq<char>>, k: int)
    requires
        0 <= k < ls.len(),
    ensures
        ls[k].len() + 1 <= line_budget(ls, 0),
{
    lemma_budget_from(ls, 0, k);
    assert(line_budget(ls, k) == ls[k].len() + 1 + line_budget(ls, k + 1));
    lemma_budget_nonneg(ls, k + 1);
}

proof fn lemma_lines_budget(s: Seq<char>, i: int)
    requires
        0 <= i <= s.len(),
    ensures
        line_budget(lines_from(s, i), 0) <= s.len() - i + 1,
    decreases s.len() - i,
{
    if i < s.len() {
        lemma_next_newline_bounds(s, i);
        let j = next_newline(s, i);
        let l = line_between(s, i, j);
        assert(l.len() <= j - i);
        if j >= s.len() {
            assert(lines_from(s, i) == seq![l]);
            assert(line_budget(seq![l], 1) == 0);
        } else {
            lemma_lines_budget(s, j + 1);
            let rest = lines_from(s, j + 1);
            assert(lines_from(s, i) == seq![l] + rest);
            lemma_budget_shift(l, rest, 0);
            assert((seq![l] + rest)[0] == l);
        }
    }
}

proof fn lemma_trimmed_budget(ls: Seq<Seq<char>>, k: int)
    requires
        0 <= k,
    ensures
        line_budget(ls.map_values(|l: Seq<char>| trim(l)), k) <= line_budget(ls, k),
    decreases ls.len() - k,
{
    if k < ls.len() {
        lemma_trim_shrinks(ls[k]);
        lemma_trimmed_budget(ls, k + 1);
    }
}

/// The text a summary is cut from is no longer than the markdown it comes
/// from.
pub proof fn lemma_summary_text_fits(md: Seq<char>)
    ensures
        summary_text(md).len() <= md.len(),
{
    let raw = lines(md);
    let ls = trimmed_lines(md);
    lemma_lines_budget(md, 0);
    lemma_trimmed_budget(raw, 0);
    assert(ls == raw.map_values(|l: Seq<char>| trim(l)));
    let f = first_nonempty(ls, 0);
    if 0 <= f < ls.len() {
        match heading_text(ls[f]) {
            Some(expanded) => {
                let k = run_of(ls[f], '#', 0);
                lemma_trim_shrinks(ls[f].skip(k));
                lemma_clean_shrinks(expanded);
                lemma_budget_entry(ls, f);
            },
            None => {
                lemma_paragraph_budget(ls, f, seq![], false);
                lemma_budget_from(ls, 0, f);
            },
        }
    }
}

/// With the largest limit a summary is never cut: for any text (which
/// holds at most `usize::MAX` characters), the summary with limit
/// `usize::MAX` is the uncut text, and with any limit `n` it is that one
/// cut to `n`.
pub proof fn lemma_summary_at_the_largest_limit_is_uncut(md: Seq<char>, n: nat)
    requires
        md.len() <= usize::MAX,
    ensures
        summary_of(md, usize::MAX as nat) == (if summary_text(md).len() == 0 {
            None::<Seq<char>>
        } else {
            Some(summary_text(md))
        }),
        summary_of(md, n) == (match summary_of(md, usize::MAX as nat) {
            Some(full) => Some(truncate(full, n)),
            None => None,
        }),
{
    lemma_summary_text_fits(md);
    lemma_summary_only_truncates(md, usize::MAX as nat, n);
    lemma_summary_only_truncates(md, n, n);
}

/// A summary is never longer than the limit it was cut to, plus the `…`
/// that marks a cut.
pub proof fn lemma_summary_fits(md: Seq<char>, max: nat)
    ensures
        summary_of(md, max) matches Some(t) ==> t.len() <= max + 1,
{
    let ls = trimmed_lines(md);
    let f = first_nonempty(ls, 0);
    if 0 <= f < ls.len() {
        let text = match heading_text(ls[f]) {
            Some(expanded) => clean(expanded),
            None => paragraph_from(ls, f, seq![], false),
        };
        if text.len() > max {
            let head = text.take(max as int);
            lemma_ws_run_back_bounds(head, head.len() as int);
        }
    }
}

/// A line of plain prose: one line, trimmed, not empty, and neither a
/// heading, a thematic break, a code fence, a quote, a list item nor a line
/// of tags and embeds.
pub open spec fn is_prose_line(p: Seq<char>) -> bool {
    &&& p.len() > 0
    &&& forall|k: int| 0 <= k < p.len() ==> #[trigger] p[k] != '\n'
    &&& !is_ws(p[0])
    &&& !is_ws(p.last())
    &&& p[0] != '>'
    &&& !(p.len() >= 2 && (p[0] == '-' || p[0] == '*' || p[0] == '+') && p[1] == ' ')
    &&& !starts_fence(p)
    &&& !is_block_break(p)
    &&& !is_meta_line(p)
}

proof fn lemma_next_newline_at(s: Seq<char>, i: int, j: int)
    requires
        0 <= i <= j <= s.len(),
        forall|k: int| i <= k < j ==> #[trigger] s[k] != '\n',
        j == s.len() || s[j] == '\n',
    ensures
        next_newline(s, i) == j,
    decreases j - i,
{
    if i < j {
        lemma_next_newline_at(s, i + 1, j);
    }
}

proof fn lemma_next_newline_shift(pre: Seq<char>, s: Seq<char>, i: int)
    requires
        0 <= i <= s.len(),
    ensures
        next_newline(pre + s, pre.len() + i) == pre.len() + next_newline(s, i),
    decreases s.len() - i,
{
    let t = pre + s;
    if i < s.len() {
        assert(t[pre.len() + i] == s[i]);
        if s[i] != '\n' {
            lemma_next_newline_shift(pre, s, i + 1);
        }
    }
}

proof fn lemma_lines_from_shift(pre: Seq<char>, s: Seq<char>, i: int)
    requires
        0 <= i,
    ensures
        lines_from(pre + s, pre.len() + i) == lines_from(s, i),
    decreases s.len() - i,
{
    let t = pre + s;
    if i < s.len() {
        lemma_next_newline_shift(pre, s, i);
        lemma_next_newline_bounds(s, i);
        let j = next_newline(s, i);
        assert(line_between(t, pre.len() + i, pre.len() + j) =~= line_between(s, i, j)) by {
            if j < s.len() && j > i {
                assert(t[pre.len() + j - 1] == s[j - 1]);
            }
        }
        if j < s.len() {
            lemma_lines_from_shift(pre, s, j + 1);
        }
    }
}

/// The lines of a text whose first line is `q`.
proof fn lemma_lines_after_first(q: Seq<char>, rest: Seq<char>)
    requires
        q.len() > 0,
        forall|k: int| 0 <= k < q.len() ==> #[trigger] q[k] != '\n',
        q.last() != '\r',
        rest.len() == 0 || rest[0] == '\n',
    ensures
        lines(q + rest) == seq![q] + lines_from(rest, 1),
{
    let t = q + rest;
    assert forall|k: int| 0 <= k < q.len() implies #[trigger] t[k] != '\n' by {
        assert(t[k] == q[k]);
    }
    if rest.len() > 0 {
        assert(t[q.len() as int] == rest[0]);
    }
    lemma_next_newline_at(t, 0, q.len() as int);
    assert(t[q.len() - 1] == q.last());
    assert(line_between(t, 0, q.len() as int) =~= q);
    if rest.len() > 0 {
        lemma_lines_from_shift(q, rest, 1);
    } else {
        assert(lines_from(rest, 1) =~= Seq::<Seq<char>>::empty());
    }
    assert(lines(t) =~= seq![q] + lines_from(rest, 1));
}

proof fn lemma_trim_keeps_trimmed(s: Seq<char>)
    requires
        s.len() > 0,
        !is_ws(s[0]),
        !is_ws(s.last()),
    ensures
        trim(s) == s,
        trim_start(s) == s,
{
    assert(ws_run(s, 0) == 0);
    assert(s.skip(0) =~= s);
    assert(ws_run_back(s, s.len() as int) == s.len());
    assert(s.take(s.len() as int) =~= s);
}

proof fn lemma_paragraph_from_tail(a: Seq<Seq<char>>, b: Seq<Seq<char>>, k: int, para: Seq<char>, in_fence: bool)
    requires
        0 <= k,
        a.len() == b.len(),
        forall|j: int| k <= j < a.len() ==> a[j] == b[j],
    ensures
        paragraph_from(a, k, para, in_fence) == paragraph_from(b, k, para, in_fence),
    decreases a.len() - k,
{
    if k < a.len() {
        let cleaned = cleaned_line(a[k]);
        let joined = if needs_space(para, cleaned) {
            para + seq![' '] + cleaned
        } else {
            para + cleaned
        };
        lemma_paragraph_from_tail(a, b, k + 1, para, !in_fence);
        lemma_paragraph_from_tail(a, b, k + 1, para, in_fence);
        lemma_paragraph_from_tail(a, b, k + 1, joined, in_fence);
    }
}

/// A list bullet never reaches a summary: a text whose first line is a
/// `-`, `*` or `+` bullet, a space and a line of prose is summarised as the
/// same text with the bullet and its space taken away.
pub proof fn lemma_summary_drops_a_leading_bullet(m: char, p: Seq<char>, rest: Seq<char>, max: nat)
    requires
        m == '-' || m == '*' || m == '+',
        is_prose_line(p),
        rest.len() == 0 || rest[0] == '\n',
    ensures
        summary_of(seq![m, ' '] + p + rest, max) == summary_of(p + rest, max),
{
    let q = seq![m, ' '] + p;
    assert(q[0] == m && q[1] == ' ');
    assert(q.last() == p.last());
    assert(q.skip(2) =~= p);
    assert forall|k: int| 0 <= k < q.len() implies #[trigger] q[k] != '\n' by {
        if k >= 2 {
            assert(q[k] == p[k - 2]);
        }
    }
    lemma_lines_after_first(q, rest);
    lemma_lines_after_first(p, rest);
    lemma_trim_keeps_trimmed(q);
    lemma_trim_keeps_trimmed(p);
    let tail = lines_from(rest, 1);
    let l1 = trimmed_lines(q + rest);
    let l2 = trimmed_lines(p + rest);
    assert(l1.len() == l2.len());
    assert(l1[0] == q);
    assert(l2[0] == p);
    assert forall|j: int| 1 <= j < l1.len() implies l1[j] == l2[j] by {
        assert(lines(q + rest)[j] == tail[j - 1]);
        assert(lines(p + rest)[j] == tail[j - 1]);
    }
    assert(first_nonempty(l1, 0) == 0);
    assert(first_nonempty(l2, 0) == 0);
    // the bulleted line is no heading, break or fence
    assert(run_of(q, '#', 0) == 0);
    assert(heading_text(q) is None);
    assert(!is_rule_char(q[1]));
    assert(!is_block_break(q));
    assert(!starts_fence(q));
    // nor a line of tags and embeds: its bullet stays in what is left
    let d1 = drop_links_from(q, '#', 0);
    assert(d1 == seq![m] + drop_links_from(q, '#', 1));
    assert(d1[0] == m);
    let d2 = drop_links_from(d1, '!', 0);
    assert(d2 == seq![m] + drop_links_from(d1, '!', 1));
    assert(d2[0] == m);
    lemma_trim_len_of_leading(d2);
    assert(!is_meta_line(q));
    // taking the bullet off leaves the prose, which has nothing to take off
    assert(quote_run(q, 0) == 0);
    assert(q.skip(0) =~= q);
    assert(strip_prose_marker(q) == p);
    assert(quote_run(p, 0) == 0);
    assert(p.skip(0) =~= p);
    assert(strip_prose_marker(p) == p);
    assert(cleaned_line(q) == cleaned_line(p));
    let c = cleaned_line(p);
    assert(!needs_space(seq![], c));
    assert(Seq::<char>::empty() + c =~= c);
    lemma_paragraph_from_tail(l1, l2, 1, seq![], false);
    lemma_paragraph_from_tail(l1, l2, 1, c, false);
    assert(paragraph_from(l1, 0, seq![], false) == paragraph_from(l2, 0, seq![], false));
}

proof fn lemma_trim_len_of_leading(s: Seq<char>)
    requires
        s.len() > 0,
        !is_ws(s[0]),
    ensures
        trim(s).len() > 0,
{
    assert(ws_run(s, 0) == 0);
    assert(s.skip(0) =~= s);
    lemma_ws_run_back_bounds(s, s.len() as int);
}

// ----------------------------------------------------------------- exec --

proof fn lemma_run_of_bounds(s: Seq<char>, c: char, i: int)
    requires
        0 <= i <= s.len(),
    ensures
        i <= run_of(s, c, i) <= s.len(),
        run_of(s, c, i) < s.len() ==> s[run_of(s, c, i)] != c,
    decreases s.len() - i,
{
    if i < s.len() && s[i] == c {
        lemma_run_of_bounds(s, c, i + 1);
    }
}

fn run_len(s: &[char], c: char, from: usize) -> (r: usize)
    requires
        from <= s.len(),
    ensures
        r == run_of(s@, c, from as int),
        from <= r <= s.len(),
{
    proof {
        lemma_run_of_bounds(s@, c, from as int);
    }
    let mut i = from;
    while i < s.len() && s[i] == c
        invariant
            from <= i <= s.len(),
            run_of(s@, c, i as int) == run_of(s@, c, from as int),
        decreases s.len() - i,
    {
        i += 1;
    }
    i
}

pub(crate) fn heading_text_of(line: &[char]) -> (r: Option<Vec<char>>)
    ensures
        r matches Some(t) ==> heading_text(line@) == Some(t@),
        r is None ==> heading_text(line@) is None,
{
    let k = run_len(line, '#', 0);
    if 1 <= k && k <= 6 && k < line.len() && is_whitespace(line[k]) {
        let rest = slice_to_vec(line, k, line.len());
        assert(rest@ =~= line@.skip(k as int));
        let t = trim_vec(rest.as_slice());
        if t.len() == 0 {
            None
        } else {
            Some(t)
        }
    } else {
        None
    }
}

fn is_block_break_line(line: &[char]) -> (r: bool)
    ensures
        r == is_block_break(line@),
{
    let h = heading_text_of(line);
    if h.is_some() {
        return true;
    }
    if line.len() < 3 {
        return false;
    }
    let mut i: usize = 0;
    while i < line.len()
        invariant
            i <= line.len(),
            heading_text(line@) is None,
            forall|k: int| 0 <= k < i ==> is_rule_char(#[trigger] line@[k]),
        decreases line.len() - i,
    {
        if !(line[i] == '-' || line[i] == '*' || line[i] == '_') {
            assert(!is_rule_char(line@[i as int]));
            return false;
        }
        i += 1;
    }
    true
}

fn drop_links(c: &[char], p: char) -> (r: Vec<char>)
    ensures
        r@ == drop_links_from(c@, p, 0),
{
    let mut out: Vec<char> = Vec::new();
    let mut i: usize = 0;
    while i < c.len()
        invariant
            i <= c.len(),
            out@ + drop_links_from(c@, p, i as int) == drop_links_from(c@, p, 0),
        decreases c.len() - i,
    {
        if c[i] == p && c.len() - i >= 3 && c[i + 1] == '[' && c[i + 2] == '[' {
            match find_close_exec(c, i + 3) {
                Some(end) => {
                    proof {
                        lemma_find_close_bounds(c@, i + 3);
                    }
                    assert(drop_links_from(c@, p, i as int) == drop_links_from(c@, p, end + 2));
                    i = end + 2;
                    continue ;
                },
                None => {},
            }
        }
        let ghost before = out@;
        out.push(c[i]);
        assert(drop_links_from(c@, p, i as int) == seq![c@[i as int]] + drop_links_from(
            c@,
            p,
            i + 1,
        ));
        assert(out@ + drop_links_from(c@, p, i + 1) =~= before + drop_links_from(c@, p, i as int));
        i += 1;
    }
    assert(drop_links_from(c@, p, i as int) =~= Seq::<char>::empty());
    assert(out@ =~= out@ + drop_links_from(c@, p, i as int));
    out
}

fn is_meta(line: &[char]) -> (r: bool)
    ensures
        r == is_meta_line(line@),
{
    let a = drop_links(line, '#');
    let b = drop_links(a.as_slice(), '!');
    let t = trim_vec(b.as_slice());
    t.len() == 0
}

proof fn lemma_quote_run_bounds(s: Seq<char>, i: int)
    requires
        0 <= i <= s.len(),
    ensures
        i <= quote_run(s, i) <= s.len(),
    decreases s.len() - i,
{
    if i < s.len() && (s[i] == '>' || s[i] == ' ') {
        lemma_quote_run_bounds(s, i + 1);
    }
}

fn strip_marker(line: &[char]) -> (r: Vec<char>)
    ensures
        r@ == strip_prose_marker(line@),
{
    let mut i: usize = 0;
    while i < line.len() && (line[i] == '>' || line[i] == ' ')
        invariant
            i <= line.len(),
            quote_run(line@, i as int) == quote_run(line@, 0),
        decreases line.len() - i,
    {
        i += 1;
    }
    proof {
        lemma_quote_run_bounds(line@, 0);
    }
    let rest = slice_to_vec(line, i, line.len());
    assert(rest@ =~= line@.skip(quote_run(line@, 0)));
    if rest.len() >= 2 && (rest[0] == '-' || rest[0] == '*' || rest[0] == '+') && rest[1] == ' ' {
        let after = slice_to_vec(rest.as_slice(), 2, rest.len());
        assert(after@ =~= rest@.skip(2));
        trim_start_vec(after.as_slice())
    } else {
        rest
    }
}

fn remove_pairs(s: &[char], x: char) -> (r: Vec<char>)
    ensures
        r@ == remove_pairs_from(s@, x, 0),
{
    let mut out: Vec<char> = Vec::new();
    let mut i: usize = 0;
    while i < s.len()
        invariant
            i <= s.len(),
            out@ + remove_pairs_from(s@, x, i as int) == remove_pairs_from(s@, x, 0),
        decreases s.len() - i,
    {
        if i + 1 < s.len() && s[i] == x && s[i + 1] == x {
            i = i + 2;
        } else {
            let ghost before = out@;
            out.push(s[i]);
            assert(out@ + remove_pairs_from(s@, x, i + 1) =~= before + remove_pairs_from(
                s@,
                x,
                i as int,
            ));
            i += 1;
        }
    }
    assert(out@ + remove_pairs_from(s@, x, i as int) =~= out@);
    out
}

fn remove_char(s: &[char], x: char) -> (r: Vec<char>)
    ensures
        r@ == remove_char_from(s@, x, 0),
{
    let mut out: Vec<char> = Vec::new();
    let mut i: usize = 0;
    while i < s.len()
        invariant
            i <= s.len(),
            out@ + remove_char_from(s@, x, i as int) == remove_char_from(s@, x, 0),
        decreases s.len() - i,
    {
        if s[i] != x {
            let ghost before = out@;
            out.push(s[i]);
            assert(out@ + remove_char_from(s@, x, i + 1) =~= before + remove_char_from(
                s@,
                x,
                i as int,
            ));
        }
        i += 1;
    }
    assert(out@ + remove_char_from(s@, x, i as int) =~= out@);
    out
}

fn render_wiki(c: &[char]) -> (r: Vec<char>)
    ensures
        r@ == render_wiki_from(c@, 0),
{
    let mut out: Vec<char> = Vec::new();
    let mut i: usize = 0;
    while i < c.len()
        invariant
            i <= c.len(),
            out@ + render_wiki_from(c@, i as int) == render_wiki_from(c@, 0),
        decreases c.len() - i,
    {
        let marker: Option<char> = if c.len() - i >= 3 && c[i + 1] == '[' && c[i + 2] == '[' && (
        c[i] == '#' || c[i] == '!') {
            Some(c[i])
        } else {
            None
        };
        assert(marker == marker_at(c@, i as int));
        let opens = marker.is_some() || (c.len() - i >= 2 && c[i] == '[' && c[i + 1] == '[');
        let mut advanced = false;
        if opens {
            let start = if marker.is_some() {
                i + 3
            } else {
                i + 2
            };
            match find_close_exec(c, start) {
                Some(end) => {
                    proof {
                        lemma_find_close_bounds(c@, start as int);
                    }
                    let inner = slice_to_vec(c, start, end);
                    let piece = if marker == Some('#') {
                        let t = trim_vec(inner.as_slice());
                        let mut v = vec!['#'];
                        append_range(&mut v, t.as_slice(), 0, t.len());
                        assert(t@.subrange(0, t@.len() as int) =~= t@);
                        v
                    } else {
                        let a = after_last_bar_vec(inner.as_slice());
                        trim_vec(a.as_slice())
                    };
                    assert(piece@ == wiki_piece(marker_at(c@, i as int), c@.subrange(
                        start as int,
                        end as int,
                    )));
                    let ghost before = out@;
                    append_range(&mut out, piece.as_slice(), 0, piece.len());
                    assert(piece@.subrange(0, piece@.len() as int) =~= piece@);
                    assert(render_wiki_from(c@, i as int) == piece@ + render_wiki_from(
                        c@,
                        end + 2,
                    ));
                    assert(out@ + render_wiki_from(c@, end + 2) =~= before + render_wiki_from(
                        c@,
                        i as int,
                    ));
                    i = end + 2;
                    advanced = true;
                },
                None => {},
            }
        }
        if !advanced {
            let ghost before = out@;
            out.push(c[i]);
            assert(render_wiki_from(c@, i as int) == seq![c@[i as int]] + render_wiki_from(
                c@,
                i + 1,
            ));
            assert(out@ + render_wiki_from(c@, i + 1) =~= before + render_wiki_from(
                c@,
                i as int,
            ));
            i += 1;
        }
    }
    assert(out@ + render_wiki_from(c@, i as int) =~= out@);
    out
}

fn clean_line(line: &[char]) -> (r: Vec<char>)
    ensures
        r@ == clean(line@),
{
    let a = remove_pairs(line, '*');
    let b = remove_pairs(a.as_slice(), '_');
    let c = remove_char(b.as_slice(), '`');
    let d = render_wiki(c.as_slice());
    collapse_whitespace(d.as_slice())
}

fn is_ascii(c: char) -> (r: bool)
    ensures
        r == is_ascii_char(c),
{
    (c as u32) < 128
}

fn is_fence(line: &[char]) -> (r: bool)
    ensures
        r == starts_fence(line@),
{
    line.len() >= 3 && ((line[0] == '`' && line[1] == '`' && line[2] == '`') || (line[0] == '~'
        && line[1] == '~' && line[2] == '~'))
}

fn cleaned(line: &[char]) -> (r: Vec<char>)
    ensures
        r@ == cleaned_line(line@),
{
    if line.len() == 0 || is_block_break_line(line) || is_meta(line) {
        Vec::new()
    } else {
        let m = strip_marker(line);
        clean_line(m.as_slice())
    }
}

fn first_paragraph(ls: &Vec<Vec<char>>, from: usize) -> (r: Vec<char>)
    requires
        from <= ls.len(),
    ensures
        r@ == paragraph_from(ls@.map_values(|l: Vec<char>| l@), from as int, seq![], false),
{
    let ghost lv = ls@.map_values(|l: Vec<char>| l@);
    let mut para: Vec<char> = Vec::new();
    let mut in_fence = false;
    let mut k = from;
    while k < ls.len()
        invariant
            from <= k <= ls.len(),
            lv == ls@.map_values(|l: Vec<char>| l@),
            paragraph_from(lv, k as int, para@, in_fence) == paragraph_from(
                lv,
                from as int,
                seq![],
                false,
            ),
        decreases ls.len() - k,
    {
        let line = &ls[k];
        assert(lv[k as int] == line@);
        if is_fence(line.as_slice()) {
            in_fence = !in_fence;
            k += 1;
            continue ;
        }
        if in_fence {
            k += 1;
            continue ;
        }
        let c = cleaned(line.as_slice());
        if c.len() == 0 {
            if para.len() == 0 {
                k += 1;
                continue ;
            }
            return para;
        }
        let ghost old_para = para@;
        let ghost joined = if needs_space(old_para, c@) {
            old_para + seq![' '] + c@
        } else {
            old_para + c@
        };
        assert(paragraph_from(lv, k as int, old_para, in_fence) == paragraph_from(
            lv,
            k + 1,
            joined,
            in_fence,
        ));
        if para.len() > 0 && c.len() > 0 && is_ascii(para[para.len() - 1]) && is_ascii(c[0]) {
            para.push(' ');
        }
        append_range(&mut para, c.as_slice(), 0, c.len());
        assert(c@.subrange(0, c@.len() as int) =~= c@);
        assert(para@ =~= joined);
        k += 1;
    }
    para
}

fn truncate_chars(text: &[char], max: usize) -> (r: Vec<char>)
    ensures
        r@ == truncate(text@, max as nat),
{
    if text.len() <= max {
        slice_to_vec(text, 0, text.len())
    } else {
        let head = slice_to_vec(text, 0, max);
        assert(head@ =~= text@.take(max as int));
        let mut t = trim_end_vec(head.as_slice());
        t.push('…');
        t
    }
}

impl Summary {
    /// The summary of a markdown body, cut to `max_chars` characters: the
    /// leading heading when there is one, else the first paragraph of prose.
    /// `None` when there is no such text.
    pub fn from_md_text(md_text: &str, max_chars: usize) -> (r: Option<Summary>)
        ensures
            r matches Some(s) ==> summary_of(md_text@, max_chars as nat) == Some(s@),
            r is None ==> summary_of(md_text@, max_chars as nat) is None,
            md_text@.len() <= usize::MAX,
    {
        let md = chars_of(md_text);
        assert(md@.len() == md.len());
        let raw = split_lines(md.as_slice());
        let ghost rv = raw@.map_values(|l: Vec<char>| l@);
        let mut ls: Vec<Vec<char>> = Vec::new();
        let mut i: usize = 0;
        while i < raw.len()
            invariant
                i <= raw.len(),
                rv == raw@.map_values(|l: Vec<char>| l@),
                ls.len() == i,
                rv.len() == raw.len(),
                forall|j: int| 0 <= j < i ==> (#[trigger] ls@[j])@ == trim(rv[j]),
            decreases raw.len() - i,
        {
            let t = trim_vec(raw[i].as_slice());
            ls.push(t);
            assert(rv[i as int] == raw[i as int]@);
            i += 1;
        }
        let ghost lv = ls@.map_values(|l: Vec<char>| l@);
        assert(lv =~= trimmed_lines(md@));
        let mut f: usize = 0;
        while f < ls.len() && ls[f].len() == 0
            invariant
                f <= ls.len(),
                lv == ls@.map_values(|l: Vec<char>| l@),
                first_nonempty(lv, f as int) == first_nonempty(lv, 0),
            decreases ls.len() - f,
        {
            assert(lv[f as int] == ls[f as int]@);
            f += 1;
        }
        if f >= ls.len() {
            return None;
        }
        assert(lv[f as int] == ls[f as int]@);
        let text = match heading_text_of(ls[f].as_slice()) {
            Some(expanded) => clean_line(expanded.as_slice()),
            None => first_paragraph(&ls, f),
        };
        let t = truncate_chars(text.as_slice(), max_chars);
        if t.len() == 0 {
            None
        } else {
            Some(Summary(string_of(t.as_slice())))
        }
    }

    /// The summary text.
    pub fn as_str(&self) -> (r: &str)
        ensures
            r@ == self@,
    {
        self.0.as_str()
    }
}

} // verus!
