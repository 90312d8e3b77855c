//! Character-sequence operations with the meaning std gives them on strings:
//! whitespace, trimming, line splitting and whitespace-collapsing.

use vstd::prelude::*;

verus! {

/// `char::is_whitespace`: the Unicode `White_Space` property.
pub open spec fn is_ws(c: char) -> bool {
    ||| c == ' '
    ||| ('\t' <= c && c <= '\r')
    ||| c == '\u{85}'
    ||| c == '\u{A0}'
    ||| c == '\u{1680}'
    ||| ('\u{2000}' <= c && c <= '\u{200A}')
    ||| c == '\u{2028}'
    ||| c == '\u{2029}'
    ||| c == '\u{202F}'
    ||| c == '\u{205F}'
    ||| c == '\u{3000}'
}

pub fn is_whitespace(c: char) -> (r: bool)
    ensures
        r == is_ws(c),
{
    c == ' ' || ('\t' <= c && c <= '\r') || c == '\u{85}' || c == '\u{A0}' || c == '\u{1680}' || (
    '\u{2000}' <= c && c <= '\u{200A}') || c == '\u{2028}' || c == '\u{2029}' || c == '\u{202F}'
        || c == '\u{205F}' || c == '\u{3000}'
}

/// The first index at or after `i` that is not whitespace (or the length).
pub open spec fn ws_run(s: Seq<char>, i: int) -> int
    decreases s.len() - i,
{
    if 0 <= i < s.len() && is_ws(s[i]) {
        ws_run(s, i + 1)
    } else {
        i
    }
}

/// The end of the text left once whitespace before `j` is dropped.
pub open spec fn ws_run_back(s: Seq<char>, j: int) -> int
    decreases j,
{
    if 0 < j <= s.len() && is_ws(s[j - 1]) {
        ws_run_back(s, j - 1)
    } else {
        j
    }
}

pub proof fn lemma_ws_run_bounds(s: Seq<char>, i: int)
    requires
        0 <= i <= s.len(),
    ensures
        i <= ws_run(s, i) <= s.len(),
        ws_run(s, i) < s.len() ==> !is_ws(s[ws_run(s, i)]),
        forall|k: int| i <= k < ws_run(s, i) ==> is_ws(#[trigger] s[k]),
    decreases s.len() - i,
{
    if i < s.len() && is_ws(s[i]) {
        lemma_ws_run_bounds(s, i + 1);
    }
}

pub proof fn lemma_ws_run_back_bounds(s: Seq<char>, j: int)
    requires
        0 <= j <= s.len(),
    ensures
        0 <= ws_run_back(s, j) <= j,
        ws_run_back(s, j) > 0 ==> !is_ws(s[ws_run_back(s, j) - 1]),
        forall|k: int| ws_run_back(s, j) <= k < j ==> is_ws(#[trigger] s[k]),
    decreases j,
{
    if 0 < j && is_ws(s[j - 1]) {
        lemma_ws_run_back_bounds(s, j - 1);
    }
}

/// `str::trim_start`.
pub open spec fn trim_start(s: Seq<char>) -> Seq<char> {
    s.skip(ws_run(s, 0))
}

/// `str::trim_end`.
pub open spec fn trim_end(s: Seq<char>) -> Seq<char> {
    s.take(ws_run_back(s, s.len() as int))
}

/// `str::trim`.
pub open spec fn trim(s: Seq<char>) -> Seq<char> {
    trim_end(trim_start(s))
}

/// Index of the first non-whitespace character at or after `from`.
pub fn skip_ws(s: &[char], from: usize) -> (r: usize)
    requires
        from <= s.len(),
    ensures
        r == ws_run(s@, from as int),
{
    let mut i = from;
    while i < s.len() && is_whitespace(s[i])
        invariant
            from <= i <= s.len(),
            ws_run(s@, i as int) == ws_run(s@, from as int),
        decreases s.len() - i,
    {
        i += 1;
    }
    i
}

/// Length of `s[..to]` once trailing whitespace is dropped.
pub fn skip_ws_back(s: &[char], to: usize) -> (r: usize)
    requires
        to <= s.len(),
    ensures
        r == ws_run_back(s@, to as int),
{
    let mut j = to;
    while j > 0 && is_whitespace(s[j - 1])
        invariant
            j <= to <= s.len(),
            ws_run_back(s@, j as int) == ws_run_back(s@, to as int),
        decreases j,
    {
        j -= 1;
    }
    j
}

pub fn slice_to_vec(s: &[char], from: usize, to: usize) -> (r: Vec<char>)
    requires
        from <= to <= s.len(),
    ensures
        r@ == s@.subrange(from as int, to as int),
{
    let mut r: Vec<char> = Vec::new();
    let mut i = from;
    while i < to
        invariant
            from <= i <= to <= s.len(),
            r@ == s@.subrange(from as int, i as int),
        decreases to - i,
    {
        r.push(s[i]);
        assert(s@.subrange(from as int, i as int).push(s@[i as int]) =~= s@.subrange(
            from as int,
            i + 1,
        ));
        i += 1;
    }
    r
}

pub fn trim_start_vec(s: &[char]) -> (r: Vec<char>)
    ensures
        r@ == trim_start(s@),
{
    let i = skip_ws(s, 0);
    proof {
        lemma_ws_run_bounds(s@, 0);
    }
    let r = slice_to_vec(s, i, s.len());
    assert(r@ =~= trim_start(s@));
    r
}

pub fn trim_end_vec(s: &[char]) -> (r: Vec<char>)
    ensures
        r@ == trim_end(s@),
{
    let j = skip_ws_back(s, s.len());
    proof {
        lemma_ws_run_back_bounds(s@, s@.len() as int);
    }
    let r = slice_to_vec(s, 0, j);
    assert(r@ =~= trim_end(s@));
    r
}

pub fn trim_vec(s: &[char]) -> (r: Vec<char>)
    ensures
        r@ == trim(s@),
{
    let t = trim_start_vec(s);
    trim_end_vec(t.as_slice())
}

/// Index of the first `'\n'` at or after `i` (or the length).
pub open spec fn next_newline(s: Seq<char>, i: int) -> int
    decreases s.len() - i,
{
    if i < 0 || i >= s.len() {
        s.len() as int
    } else if s[i] == '\n' {
        i
    } else {
        next_newline(s, i + 1)
    }
}

pub proof fn lemma_next_newline_bounds(s: Seq<char>, i: int)
    requires
        0 <= i <= s.len(),
    ensures
        i <= next_newline(s, i) <= s.len(),
        next_newline(s, i) < s.len() ==> s[next_newline(s, i)] == '\n',
    decreases s.len() - i,
{
    if i < s.len() && s[i] != '\n' {
        lemma_next_newline_bounds(s, i + 1);
    }
}

/// One line: the text from `i` up to the newline at `j`, without the `'\r'`
/// of a CRLF ending.
pub open spec fn line_between(s: Seq<char>, i: int, j: int) -> Seq<char> {
    if j < s.len() && j > i && s[j - 1] == '\r' {
        s.subrange(i, j - 1)
    } else {
        s.subrange(i, j)
    }
}

/// `str::lines` of the text from index `i` on: split at `'\n'`, a CRLF
/// ending counting as one, the final line ending optional.
pub open spec fn lines_from(s: Seq<char>, i: int) -> Seq<Seq<char>>
    decreases s.len() - i,
{
    if i < 0 || i >= s.len() {
        seq![]
    } else {
        let j = next_newline(s, i);
        if j < i {
            seq![]
        } else if j >= s.len() {
            seq![line_between(s, i, j)]
        } else {
            seq![line_between(s, i, j)] + lines_from(s, j + 1)
        }
    }
}

/// `str::lines`.
pub open spec fn lines(s: Seq<char>) -> Seq<Seq<char>> {
    lines_from(s, 0)
}

/// The lines of `s`, as `str::lines` splits them.
pub fn split_lines(s: &[char]) -> (r: Vec<Vec<char>>)
    ensures
        r@.map_values(|l: Vec<char>| l@) == lines(s@),
{
    let mut r: Vec<Vec<char>> = Vec::new();
    let mut i: usize = 0;
    while i < s.len()
        invariant
            i <= s.len(),
            r@.map_values(|l: Vec<char>| l@) + lines_from(s@, i as int) == lines(s@),
        decreases s.len() - i,
    {
        let mut j = i;
        while j < s.len() && s[j] != '\n'
            invariant
                i <= j <= s.len(),
                next_newline(s@, j as int) == next_newline(s@, i as int),
            decreases s.len() - j,
        {
            j += 1;
        }
        let end = if j < s.len() && j > i && s[j - 1] == '\r' {
            j - 1
        } else {
            j
        };
        let line = slice_to_vec(s, i, end);
        let ghost old_r = r@;
        r.push(line);
        assert(r@.map_values(|l: Vec<char>| l@) =~= old_r.map_values(|l: Vec<char>| l@).push(
            line_between(s@, i as int, j as int),
        ));
        if j < s.len() {
            assert(lines_from(s@, i as int) =~= seq![line_between(s@, i as int, j as int)]
                + lines_from(s@, j + 1));
            i = j + 1;
        } else {
            assert(lines_from(s@, i as int) =~= seq![line_between(s@, i as int, j as int)]);
            i = j;
            assert(lines_from(s@, i as int) =~= Seq::<Seq<char>>::empty());
        }
    }
    assert(lines_from(s@, i as int) =~= Seq::<Seq<char>>::empty());
    assert(r@.map_values(|l: Vec<char>| l@) =~= lines(s@));
    r
}

/// The first whitespace index at or after `i` (or the length).
pub open spec fn word_end(s: Seq<char>, i: int) -> int
    decreases s.len() - i,
{
    if 0 <= i < s.len() && !is_ws(s[i]) {
        word_end(s, i + 1)
    } else {
        i
    }
}

pub proof fn lemma_word_end_bounds(s: Seq<char>, i: int)
    requires
        0 <= i <= s.len(),
    ensures
        i <= word_end(s, i) <= s.len(),
        forall|k: int| i <= k < word_end(s, i) ==> !is_ws(#[trigger] s[k]),
    decreases s.len() - i,
{
    if i < s.len() && !is_ws(s[i]) {
        lemma_word_end_bounds(s, i + 1);
    }
}

/// `str::split_whitespace` of the text from index `i` on.
pub open spec fn words_from(s: Seq<char>, i: int) -> Seq<Seq<char>>
    decreases s.len() - i,
{
    let j = ws_run(s, i);
    if i < 0 || j < i || j >= s.len() {
        seq![]
    } else {
        let k = word_end(s, j);
        if k <= j || k > s.len() {
            seq![]
        } else {
            seq![s.subrange(j, k)] + words_from(s, k)
        }
    }
}

/// The words joined by single spaces (`[..].join(" ")`).
pub open spec fn join_words(ws: Seq<Seq<char>>) -> Seq<char>
    decreases ws.len(),
{
    if ws.len() == 0 {
        seq![]
    } else if ws.len() == 1 {
        ws[0]
    } else {
        join_words(ws.drop_last()) + seq![' '] + ws.last()
    }
}

/// `split_whitespace().collect::<Vec<_>>().join(" ")`: every run of
/// whitespace becomes one space, none is left at either end.
pub open spec fn collapse_ws(s: Seq<char>) -> Seq<char> {
    join_words(words_from(s, 0))
}

pub fn append_range(out: &mut Vec<char>, s: &[char], from: usize, to: usize)
    requires
        from <= to <= s.len(),
    ensures
        final(out)@ == old(out)@ + s@.subrange(from as int, to as int),
{
    let mut i = from;
    while i < to
        invariant
            from <= i <= to <= s.len(),
            out@ == old(out)@ + s@.subrange(from as int, i as int),
        decreases to - i,
    {
        out.push(s[i]);
        assert(old(out)@ + s@.subrange(from as int, i + 1) =~= old(out)@ + s@.subrange(
            from as int,
            i as int,
        ) + seq![s@[i as int]]);
        i += 1;
    }
}

pub fn collapse_whitespace(s: &[char]) -> (r: Vec<char>)
    ensures
        r@ == collapse_ws(s@),
{
    let mut out: Vec<char> = Vec::new();
    let mut i: usize = 0;
    let mut first = true;
    let ghost mut done: Seq<Seq<char>> = seq![];
    loop
        invariant
            i <= s.len(),
            words_from(s@, 0) == done + words_from(s@, i as int),
            out@ == join_words(done),
            first == (done.len() == 0),
        ensures
            out@ == collapse_ws(s@),
        decreases s.len() - i,
    {
        let j = skip_ws(s, i);
        proof {
            lemma_ws_run_bounds(s@, i as int);
        }
        if j >= s.len() {
            assert(words_from(s@, i as int) =~= Seq::<Seq<char>>::empty());
            assert(done + words_from(s@, i as int) =~= done);
            assert(done =~= words_from(s@, 0));
            break;
        }
        let mut k = j;
        while k < s.len() && !is_whitespace(s[k])
            invariant
                j <= k <= s.len(),
                word_end(s@, k as int) == word_end(s@, j as int),
            decreases s.len() - k,
        {
            k += 1;
        }
        proof {
            lemma_word_end_bounds(s@, j as int);
        }
        let ghost w = s@.subrange(j as int, k as int);
        assert(words_from(s@, i as int) == seq![w] + words_from(s@, k as int));
        if !first {
            out.push(' ');
        }
        append_range(&mut out, s, j, k);
        proof {
            let nd = done.push(w);
            assert(nd.drop_last() =~= done);
            assert(done + words_from(s@, i as int) =~= nd + words_from(s@, k as int));
            if done.len() == 0 {
                assert(out@ =~= join_words(nd));
            } else {
                assert(out@ =~= join_words(nd));
            }
            done = nd;
        }
        first = false;
        i = k;
    }
    out
}

/// The first `]]` starting at or after `i`, as in `(i..len - 1).find(..)`.
pub open spec fn find_close(c: Seq<char>, i: int) -> Option<int>
    decreases c.len() - i,
{
    if i < 0 || i + 1 >= c.len() {
        None
    } else if c[i] == ']' && c[i + 1] == ']' {
        Some(i)
    } else {
        find_close(c, i + 1)
    }
}

pub proof fn lemma_find_close_bounds(c: Seq<char>, i: int)
    requires
        0 <= i,
    ensures
        find_close(c, i) matches Some(e) ==> i <= e && e + 1 < c.len() && c[e] == ']' && c[e
            + 1] == ']',
    decreases c.len() - i,
{
    if i + 1 < c.len() && !(c[i] == ']' && c[i + 1] == ']') {
        lemma_find_close_bounds(c, i + 1);
    }
}

pub fn find_close_exec(c: &[char], from: usize) -> (r: Option<usize>)
    ensures
        r matches Some(e) ==> find_close(c@, from as int) == Some(e as int),
        r is None ==> find_close(c@, from as int) is None,
{
    let mut i = from;
    while i < c.len() && i + 1 < c.len()
        invariant
            from <= i,
            find_close(c@, i as int) == find_close(c@, from as int),
        decreases c.len() - i,
    {
        if c[i] == ']' && c[i + 1] == ']' {
            return Some(i);
        }
        i += 1;
    }
    None
}

/// Index of the last `'|'` before `j`, or -1.
pub open spec fn last_bar(s: Seq<char>, j: int) -> int
    decreases j,
{
    if j <= 0 || j > s.len() {
        -1
    } else if s[j - 1] == '|' {
        j - 1
    } else {
        last_bar(s, j - 1)
    }
}

/// `s.rsplit('|').next()`: the text after the last `'|'`, all of it without one.
pub open spec fn after_last_bar(s: Seq<char>) -> Seq<char> {
    s.skip(last_bar(s, s.len() as int) + 1)
}

pub proof fn lemma_last_bar_bounds(s: Seq<char>, j: int)
    requires
        0 <= j <= s.len(),
    ensures
        -1 <= last_bar(s, j) < j,
    decreases j,
{
    if j > 0 && s[j - 1] != '|' {
        lemma_last_bar_bounds(s, j - 1);
    }
}

pub fn after_last_bar_vec(s: &[char]) -> (r: Vec<char>)
    ensures
        r@ == after_last_bar(s@),
{
    let mut j = s.len();
    while j > 0 && s[j - 1] != '|'
        invariant
            j <= s.len(),
            last_bar(s@, j as int) == last_bar(s@, s.len() as int),
        decreases j,
    {
        j -= 1;
    }
    proof {
        lemma_last_bar_bounds(s@, s.len() as int);
    }
    let r = slice_to_vec(s, j, s.len());
    assert(r@ =~= after_last_bar(s@));
    r
}

} // verus!
