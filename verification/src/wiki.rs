//! The wiki syntax of scrap bodies: `[[link]]`, `![[embed]]` and `#[[tag]]`
//! references, with `ctx/title`, `#heading` and `|alias` parts, and the
//! headings of the markdown.

use vstd::prelude::*;

use crate::model::{KeyV, RefKind, RefV, ScrapKey, WikiRef};
use crate::summary::{heading_text, heading_text_of};
use crate::text::string_of;
use crate::textops::{find_close, find_close_exec, lemma_find_close_bounds, lines, slice_to_vec, split_lines, trim, trim_vec};

verus! {

/// The marker of a prefixed wiki link starting at `i` (`#[[` or `![[`).
pub open spec fn marker_at(c: Seq<char>, i: int) -> Option<char> {
    if 0 <= i && i + 3 <= c.len() && c[i + 1] == '[' && c[i + 2] == '[' && (c[i] == '#' || c[i]
        == '!') {
        Some(c[i])
    } else {
        None
    }
}

/// Whether wiki syntax opens at `i`: `#[[`, `![[` or `[[`.
pub open spec fn opens_at(c: Seq<char>, i: int) -> bool {
    marker_at(c, i) is Some || (0 <= i && i + 2 <= c.len() && c[i] == '[' && c[i + 1] == '[')
}

/// Index of the first `c` at or after `i` (or the length).
pub open spec fn first_of(s: Seq<char>, c: char, i: int) -> int
    decreases s.len() - i,
{
    if i < 0 || i >= s.len() {
        s.len() as int
    } else if s[i] == c {
        i
    } else {
        first_of(s, c, i + 1)
    }
}

/// Index of the last `c` before `j`, or -1.
pub open spec fn last_of(s: Seq<char>, c: char, j: int) -> int
    decreases j,
{
    if j <= 0 || j > s.len() {
        -1
    } else if s[j - 1] == c {
        j - 1
    } else {
        last_of(s, c, j - 1)
    }
}

/// The text before the first `c` (all of it without one).
pub open spec fn before_first(s: Seq<char>, c: char) -> Seq<char> {
    s.take(first_of(s, c, 0))
}

/// The text after the first `c`, when there is one.
pub open spec fn after_first(s: Seq<char>, c: char) -> Option<Seq<char>> {
    if first_of(s, c, 0) < s.len() {
        Some(s.skip(first_of(s, c, 0) + 1))
    } else {
        None
    }
}

/// The key a `ctx/title` path names: the text after the last `/` is the
/// title, the text before it the context.
pub open spec fn key_of_path(path: Seq<char>) -> KeyV {
    let k = last_of(path, '/', path.len() as int);
    if k < 0 {
        KeyV { ctx: None, title: path }
    } else {
        KeyV { ctx: Some(path.take(k)), title: path.skip(k + 1) }
    }
}

/// The reference a closed wiki construct makes. The alias after `|` is only
/// display text; a tag's path is its title.
pub open spec fn ref_of(marker: Option<char>, inner: Seq<char>) -> RefV {
    let target = before_first(inner, '|');
    if marker == Some('#') {
        RefV { kind: RefKind::Tag, key: KeyV { ctx: None, title: target }, heading: None }
    } else {
        let kind = if marker == Some('!') {
            RefKind::Embed
        } else {
            RefKind::Link
        };
        RefV {
            kind,
            key: key_of_path(before_first(target, '#')),
            heading: after_first(target, '#'),
        }
    }
}

/// The wiki references of `c` from index `i` on, in order.
pub open spec fn refs_from(c: Seq<char>, i: int) -> Seq<RefV>
    decreases c.len() - i,
{
    if i < 0 || i >= c.len() {
        seq![]
    } else if !opens_at(c, i) {
        refs_from(c, i + 1)
    } else {
        let start = if marker_at(c, i) is Some {
            i + 3
        } else {
            i + 2
        };
        match find_close(c, start) {
            Some(end) => {
                if end + 2 > i && end + 2 <= c.len() && start <= end {
                    seq![ref_of(marker_at(c, i), c.subrange(start, end))] + refs_from(c, end + 2)
                } else {
                    refs_from(c, i + 1)
                }
            },
            None => refs_from(c, i + 1),
        }
    }
}

/// The wiki references of a markdown text, in order.
pub open spec fn refs_of(md: Seq<char>) -> Seq<RefV> {
    refs_from(md, 0)
}

/// The heading texts among `ls`, in order.
pub open spec fn heading_lines(ls: Seq<Seq<char>>) -> Seq<Seq<char>>
    decreases ls.len(),
{
    if ls.len() == 0 {
        seq![]
    } else {
        let p = heading_lines(ls.drop_last());
        match heading_text(trim(ls.last())) {
            Some(h) => p.push(h),
            None => p,
        }
    }
}

/// The headings of a markdown text (`#` to `######` lines), in order.
pub open spec fn headings_of(md: Seq<char>) -> Seq<Seq<char>> {
    heading_lines(lines(md))
}

proof fn lemma_first_of_bounds(s: Seq<char>, c: char, i: int)
    requires
        0 <= i <= s.len(),
    ensures
        i <= first_of(s, c, i) <= s.len(),
    decreases s.len() - i,
{
    if i < s.len() && s[i] != c {
        lemma_first_of_bounds(s, c, i + 1);
    }
}

proof fn lemma_last_of_bounds(s: Seq<char>, c: char, j: int)
    requires
        0 <= j <= s.len(),
    ensures
        -1 <= last_of(s, c, j) < j,
    decreases j,
{
    if j > 0 && s[j - 1] != c {
        lemma_last_of_bounds(s, c, j - 1);
    }
}

fn first_index(s: &[char], c: char) -> (r: usize)
    ensures
        r == first_of(s@, c, 0),
        r <= s.len(),
{
    proof {
        lemma_first_of_bounds(s@, c, 0);
    }
    let mut i: usize = 0;
    while i < s.len() && s[i] != c
        invariant
            i <= s.len(),
            first_of(s@, c, i as int) == first_of(s@, c, 0),
        decreases s.len() - i,
    {
        i += 1;
    }
    i
}

fn key_from_path(path: &[char]) -> (r: ScrapKey)
    ensures
        r@ == key_of_path(path@),
{
    let mut j = path.len();
    while j > 0 && path[j - 1] != '/'
        invariant
            j <= path.len(),
            last_of(path@, '/', j as int) == last_of(path@, '/', path.len() as int),
        decreases j,
    {
        j -= 1;
    }
    proof {
        lemma_last_of_bounds(path@, '/', path.len() as int);
    }
    if j == 0 {
        let t = slice_to_vec(path, 0, path.len());
        assert(t@ =~= path@);
        ScrapKey { title: string_of(t.as_slice()), ctx: None }
    } else {
        let c = slice_to_vec(path, 0, j - 1);
        let t = slice_to_vec(path, j, path.len());
        assert(c@ =~= path@.take(j - 1));
        assert(t@ =~= path@.skip(j as int));
        let r = ScrapKey { title: string_of(t.as_slice()), ctx: Some(string_of(c.as_slice())) };
        assert(r@ =~= key_of_path(path@));
        r
    }
}

fn ref_from(marker: Option<char>, inner: &[char]) -> (r: WikiRef)
    ensures
        r@ == ref_of(marker, inner@),
{
    let bar = first_index(inner, '|');
    let target = slice_to_vec(inner, 0, bar);
    assert(target@ =~= before_first(inner@, '|'));
    if marker == Some('#') {
        let r = WikiRef {
            kind: RefKind::Tag,
            key: ScrapKey { title: string_of(target.as_slice()), ctx: None },
            heading: None,
        };
        assert(r@ =~= ref_of(marker, inner@));
        r
    } else {
        let kind = if marker == Some('!') {
            RefKind::Embed
        } else {
            RefKind::Link
        };
        let hash = first_index(target.as_slice(), '#');
        let path = slice_to_vec(target.as_slice(), 0, hash);
        assert(path@ =~= before_first(target@, '#'));
        let heading = if hash < target.len() {
            let h = slice_to_vec(target.as_slice(), hash + 1, target.len());
            assert(h@ =~= target@.skip(hash + 1));
            Some(string_of(h.as_slice()))
        } else {
            None
        };
        let r = WikiRef { kind, key: key_from_path(path.as_slice()), heading };
        assert(r@ =~= ref_of(marker, inner@));
        r
    }
}

/// The wiki references of `c`, in order.
pub fn scan_refs(c: &[char]) -> (r: Vec<WikiRef>)
    ensures
        r@.map_values(|w: WikiRef| w@) == refs_of(c@),
{
    let mut out: Vec<WikiRef> = Vec::new();
    let mut i: usize = 0;
    while i < c.len()
        invariant
            i <= c.len(),
            out@.map_values(|w: WikiRef| w@) + refs_from(c@, i as int) == refs_from(c@, 0),
        decreases c.len() - i,
    {
        let marker: Option<char> = if c.len() - i >= 3 && c[i + 1] == '[' && c[i + 2] == '[' && (
        c[i] == '#' || c[i] == '!') {
            Some(c[i])
        } else {
            None
        };
        assert(marker == marker_at(c@, i as int));
        let opens = marker.is_some() || (c.len() - i >= 2 && c[i] == '[' && c[i + 1] == '[');
        let mut advanced = false;
        if opens {
            let start = if marker.is_some() {
                i + 3
            } else {
                i + 2
            };
            match find_close_exec(c, start) {
                Some(end) => {
                    proof {
                        lemma_find_close_bounds(c@, start as int);
                    }
                    let inner = slice_to_vec(c, start, end);
                    let w = ref_from(marker, inner.as_slice());
                    let ghost before = out@.map_values(|w: WikiRef| w@);
                    out.push(w);
                    assert(out@.map_values(|w: WikiRef| w@) =~= before.push(w@));
                    assert(refs_from(c@, i as int) == seq![w@] + refs_from(c@, end + 2));
                    assert(before.push(w@) + refs_from(c@, end + 2) =~= before + refs_from(
                        c@,
                        i as int,
                    ));
                    i = end + 2;
                    advanced = true;
                },
                None => {},
            }
        }
        if !advanced {
            assert(refs_from(c@, i as int) == refs_from(c@, i + 1));
            i += 1;
        }
    }
    assert(out@.map_values(|w: WikiRef| w@) + refs_from(c@, i as int) =~= out@.map_values(
        |w: WikiRef| w@,
    ));
    out
}

/// The headings of a markdown text, in order.
pub fn scan_headings(md: &[char]) -> (r: Vec<String>)
    ensures
        r@.map_values(|h: String| h@) == headings_of(md@),
{
    let ls = split_lines(md);
    let ghost lv = ls@.map_values(|l: Vec<char>| l@);
    let mut out: Vec<String> = Vec::new();
    let mut i: usize = 0;
    while i < ls.len()
        invariant
            i <= ls.len(),
            lv == ls@.map_values(|l: Vec<char>| l@),
            out@.map_values(|h: String| h@) == heading_lines(lv.take(i as int)),
        decreases ls.len() - i,
    {
        let t = trim_vec(ls[i].as_slice());
        assert(lv[i as int] == ls[i as int]@);
        assert(lv.take(i + 1).drop_last() =~= lv.take(i as int));
        assert(lv.take(i + 1).last() == lv[i as int]);
        match heading_text_of(t.as_slice()) {
            Some(h) => {
                let ghost before = out@.map_values(|h: String| h@);
                out.push(string_of(h.as_slice()));
                assert(out@.map_values(|h: String| h@) =~= before.push(h@));
            },
            None => {},
        }
        i += 1;
    }
    assert(lv.take(ls.len() as int) =~= lv);
    out
}

} // verus!
