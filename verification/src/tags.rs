//! Every tag of the wiki: each declared tag and each of its ancestors, once.

use vstd::prelude::*;

use crate::model::{dedup, lemma_dedup_push, contains_string, Scrap, ScrapV, scrap_views, string_views, tags};
use crate::textops::slice_to_vec;
use crate::text::string_of;

verus! {

broadcast use crate::model::lemma_scrap_view;

/// The ancestors of the tag path `t` from index `i` on (the text before each
/// `/`), then `t` itself: `a/b/c` gives `a`, `a/b`, `a/b/c`.
pub open spec fn with_ancestors_from(t: Seq<char>, i: int) -> Seq<Seq<char>>
    decreases t.len() - i,
{
    if i < 0 || i >= t.len() {
        seq![t]
    } else if t[i] == '/' {
        seq![t.take(i)] + with_ancestors_from(t, i + 1)
    } else {
        with_ancestors_from(t, i + 1)
    }
}

pub open spec fn with_ancestors(t: Seq<char>) -> Seq<Seq<char>> {
    with_ancestors_from(t, 0)
}

/// The tags of the given declared tags, each followed by nothing but
/// preceded by its ancestors.
pub open spec fn expand_tags(ts: Seq<Seq<char>>) -> Seq<Seq<char>>
    decreases ts.len(),
{
    if ts.len() == 0 {
        seq![]
    } else {
        expand_tags(ts.drop_last()) + with_ancestors(ts.last())
    }
}

/// Every tag of the scraps with its ancestors, repeats kept, in order.
pub open spec fn wiki_tag_paths(ss: Seq<ScrapV>) -> Seq<Seq<char>>
    decreases ss.len(),
{
    if ss.len() == 0 {
        seq![]
    } else {
        wiki_tag_paths(ss.drop_last()) + expand_tags(tags(ss.last()))
    }
}

/// Every tag of the scraps and every ancestor of one, once each, in order
/// of first appearance.
pub open spec fn wiki_tags(ss: Seq<ScrapV>) -> Seq<Seq<char>> {
    dedup(wiki_tag_paths(ss))
}

/// The tags of a wiki.
#[derive(Debug, Clone, PartialEq, Eq)]
pub struct Tags(Vec<String>);

impl View for Tags {
    type V = Seq<Seq<char>>;

    closed spec fn view(&self) -> Seq<Seq<char>> {
        string_views(self.0@)
    }
}

/// Adds `p` once to `out`, tracking the sequence of additions in `acc`.
fn add_once(out: &mut Vec<String>, p: String, Ghost(acc): Ghost<Seq<Seq<char>>>)
    requires
        string_views(old(out)@) == dedup(acc),
    ensures
        string_views(final(out)@) == dedup(acc.push(p@)),
{
    proof {
        lemma_dedup_push(acc, p@);
    }
    if !contains_string(out, &p) {
        let ghost before = string_views(out@);
        out.push(p);
        assert(string_views(out@) =~= before.push(p@));
    }
}

impl Tags {
    /// Every tag the scraps declare, with its ancestors.
    pub fn new(scraps: &[Scrap]) -> (r: Tags)
        ensures
            r@ == wiki_tags(scrap_views(scraps@)),
            forall|a: Seq<char>| #[trigger] r@.contains(a) <==> declared_or_ancestor(scrap_views(scraps@), a),
            r@.no_duplicates(),
    {
        proof {
            lemma_tags_are_the_declared_with_ancestors(scrap_views(scraps@));
        }
        let ghost sv = scrap_views(scraps@);
        let mut out: Vec<String> = Vec::new();
        let ghost mut acc: Seq<Seq<char>> = seq![];
        let mut i: usize = 0;
        while i < scraps.len()
            invariant
                i <= scraps.len(),
                sv == scrap_views(scraps@),
                acc == wiki_tag_paths(sv.take(i as int)),
                string_views(out@) == dedup(acc),
            decreases scraps.len() - i,
        {
            let s = &scraps[i];
            assert(sv[i as int] == s@);
            assert(sv.take(i + 1).drop_last() =~= sv.take(i as int));
            let ts = s.tags();
            let ghost acc0 = acc;
            let mut j: usize = 0;
            while j < ts.len()
                invariant
                    j <= ts.len(),
                    string_views(ts@) == tags(s@),
                    acc == acc0 + expand_tags(tags(s@).take(j as int)),
                    string_views(out@) == dedup(acc),
                decreases ts.len() - j,
            {
                let t = crate::text::chars_of(ts[j].as_str());
                assert(t@ == tags(s@)[j as int]);
                let ghost acc1 = acc;
                let mut k: usize = 0;
                while k < t.len()
                    invariant
                        k <= t.len(),
                        acc1 + with_ancestors_from(t@, 0) == acc + with_ancestors_from(t@, k as int),
                        string_views(out@) == dedup(acc),
                    decreases t.len() - k,
                {
                    if t[k] == '/' {
                        let a = slice_to_vec(t.as_slice(), 0, k);
                        assert(a@ =~= t@.take(k as int));
                        add_once(&mut out, string_of(a.as_slice()), Ghost(acc));
                        proof {
                            assert(with_ancestors_from(t@, k as int) == seq![t@.take(k as int)]
                                + with_ancestors_from(t@, k + 1));
                            assert(acc + with_ancestors_from(t@, k as int) =~= acc.push(
                                t@.take(k as int),
                            ) + with_ancestors_from(t@, k + 1));
                            acc = acc.push(t@.take(k as int));
                        }
                    }
                    k += 1;
                }
                add_once(&mut out, string_of(t.as_slice()), Ghost(acc));
                proof {
                    assert(with_ancestors_from(t@, k as int) == seq![t@]);
                    assert(acc1 + with_ancestors(t@) =~= acc.push(t@));
                    acc = acc.push(t@);
                    let tj = tags(s@).take(j + 1);
                    assert(tj.drop_last() =~= tags(s@).take(j as int));
                    assert(tj.last() == t@);
                    assert(expand_tags(tj) == expand_tags(tags(s@).take(j as int)) + with_ancestors(
                        t@,
                    ));
                    assert(acc =~= acc0 + expand_tags(tags(s@).take(j + 1)));
                }
                j += 1;
            }
            proof {
                assert(tags(s@).take(ts.len() as int) =~= tags(s@));
                assert(acc =~= wiki_tag_paths(sv.take(i + 1)));
            }
            i += 1;
        }
        assert(sv.take(scraps.len() as int) =~= sv);
        Tags(out)
    }

    /// The tags, in order of first appearance.
    pub fn to_vec(&self) -> (r: Vec<String>)
        ensures
            string_views(r@) == self@,
    {
        crate::model::clone_strings(&self.0)
    }

    pub fn len(&self) -> (r: usize)
        ensures
            r == self@.len(),
    {
        self.0.len()
    }
}

// ------------------------------------------------------------------ laws --

/// `a` is the tag `t` itself or one of its proper ancestors.
pub open spec fn tag_or_ancestor(a: Seq<char>, t: Seq<char>) -> bool {
    a == t || crate::backlinks::is_tag_ancestor(a, t)
}

/// `a` is a tag some scrap of `ss` declares, or a proper ancestor of one.
pub open spec fn declared_or_ancestor(ss: Seq<ScrapV>, a: Seq<char>) -> bool {
    exists|i: int, t: Seq<char>|
        0 <= i < ss.len() && #[trigger] tags(ss[i]).contains(t) && tag_or_ancestor(a, t)
}

proof fn lemma_with_ancestors_from_contains(t: Seq<char>, i: int, a: Seq<char>)
    requires
        0 <= i <= t.len(),
    ensures
        with_ancestors_from(t, i).contains(a) <==> (a == t || exists|j: int|
            i <= j < t.len() && t[j] == '/' && a == #[trigger] t.take(j)),
    decreases t.len() - i,
{
    if i < t.len() {
        lemma_with_ancestors_from_contains(t, i + 1, a);
        let rest = with_ancestors_from(t, i + 1);
        if t[i] == '/' {
            let w = seq![t.take(i)] + rest;
            assert(with_ancestors_from(t, i) == w);
            if w.contains(a) {
                let m = choose|m: int| 0 <= m < w.len() && w[m] == a;
                if m > 0 {
                    assert(rest[m - 1] == a);
                }
            }
            if a == t {
                assert(rest.contains(a));
                let m = choose|m: int| 0 <= m < rest.len() && rest[m] == a;
                assert(w[m + 1] == a);
            }
            if exists|j: int| i <= j < t.len() && t[j] == '/' && a == #[trigger] t.take(j) {
                let j = choose|j: int| i <= j < t.len() && t[j] == '/' && a == #[trigger] t.take(j);
                if j == i {
                    assert(w[0] == a);
                } else {
                    assert(rest.contains(a));
                    let m = choose|m: int| 0 <= m < rest.len() && rest[m] == a;
                    assert(w[m + 1] == a);
                }
            }
        } else {
            if exists|j: int| i <= j < t.len() && t[j] == '/' && a == #[trigger] t.take(j) {
                let j = choose|j: int| i <= j < t.len() && t[j] == '/' && a == #[trigger] t.take(j);
                assert(j != i);
                assert(i + 1 <= j);
            }
        }
    } else {
        assert(with_ancestors_from(t, i) == seq![t]);
        assert(seq![t][0] == t);
        if seq![t].contains(a) {
            let m = choose|m: int| 0 <= m < 1 && seq![t][m] == a;
        }
    }
}

proof fn lemma_with_ancestors_contains(t: Seq<char>, a: Seq<char>)
    ensures
        with_ancestors(t).contains(a) <==> tag_or_ancestor(a, t),
{
    lemma_with_ancestors_from_contains(t, 0, a);
    if crate::backlinks::is_tag_ancestor(a, t) {
        let j = a.len() as int;
        assert(t.take(j) == a);
    }
    if exists|j: int| 0 <= j < t.len() && t[j] == '/' && a == #[trigger] t.take(j) {
        let j = choose|j: int| 0 <= j < t.len() && t[j] == '/' && a == #[trigger] t.take(j);
        assert(a.len() == j);
    }
}

proof fn lemma_concat_contains<A>(x: Seq<A>, y: Seq<A>, a: A)
    ensures
        (x + y).contains(a) <==> (x.contains(a) || y.contains(a)),
{
    if (x + y).contains(a) {
        let m = choose|m: int| 0 <= m < (x + y).len() && (x + y)[m] == a;
        if m >= x.len() {
            assert(y[m - x.len()] == a);
        }
    }
    if x.contains(a) {
        let m = choose|m: int| 0 <= m < x.len() && x[m] == a;
        assert((x + y)[m] == a);
    }
    if y.contains(a) {
        let m = choose|m: int| 0 <= m < y.len() && y[m] == a;
        assert((x + y)[m + x.len()] == a);
    }
}

proof fn lemma_expand_tags_contains(ts: Seq<Seq<char>>, a: Seq<char>)
    ensures
        expand_tags(ts).contains(a) <==> exists|t: Seq<char>| #[trigger] ts.contains(t) && tag_or_ancestor(a, t),
    decreases ts.len(),
{
    if ts.len() > 0 {
        let init = ts.drop_last();
        lemma_expand_tags_contains(init, a);
        lemma_concat_contains(expand_tags(init), with_ancestors(ts.last()), a);
        lemma_with_ancestors_contains(ts.last(), a);
        if exists|t: Seq<char>| #[trigger] ts.contains(t) && tag_or_ancestor(a, t) {
            let t = choose|t: Seq<char>| #[trigger] ts.contains(t) && tag_or_ancestor(a, t);
            let m = choose|m: int| 0 <= m < ts.len() && ts[m] == t;
            if m < ts.len() - 1 {
                assert(init[m] == t);
                assert(init.contains(t));
            }
        }
        if exists|t: Seq<char>| #[trigger] init.contains(t) && tag_or_ancestor(a, t) {
            let t = choose|t: Seq<char>| #[trigger] init.contains(t) && tag_or_ancestor(a, t);
            let m = choose|m: int| 0 <= m < init.len() && init[m] == t;
            assert(ts[m] == t);
            assert(ts.contains(t));
        }
        if tag_or_ancestor(a, ts.last()) {
            assert(ts[ts.len() - 1] == ts.last());
            assert(ts.contains(ts.last()));
        }
    }
}

proof fn lemma_wiki_tag_paths_contains(ss: Seq<ScrapV>, a: Seq<char>)
    ensures
        wiki_tag_paths(ss).contains(a) <==> declared_or_ancestor(ss, a),
    decreases ss.len(),
{
    if ss.len() > 0 {
        let init = ss.drop_last();
        let s = ss.last();
        lemma_wiki_tag_paths_contains(init, a);
        lemma_concat_contains(wiki_tag_paths(init), expand_tags(tags(s)), a);
        lemma_expand_tags_contains(tags(s), a);
        if declared_or_ancestor(ss, a) {
            let (i, t) = choose|i: int, t: Seq<char>|
                0 <= i < ss.len() && #[trigger] tags(ss[i]).contains(t) && tag_or_ancestor(a, t);
            if i < ss.len() - 1 {
                assert(init[i] == ss[i]);
                assert(tags(init[i]).contains(t));
            } else {
                assert(ss[i] == s);
            }
        }
        if declared_or_ancestor(init, a) {
            let (i, t) = choose|i: int, t: Seq<char>|
                0 <= i < init.len() && #[trigger] tags(init[i]).contains(t) && tag_or_ancestor(a, t);
            assert(ss[i] == init[i]);
            assert(tags(ss[i]).contains(t));
        }
        if exists|t: Seq<char>| #[trigger] tags(s).contains(t) && tag_or_ancestor(a, t) {
            let t = choose|t: Seq<char>| #[trigger] tags(s).contains(t) && tag_or_ancestor(a, t);
            assert(ss[ss.len() - 1] == s);
            assert(tags(ss[ss.len() - 1]).contains(t));
        }
    } else {
        assert(!declared_or_ancestor(ss, a));
    }
}

/// The wiki's tags are exactly the tags its scraps declare together with
/// every proper ancestor of each (`a` and `a/b` for a scrap tagged
/// `#[[a/b/c]]`), each listed once.
pub proof fn lemma_tags_are_the_declared_with_ancestors(ss: Seq<ScrapV>)
    ensures
        forall|a: Seq<char>| #[trigger] wiki_tags(ss).contains(a) <==> declared_or_ancestor(ss, a),
        wiki_tags(ss).no_duplicates(),
{
    assert forall|a: Seq<char>| #[trigger] wiki_tags(ss).contains(a) <==> declared_or_ancestor(ss, a) by {
        crate::model::lemma_dedup_contains(wiki_tag_paths(ss), a);
        lemma_wiki_tag_paths_contains(ss, a);
    }
    crate::model::lemma_dedup_distinct(wiki_tag_paths(ss));
}

} // verus!
