//! Backlinks across the wiki: which scraps link to a scrap, and which
//! scraps carry a tag. Tag backlinks aggregate over the hierarchy: a scrap
//! tagged `#[[a/b/c]]` is among the backlinks of `a/b` and of `a` as well.

use vstd::prelude::*;

use crate::model::{
    clone_scraps, contains_key, KeyV, Scrap, ScrapKey, ScrapV, links, scrap_views, string_views,
    tags,
};

verus! {

broadcast use crate::model::lemma_scrap_view;

/// The scraps, in order, that link to `k`.
pub open spec fn backlinks_of(ss: Seq<ScrapV>, k: KeyV) -> Seq<ScrapV> {
    ss.filter(|s: ScrapV| links(s).contains(k))
}

/// `a` is a proper ancestor of the tag path `t`: `t` continues `a` with `/`.
pub open spec fn is_tag_ancestor(a: Seq<char>, t: Seq<char>) -> bool {
    t.len() > a.len() && t.take(a.len() as int) == a && t[a.len() as int] == '/'
}

/// The tag `tag` applies to the scrap: it declares `tag` or a descendant.
pub open spec fn tagged_with(s: ScrapV, tag: Seq<char>) -> bool {
    exists|i: int|
        0 <= i < tags(s).len() && (tags(s)[i] == tag || is_tag_ancestor(tag, #[trigger] tags(s)[i]))
}

/// The scraps, in order, that `tag` applies to.
pub open spec fn tag_backlinks_of(ss: Seq<ScrapV>, tag: Seq<char>) -> Seq<ScrapV> {
    ss.filter(|s: ScrapV| tagged_with(s, tag))
}

/// Backlinks aggregated across a wiki: scrap-to-scrap links and explicit
/// `#[[tag]]` occurrences.
pub struct BacklinksMap {
    scraps: Vec<Scrap>,
}

impl View for BacklinksMap {
    type V = Seq<ScrapV>;

    closed spec fn view(&self) -> Seq<ScrapV> {
        scrap_views(self.scraps@)
    }
}

pub proof fn lemma_filter_take_step<A>(s: Seq<A>, p: spec_fn(A) -> bool, i: int)
    requires
        0 <= i < s.len(),
    ensures
        s.take(i + 1).filter(p) == (if p(s[i]) {
            s.take(i).filter(p).push(s[i])
        } else {
            s.take(i).filter(p)
        }),
{
    reveal_with_fuel(Seq::filter, 1);
    assert(s.take(i + 1).drop_last() =~= s.take(i));
}

/// Whether `tag` is `t` or one of its ancestors.
fn tag_covers(tag: &[char], t: &[char]) -> (r: bool)
    ensures
        r == (t@ == tag@ || is_tag_ancestor(tag@, t@)),
{
    if t.len() < tag.len() {
        assert(t@ != tag@);
        return false;
    }
    let mut i: usize = 0;
    while i < tag.len()
        invariant
            i <= tag.len() <= t.len(),
            forall|j: int| 0 <= j < i ==> t@[j] == tag@[j],
        decreases tag.len() - i,
    {
        if t[i] != tag[i] {
            assert(t@.take(tag@.len() as int)[i as int] != tag@[i as int]);
            assert(t@ != tag@);
            return false;
        }
        i += 1;
    }
    assert(t@.take(tag@.len() as int) =~= tag@);
    if t.len() == tag.len() {
        assert(t@ =~= tag@);
        true
    } else {
        t[tag.len()] == '/'
    }
}

impl BacklinksMap {
    pub fn new(scraps: &[Scrap]) -> (r: BacklinksMap)
        ensures
            r@ == scrap_views(scraps@),
    {
        BacklinksMap { scraps: clone_scraps(scraps) }
    }

    /// The scraps that link to `key` through a `[[wikilink]]`, in order.
    pub fn get(&self, key: &ScrapKey) -> (r: Vec<Scrap>)
        ensures
            scrap_views(r@) == backlinks_of(self@, key@),
    {
        let ghost sv = self@;
        let ghost pred = |s: ScrapV| links(s).contains(key@);
        let mut out: Vec<Scrap> = Vec::new();
        let mut i: usize = 0;
        while i < self.scraps.len()
            invariant
                i <= self.scraps.len(),
                sv == scrap_views(self.scraps@),
                pred == (|s: ScrapV| links(s).contains(key@)),
                scrap_views(out@) == sv.take(i as int).filter(pred),
            decreases self.scraps.len() - i,
        {
            proof {
                lemma_filter_take_step(sv, pred, i as int);
            }
            let s = &self.scraps[i];
            assert(sv[i as int] == s@);
            let ls = s.links();
            if contains_key(&ls, key) {
                let ghost before = scrap_views(out@);
                out.push(s.duplicate());
                assert(scrap_views(out@) =~= before.push(s@));
            }
            i += 1;
        }
        assert(sv.take(self.scraps.len() as int) =~= sv);
        out
    }

    /// The scraps `tag` applies to, in order: those that declare it and
    /// those that declare one of its descendants.
    pub fn get_tag(&self, tag: &str) -> (r: Vec<Scrap>)
        ensures
            scrap_views(r@) == tag_backlinks_of(self@, tag@),
    {
        let tag_chars = crate::text::chars_of(tag);
        let ghost sv = self@;
        let ghost pred = |s: ScrapV| tagged_with(s, tag@);
        let mut out: Vec<Scrap> = Vec::new();
        let mut i: usize = 0;
        while i < self.scraps.len()
            invariant
                i <= self.scraps.len(),
                sv == scrap_views(self.scraps@),
                tag_chars@ == tag@,
                pred == (|s: ScrapV| tagged_with(s, tag@)),
                scrap_views(out@) == sv.take(i as int).filter(pred),
            decreases self.scraps.len() - i,
        {
            proof {
                lemma_filter_take_step(sv, pred, i as int);
            }
            let s = &self.scraps[i];
            assert(sv[i as int] == s@);
            let ts = s.tags();
            let mut found = false;
            let mut j: usize = 0;
            while j < ts.len()
                invariant
                    j <= ts.len(),
                    string_views(ts@) == tags(s@),
                    tag_chars@ == tag@,
                    found == (exists|k: int|
                        0 <= k < j && (tags(s@)[k] == tag@ || is_tag_ancestor(
                            tag@,
                            #[trigger] tags(s@)[k],
                        ))),
                decreases ts.len() - j,
            {
                let t = crate::text::chars_of(ts[j].as_str());
                assert(tags(s@)[j as int] == ts@[j as int]@);
                if tag_covers(tag_chars.as_slice(), t.as_slice()) {
                    found = true;
                }
                j += 1;
            }
            assert(found == tagged_with(s@, tag@));
            if found {
                let ghost before = scrap_views(out@);
                out.push(s.duplicate());
                assert(scrap_views(out@) =~= before.push(s@));
            }
            i += 1;
        }
        assert(sv.take(self.scraps.len() as int) =~= sv);
        out
    }
}

/// A scrap is among the backlinks of `k` exactly when it is in the wiki and
/// links to `k`.
pub proof fn lemma_backlinks_are_the_linking_scraps(ss: Seq<ScrapV>, k: KeyV, s: ScrapV)
    ensures
        backlinks_of(ss, k).contains(s) <==> (ss.contains(s) && links(s).contains(k)),
{
    let p = |x: ScrapV| links(x).contains(k);
    if ss.contains(s) && links(s).contains(k) {
        let i = choose|i: int| 0 <= i < ss.len() && ss[i] == s;
        ss.lemma_filter_contains(p, i);
    }
    if backlinks_of(ss, k).contains(s) {
        ss.lemma_filter_contains_rev(p, s);
        let j = choose|j: int| 0 <= j < ss.filter(p).len() && ss.filter(p)[j] == s;
        ss.lemma_filter_pred(p, j);
    }
}

/// Tag backlinks aggregate over the hierarchy: a scrap of the wiki that
/// declares a tag is among the tag backlinks of that tag and of every
/// ancestor of it.
pub proof fn lemma_tag_backlinks_aggregate_ancestors(
    ss: Seq<ScrapV>,
    s: ScrapV,
    declared: Seq<char>,
    ancestor: Seq<char>,
)
    requires
        ss.contains(s),
        tags(s).contains(declared),
        declared == ancestor || is_tag_ancestor(ancestor, declared),
    ensures
        tag_backlinks_of(ss, ancestor).contains(s),
{
    let p = |x: ScrapV| tagged_with(x, ancestor);
    let k = choose|k: int| 0 <= k < tags(s).len() && tags(s)[k] == declared;
    assert(tagged_with(s, ancestor));
    let i = choose|i: int| 0 <= i < ss.len() && ss[i] == s;
    ss.lemma_filter_contains(p, i);
}

/// A scrap appears among the tag backlinks of `tag` only if `tag` applies
/// to it: sibling tags do not aggregate.
pub proof fn lemma_tag_backlinks_only_tagged(ss: Seq<ScrapV>, tag: Seq<char>, s: ScrapV)
    requires
        tag_backlinks_of(ss, tag).contains(s),
    ensures
        ss.contains(s),
        tagged_with(s, tag),
{
    let p = |x: ScrapV| tagged_with(x, tag);
    ss.lemma_filter_contains_rev(p, s);
    let j = choose|j: int| 0 <= j < ss.filter(p).len() && ss.filter(p)[j] == s;
    ss.lemma_filter_pred(p, j);
}

pub(crate) proof fn lemma_filter_keeps_distinct<A>(s: Seq<A>, p: spec_fn(A) -> bool)
    requires
        s.no_duplicates(),
    ensures
        s.filter(p).no_duplicates(),
    decreases s.len(),
{
    if s.len() > 0 {
        let init = s.drop_last();
        let x = s.last();
        assert(init.no_duplicates());
        lemma_filter_keeps_distinct(init, p);
        assert(init.push(x) =~= s);
        init.lemma_filter_push(x, p);
        if p(x) && init.filter(p).contains(x) {
            init.lemma_filter_contains_rev(p, x);
            let i = choose|i: int| 0 <= i < init.len() && init[i] == x;
            assert(s[i] == s[s.len() - 1]);
        }
    }
}

/// A wiki that lists each scrap once lists each once among the tag
/// backlinks of any tag too, however many of its tags lead there.
pub proof fn lemma_tag_backlinks_list_each_scrap_once(ss: Seq<ScrapV>, tag: Seq<char>)
    requires
        ss.no_duplicates(),
    ensures
        tag_backlinks_of(ss, tag).no_duplicates(),
{
    lemma_filter_keeps_distinct(ss, |s: ScrapV| tagged_with(s, tag));
}

/// A wiki that lists each scrap once lists each once among the backlinks
/// of any scrap too, however often it links there.
pub proof fn lemma_backlinks_list_each_scrap_once(ss: Seq<ScrapV>, k: KeyV)
    requires
        ss.no_duplicates(),
    ensures
        backlinks_of(ss, k).no_duplicates(),
{
    lemma_filter_keeps_distinct(ss, |s: ScrapV| links(s).contains(k));
}

/// The scraps of a wiki by the names they link to.
pub struct LinkedScrapsMap {
    scraps: Vec<Scrap>,
}

impl View for LinkedScrapsMap {
    type V = Seq<ScrapV>;

    closed spec fn view(&self) -> Seq<ScrapV> {
        scrap_views(self.scraps@)
    }
}

impl LinkedScrapsMap {
    pub fn new(scraps: &[Scrap]) -> (r: LinkedScrapsMap)
        ensures
            r@ == scrap_views(scraps@),
    {
        LinkedScrapsMap { scraps: clone_scraps(scraps) }
    }

    /// The scraps that link to `link`, in wiki order.
    pub fn linked_by(&self, link: &ScrapKey) -> (r: Vec<Scrap>)
        ensures
            scrap_views(r@) == backlinks_of(self@, link@),
    {
        let bm = BacklinksMap { scraps: clone_scraps(self.scraps.as_slice()) };
        bm.get(link)
    }
}

} // verus!
