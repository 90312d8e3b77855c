//! Searching the wiki by name, and where the built site puts a scrap.

use vstd::prelude::*;

use crate::model::{clone_opt, key_text, opt_chars, scrap_views, self_key, KeyV, Scrap, ScrapKey, ScrapV};
use crate::text::{chars_of, lowercase, push_str, string_of, to_lowercase};

verus! {

broadcast use crate::model::lemma_scrap_view;

/// The file name, without extension, a scrap's page is written under:
/// `ctx/title`, or the title alone.
pub open spec fn file_stem(k: KeyV) -> Seq<char> {
    key_text(k)
}

/// The address of a scrap's page on a site rooted at `base_url`.
pub open spec fn scrap_url(base_url: Seq<char>, k: KeyV) -> Seq<char> {
    base_url + "scraps/"@ + file_stem(k) + ".html"@
}

/// The address of the scrap's page on a site rooted at `base_url`.
pub fn scrap_url_of(base_url: &str, key: &ScrapKey) -> (r: String)
    ensures
        r@ == scrap_url(base_url@, key@),
{
    let mut v: Vec<char> = Vec::new();
    push_str(&mut v, base_url);
    push_str(&mut v, "scraps/");
    let stem = key.to_text();
    push_str(&mut v, stem.as_str());
    push_str(&mut v, ".html");
    let r = string_of(v.as_slice());
    assert(r@ =~= scrap_url(base_url@, key@));
    r
}

/// A scrap found by a search or a lookup, with the address of its page
/// when a site address was given.
#[derive(Debug, Clone, PartialEq, Eq)]
pub struct SearchResult {
    pub title: String,
    pub ctx: Option<String>,
    pub url: Option<String>,
    pub md_text: String,
}

/// A search result as a value.
#[verifier::ext_equal]
pub struct ResultV {
    pub title: Seq<char>,
    pub ctx: Option<Seq<char>>,
    pub url: Option<Seq<char>>,
    pub md_text: Seq<char>,
}

impl View for SearchResult {
    type V = ResultV;

    open spec fn view(&self) -> ResultV {
        ResultV {
            title: self.title@,
            ctx: opt_chars(self.ctx),
            url: opt_chars(self.url),
            md_text: self.md_text@,
        }
    }
}

pub open spec fn result_views(v: Seq<SearchResult>) -> Seq<ResultV> {
    v.map_values(|r: SearchResult| r@)
}

/// The result for scrap `s`, its page under `base_url` when there is one.
pub open spec fn result_of(base_url: Option<Seq<char>>, s: ScrapV) -> ResultV {
    ResultV {
        title: s.title,
        ctx: s.ctx,
        url: match base_url {
            Some(b) => Some(scrap_url(b, self_key(s))),
            None => None,
        },
        md_text: s.md_text,
    }
}

/// The result for a scrap.
pub fn result_for(base_url: Option<&str>, s: &Scrap) -> (r: SearchResult)
    ensures
        r@ == result_of(
            match base_url {
                Some(b) => Some(b@),
                None => None,
            },
            s@,
        ),
{
    let url = match base_url {
        Some(b) => Some(scrap_url_of(b, &s.self_key())),
        None => None,
    };
    SearchResult { title: s.title.clone(), ctx: clone_opt(&s.ctx), url, md_text: s.md_text.clone() }
}

/// The last scrap of `ss` whose name reads `t`.
pub open spec fn last_with_text(ss: Seq<ScrapV>, t: Seq<char>) -> Option<ScrapV>
    decreases ss.len(),
{
    if ss.len() == 0 {
        None
    } else if key_text(self_key(ss.last())) == t {
        Some(ss.last())
    } else {
        last_with_text(ss.drop_last(), t)
    }
}

/// The results for the names `hits`, in order, each from the last scrap
/// whose name reads so; a name no scrap has is left out.
pub open spec fn hit_results(ss: Seq<ScrapV>, base_url: Option<Seq<char>>, hits: Seq<Seq<char>>) -> Seq<
    ResultV,
>
    decreases hits.len(),
{
    if hits.len() == 0 {
        seq![]
    } else {
        hit_results(ss, base_url, hits.drop_last()) + match last_with_text(ss, hits.last()) {
            Some(s) => seq![result_of(base_url, s)],
            None => seq![],
        }
    }
}

fn last_scrap_with_text(scraps: &[Scrap], t: &Vec<char>) -> (r: Option<usize>)
    ensures
        r matches Some(i) ==> i < scraps.len() && last_with_text(scrap_views(scraps@), t@) == Some(
            scraps@[i as int]@,
        ),
        r is None ==> last_with_text(scrap_views(scraps@), t@) is None,
{
    let ghost sv = scrap_views(scraps@);
    let mut j = scraps.len();
    assert(sv.take(j as int) =~= sv);
    while j > 0
        invariant
            j <= scraps.len(),
            sv == scrap_views(scraps@),
            last_with_text(sv, t@) == last_with_text(sv.take(j as int), t@),
        decreases j,
    {
        let text = scraps[j - 1].self_key().to_text();
        assert(sv.take(j as int).drop_last() =~= sv.take(j - 1));
        assert(sv.take(j as int).last() == scraps@[j - 1]@);
        let tc = chars_of(text.as_str());
        if crate::lint::same_chars(&tc, t) {
            return Some(j - 1);
        }
        j -= 1;
    }
    None
}

/// Searches the wiki under the scraps directory.
pub struct SearchUsecase {
    pub scraps_dir_path: String,
}

impl SearchUsecase {
    pub fn new(scraps_dir_path: &str) -> (r: SearchUsecase)
        ensures
            r.scraps_dir_path@ == scraps_dir_path@,
    {
        SearchUsecase { scraps_dir_path: scraps_dir_path.to_owned() }
    }

    /// The results for the names `hits` a search ranked, best first: each
    /// name resolved to its scrap in `scraps` (the wiki read from the scraps
    /// directory), with the address of its page when `base_url` is given.
    /// Scraps of one title in different contexts stay apart.
    pub fn execute(&self, base_url: Option<&str>, scraps: &[Scrap], hits: &[String]) -> (r: Result<
        Vec<SearchResult>,
        crate::error::ScrapsError,
    >)
        ensures
            r matches Ok(res) && result_views(res@) == hit_results(
                scrap_views(scraps@),
                match base_url {
                    Some(b) => Some(b@),
                    None => None,
                },
                hits@.map_values(|h: String| h@),
            ),
    {
        let ghost sv = scrap_views(scraps@);
        let ghost hv = hits@.map_values(|h: String| h@);
        let ghost bv = match base_url {
            Some(b) => Some(b@),
            None => None,
        };
        let mut out: Vec<SearchResult> = Vec::new();
        let mut i: usize = 0;
        while i < hits.len()
            invariant
                i <= hits.len(),
                sv == scrap_views(scraps@),
                hv == hits@.map_values(|h: String| h@),
                bv == (match base_url {
                    Some(b) => Some(b@),
                    None => None::<Seq<char>>,
                }),
                result_views(out@) == hit_results(sv, bv, hv.take(i as int)),
            decreases hits.len() - i,
        {
            assert(hv.take(i + 1).drop_last() =~= hv.take(i as int));
            assert(hv.take(i + 1).last() == hits@[i as int]@);
            let hc = chars_of(hits[i].as_str());
            let ghost before = result_views(out@);
            match last_scrap_with_text(scraps, &hc) {
                Some(t) => {
                    out.push(result_for(base_url, &scraps[t]));
                    assert(result_views(out@) =~= before + seq![result_of(bv, scraps@[t as int]@)]);
                },
                None => {
                    assert(result_views(out@) =~= before + Seq::<ResultV>::empty());
                },
            }
            i += 1;
        }
        assert(hv.take(hits.len() as int) =~= hv);
        Ok(out)
    }
}

// ----------------------------------------------------------- search index --

/// One scrap of the search index: the name it is listed under and its page.
#[derive(Debug, Clone, PartialEq, Eq)]
pub struct SearchIndexScrap {
    pub link_title: String,
    pub file_stem: String,
}

/// The search index of a wiki: one entry per scrap, in wiki order.
#[derive(Debug, Clone, PartialEq, Eq)]
pub struct SearchIndexScrapsTera(pub Vec<SearchIndexScrap>);

/// An entry of the search index as a value: name and file stem.
pub open spec fn index_entry(s: ScrapV) -> (Seq<char>, Seq<char>) {
    (key_text(self_key(s)), file_stem(self_key(s)))
}

impl SearchIndexScrapsTera {
    pub fn new(scraps: &[Scrap]) -> (r: SearchIndexScrapsTera)
        ensures
            r.0@.len() == scraps@.len(),
            forall|i: int|
                0 <= i < scraps@.len() ==> ((#[trigger] r.0@[i]).link_title@, r.0@[i].file_stem@)
                    == index_entry(scraps@[i]@),
    {
        let mut v: Vec<SearchIndexScrap> = Vec::new();
        let mut i: usize = 0;
        while i < scraps.len()
            invariant
                i <= scraps.len(),
                v.len() == i,
                forall|j: int|
                    0 <= j < i ==> ((#[trigger] v@[j]).link_title@, v@[j].file_stem@) == index_entry(
                        scraps@[j]@,
                    ),
            decreases scraps.len() - i,
        {
            let key = scraps[i].self_key();
            let text = key.to_text();
            v.push(SearchIndexScrap { link_title: text.clone(), file_stem: key.to_text() });
            i += 1;
        }
        SearchIndexScrapsTera(v)
    }

    pub fn items(&self) -> (r: &Vec<SearchIndexScrap>)
        ensures
            r@ == self.0@,
    {
        &self.0
    }
}

/// An entry the search command matches against: a name and its page.
#[derive(Debug, Clone, PartialEq, Eq)]
pub struct SearchIndexItem {
    pub title: String,
    pub url: String,
}

/// A match of the search command.
#[derive(Debug, Clone, PartialEq, Eq)]
pub struct SearchHit {
    pub title: String,
    pub url: String,
}

/// `needle` occurs in `hay`.
pub open spec fn occurs_in(hay: Seq<char>, needle: Seq<char>) -> bool {
    exists|i: int| 0 <= i <= hay.len() - needle.len() && #[trigger] hay.subrange(i, i + needle.len()) == needle
}

fn occurs(hay: &Vec<char>, needle: &Vec<char>) -> (r: bool)
    ensures
        r == occurs_in(hay@, needle@),
{
    if needle.len() > hay.len() {
        return false;
    }
    let mut i: usize = 0;
    while i <= hay.len() - needle.len()
        invariant
            needle.len() <= hay.len(),
            i <= hay.len() - needle.len() + 1,
            forall|k: int| 0 <= k < i ==> #[trigger] hay@.subrange(k, k + needle@.len()) != needle@,
        decreases hay.len() - needle.len() + 1 - i,
    {
        let mut j: usize = 0;
        while j < needle.len() && hay[i + j] == needle[j]
            invariant
                i + needle.len() <= hay.len(),
                j <= needle.len(),
                forall|m: int| 0 <= m < j ==> hay@[i + m] == needle@[m],
            decreases needle.len() - j,
        {
            j += 1;
        }
        if j == needle.len() {
            assert(hay@.subrange(i as int, i + needle@.len()) =~= needle@);
            return true;
        }
        assert(hay@.subrange(i as int, i + needle@.len())[j as int] != needle@[j as int]);
        i += 1;
    }
    false
}

/// The entries whose lowercased title holds the lowercased query, in
/// order.
pub open spec fn matching_items(items: Seq<(Seq<char>, Seq<char>)>, query: Seq<char>) -> Seq<
    (Seq<char>, Seq<char>),
> {
    items.filter(|it: (Seq<char>, Seq<char>)| occurs_in(lowercase(it.0), lowercase(query)))
}

/// Searches the names of a wiki's search index.
pub struct SearchCommand {
    pub scraps_dir_path: String,
}

impl SearchCommand {
    pub fn new(scraps_dir_path: &str) -> (r: SearchCommand)
        ensures
            r.scraps_dir_path@ == scraps_dir_path@,
    {
        SearchCommand { scraps_dir_path: scraps_dir_path.to_owned() }
    }

    /// The index entries of `data` with the address of each page on the
    /// site rooted at `base_url`.
    pub fn convert_to_search_items(data: &SearchIndexScrapsTera, base_url: &str) -> (r: Vec<
        SearchIndexItem,
    >)
        ensures
            r@.len() == data.0@.len(),
            forall|i: int|
                0 <= i < r@.len() ==> (#[trigger] r@[i]).title@ == data.0@[i].link_title@ && r@[i].url@
                    == base_url@ + "scraps/"@ + data.0@[i].file_stem@ + ".html"@,
    {
        let items = data.items();
        let mut r: Vec<SearchIndexItem> = Vec::new();
        let mut i: usize = 0;
        while i < items.len()
            invariant
                i <= items.len(),
                items@ == data.0@,
                r.len() == i,
                forall|j: int|
                    0 <= j < i ==> (#[trigger] r@[j]).title@ == data.0@[j].link_title@ && r@[j].url@
                        == base_url@ + "scraps/"@ + data.0@[j].file_stem@ + ".html"@,
            decreases items.len() - i,
        {
            let mut v: Vec<char> = Vec::new();
            push_str(&mut v, base_url);
            push_str(&mut v, "scraps/");
            push_str(&mut v, items[i].file_stem.as_str());
            push_str(&mut v, ".html");
            let url = string_of(v.as_slice());
            assert(url@ =~= base_url@ + "scraps/"@ + data.0@[i as int].file_stem@ + ".html"@);
            r.push(SearchIndexItem { title: items[i].link_title.clone(), url });
            i += 1;
        }
        r
    }

    /// The entries whose title holds `query`, ignoring case, in order.
    pub fn perform_search(items: &[SearchIndexItem], query: &str) -> (r: Vec<SearchHit>)
        ensures
            r@.map_values(|h: SearchHit| (h.title@, h.url@)) == matching_items(
                items@.map_values(|it: SearchIndexItem| (it.title@, it.url@)),
                query@,
            ),
    {
        let ghost iv = items@.map_values(|it: SearchIndexItem| (it.title@, it.url@));
        let ghost p = |it: (Seq<char>, Seq<char>)| occurs_in(lowercase(it.0), lowercase(query@));
        let q = chars_of(to_lowercase(query).as_str());
        let mut r: Vec<SearchHit> = Vec::new();
        let mut i: usize = 0;
        while i < items.len()
            invariant
                i <= items.len(),
                iv == items@.map_values(|it: SearchIndexItem| (it.title@, it.url@)),
                p == (|it: (Seq<char>, Seq<char>)| occurs_in(lowercase(it.0), lowercase(query@))),
                q@ == lowercase(query@),
                r@.map_values(|h: SearchHit| (h.title@, h.url@)) == iv.take(i as int).filter(p),
            decreases items.len() - i,
        {
            proof {
                crate::backlinks::lemma_filter_take_step(iv, p, i as int);
            }
            let t = chars_of(to_lowercase(items[i].title.as_str()).as_str());
            assert(iv[i as int] == (items@[i as int].title@, items@[i as int].url@));
            if occurs(&t, &q) {
                let ghost before = r@.map_values(|h: SearchHit| (h.title@, h.url@));
                r.push(SearchHit { title: items[i].title.clone(), url: items[i].url.clone() });
                assert(r@.map_values(|h: SearchHit| (h.title@, h.url@)) =~= before.push(iv[i as int]));
            }
            i += 1;
        }
        assert(iv.take(items.len() as int) =~= iv);
        r
    }
}

} // verus!
