//! Looking scraps up by name: a scrap itself, the scraps it links to, the
//! references it makes, and the scraps that link to it.

use vstd::prelude::*;

use crate::backlinks::{backlinks_of, BacklinksMap};
use crate::error::ScrapsError;
use crate::lint::{last_scrap_with_key, last_with_key, self_keys};
use crate::model::{
    clone_opt, key_views, links, opt_chars, scrap_views, self_key, KeyV,
    RefKind, RefV, Scrap, ScrapKey, ScrapV,
};
use crate::search::{result_for, result_of, result_views, ResultV, SearchResult};
use crate::text::{push_str, string_of};

verus! {

broadcast use crate::model::lemma_scrap_view;

/// The position of the first scrap of `ss` known by `k`, from `i` on.
pub open spec fn first_with_key_from(ss: Seq<ScrapV>, k: KeyV, i: int) -> Option<int>
    decreases ss.len() - i,
{
    if i < 0 || i >= ss.len() {
        None
    } else if self_key(ss[i]) == k {
        Some(i)
    } else {
        first_with_key_from(ss, k, i + 1)
    }
}

/// The position of the first scrap of `ss` known by `k`.
pub open spec fn first_with_key(ss: Seq<ScrapV>, k: KeyV) -> Option<int> {
    first_with_key_from(ss, k, 0)
}

pub proof fn lemma_first_with_key_from(ss: Seq<ScrapV>, k: KeyV, i: int)
    requires
        0 <= i <= ss.len(),
    ensures
        first_with_key_from(ss, k, i) matches Some(j) ==> i <= j < ss.len() && self_key(ss[j]) == k,
        first_with_key_from(ss, k, i) is None ==> forall|j: int| i <= j < ss.len() ==> self_key(ss[j]) != k,
    decreases ss.len() - i,
{
    if i < ss.len() && self_key(ss[i]) != k {
        lemma_first_with_key_from(ss, k, i + 1);
    }
}

/// A wiki has a scrap known by `k` exactly when some scrap is first to be.
pub proof fn lemma_first_with_key_exists(ss: Seq<ScrapV>, k: KeyV)
    ensures
        first_with_key(ss, k) is Some <==> self_keys(ss).contains(k),
{
    lemma_first_with_key_from(ss, k, 0);
    if let Some(j) = first_with_key(ss, k) {
        assert(self_keys(ss)[j] == k);
    }
    if self_keys(ss).contains(k) {
        let j = choose|j: int| 0 <= j < self_keys(ss).len() && self_keys(ss)[j] == k;
        assert(self_key(ss[j]) == k);
    }
}

/// The position of the first scrap known by `k`.
pub fn first_scrap_with_key(scraps: &[Scrap], k: &ScrapKey) -> (r: Option<usize>)
    ensures
        r matches Some(i) ==> i < scraps.len() && first_with_key(scrap_views(scraps@), k@) == Some(
            i as int,
        ),
        r is None ==> first_with_key(scrap_views(scraps@), k@) is None,
{
    let ghost sv = scrap_views(scraps@);
    let mut i: usize = 0;
    while i < scraps.len()
        invariant
            i <= scraps.len(),
            sv == scrap_views(scraps@),
            first_with_key(sv, k@) == first_with_key_from(sv, k@, i as int),
        decreases scraps.len() - i,
    {
        let key = scraps[i].self_key();
        assert(sv[i as int] == scraps@[i as int]@);
        if key.same(k) {
            return Some(i);
        }
        i += 1;
    }
    None
}

/// The text a missing scrap is reported with.
pub open spec fn not_found_text(title: Seq<char>, ctx: Option<Seq<char>>) -> Seq<char> {
    "Scrap not found: title='"@ + title + "', ctx='"@ + match ctx {
        Some(c) => "Some(\""@ + c + "\")"@,
        None => "None"@,
    } + "'"@
}

impl ScrapsError {
    /// The error as text.
    pub fn to_string(&self) -> (r: String)
        ensures
            self matches ScrapsError::ScrapNotFound { title, ctx } ==> r@ == not_found_text(
                title@,
                opt_chars(*ctx),
            ),
            self matches ScrapsError::Build { message } ==> r@ == message@,
    {
        match self {
            ScrapsError::ScrapNotFound { title, ctx } => {
                let mut v: Vec<char> = Vec::new();
                push_str(&mut v, "Scrap not found: title='");
                push_str(&mut v, title.as_str());
                push_str(&mut v, "', ctx='");
                match ctx {
                    Some(c) => {
                        push_str(&mut v, "Some(\"");
                        push_str(&mut v, c.as_str());
                        push_str(&mut v, "\")");
                    },
                    None => {
                        push_str(&mut v, "None");
                    },
                }
                push_str(&mut v, "'");
                let r = string_of(v.as_slice());
                assert(r@ =~= not_found_text(title@, opt_chars(*ctx)));
                r
            },
            ScrapsError::Build { message } => message.clone(),
        }
    }
}

/// The error for a name no scrap has.
fn not_found(title: &str, ctx: &Option<String>) -> (e: ScrapsError)
    ensures
        e matches ScrapsError::ScrapNotFound { title: t, ctx: c } && t@ == title@ && opt_chars(c)
            == opt_chars(*ctx),
{
    ScrapsError::ScrapNotFound { title: title.to_owned(), ctx: clone_opt(ctx) }
}

/// The error reports exactly the name that was asked for.
pub open spec fn reports(e: ScrapsError, title: Seq<char>, ctx: Option<Seq<char>>) -> bool {
    e matches ScrapsError::ScrapNotFound { title: t, ctx: c } && t@ == title && opt_chars(c) == ctx
}

// ------------------------------------------------------------------- get --

/// A scrap found by name.
#[derive(Debug, Clone, PartialEq, Eq)]
pub struct GetScrapResult {
    pub title: String,
    pub ctx: Option<String>,
    pub md_text: String,
}

/// What a lookup shows of a scrap: its name and its text.
#[verifier::ext_equal]
pub struct ShownV {
    pub title: Seq<char>,
    pub ctx: Option<Seq<char>>,
    pub md_text: Seq<char>,
}

pub open spec fn shown(s: ScrapV) -> ShownV {
    ShownV { title: s.title, ctx: s.ctx, md_text: s.md_text }
}

impl View for GetScrapResult {
    type V = ShownV;

    open spec fn view(&self) -> ShownV {
        ShownV { title: self.title@, ctx: opt_chars(self.ctx), md_text: self.md_text@ }
    }
}

/// Looks up one scrap of the wiki under the scraps directory.
pub struct GetScrapUsecase {
    pub scraps_dir_path: String,
}

impl GetScrapUsecase {
    pub fn new(scraps_dir_path: &str) -> (r: GetScrapUsecase)
        ensures
            r.scraps_dir_path@ == scraps_dir_path@,
    {
        GetScrapUsecase { scraps_dir_path: scraps_dir_path.to_owned() }
    }

    /// The first scrap of `scraps` (the wiki read from the scraps
    /// directory) named `title` within `ctx`.
    pub fn execute(&self, scraps: &[Scrap], title: &str, ctx: &Option<String>) -> (r: Result<
        GetScrapResult,
        ScrapsError,
    >)
        ensures
            r is Ok <==> self_keys(scrap_views(scraps@)).contains(
                KeyV { ctx: opt_chars(*ctx), title: title@ },
            ),
            r matches Err(e) ==> reports(e, title@, opt_chars(*ctx)),
            r matches Ok(res) ==> first_with_key(
                scrap_views(scraps@),
                KeyV { ctx: opt_chars(*ctx), title: title@ },
            ) matches Some(i) && res@ == shown(scrap_views(scraps@)[i]),
    {
        let key = ScrapKey::new(title, ctx);
        proof {
            lemma_first_with_key_exists(scrap_views(scraps@), key@);
        }
        match first_scrap_with_key(scraps, &key) {
            Some(i) => {
                let s = &scraps[i];
                assert(scrap_views(scraps@)[i as int] == s@);
                Ok(
                    GetScrapResult {
                        title: s.title.clone(),
                        ctx: clone_opt(&s.ctx),
                        md_text: s.md_text.clone(),
                    },
                )
            },
            None => Err(not_found(title, ctx)),
        }
    }
}

// ------------------------------------------------------------- get links --

/// The results for the names `ls` that some scrap has, each from the last
/// scrap known by it, in order.
pub open spec fn link_results(ss: Seq<ScrapV>, base_url: Seq<char>, ls: Seq<KeyV>) -> Seq<ResultV>
    decreases ls.len(),
{
    if ls.len() == 0 {
        seq![]
    } else {
        link_results(ss, base_url, ls.drop_last()) + match last_with_key(ss, ls.last()) {
            Some(s) => seq![result_of(Some(base_url), s)],
            None => seq![],
        }
    }
}

/// Looks up the scraps one scrap links to.
pub struct GetScrapLinksUsecase {
    pub scraps_dir_path: String,
}

impl GetScrapLinksUsecase {
    pub fn new(scraps_dir_path: &str) -> (r: GetScrapLinksUsecase)
        ensures
            r.scraps_dir_path@ == scraps_dir_path@,
    {
        GetScrapLinksUsecase { scraps_dir_path: scraps_dir_path.to_owned() }
    }

    /// The scraps the first scrap named `title` within `ctx` links to, in
    /// link order, each with the address of its page under `base_url`;
    /// links to names no scrap has are left out.
    pub fn execute(
        &self,
        base_url: &str,
        scraps: &[Scrap],
        title: &str,
        ctx: &Option<String>,
    ) -> (r: Result<Vec<SearchResult>, ScrapsError>)
        ensures
            r is Ok <==> self_keys(scrap_views(scraps@)).contains(
                KeyV { ctx: opt_chars(*ctx), title: title@ },
            ),
            r matches Err(e) ==> reports(e, title@, opt_chars(*ctx)),
            r matches Ok(res) ==> first_with_key(
                scrap_views(scraps@),
                KeyV { ctx: opt_chars(*ctx), title: title@ },
            ) matches Some(i) && result_views(res@) == link_results(
                scrap_views(scraps@),
                base_url@,
                links(scrap_views(scraps@)[i]),
            ),
    {
        let ghost sv = scrap_views(scraps@);
        let key = ScrapKey::new(title, ctx);
        proof {
            lemma_first_with_key_exists(sv, key@);
        }
        let i = match first_scrap_with_key(scraps, &key) {
            Some(i) => i,
            None => {
                return Err(not_found(title, ctx));
            },
        };
        assert(sv[i as int] == scraps@[i as int]@);
        let ls = scraps[i].links();
        let ghost lv = key_views(ls@);
        let mut out: Vec<SearchResult> = Vec::new();
        let mut j: usize = 0;
        while j < ls.len()
            invariant
                j <= ls.len(),
                sv == scrap_views(scraps@),
                lv == key_views(ls@),
                result_views(out@) == link_results(sv, base_url@, lv.take(j as int)),
            decreases ls.len() - j,
        {
            assert(lv.take(j + 1).drop_last() =~= lv.take(j as int));
            assert(lv.take(j + 1).last() == ls@[j as int]@);
            let ghost before = result_views(out@);
            match last_scrap_with_key(scraps, &ls[j]) {
                Some(t) => {
                    let res = result_for(Some(base_url), &scraps[t]);
                    out.push(res);
                    assert(result_views(out@) =~= before + seq![result_of(Some(base_url@), sv[t as int])]);
                },
                None => {
                    assert(result_views(out@) =~= before + Seq::<ResultV>::empty());
                },
            }
            j += 1;
        }
        assert(lv.take(ls.len() as int) =~= lv);
        Ok(out)
    }
}

// ---------------------------------------------------------- lookup links --

/// Kind of an outbound reference occurrence.
#[derive(Debug, Clone, Copy, PartialEq, Eq, Structural)]
pub enum LinkRefKind {
    /// Plain wikilink `[[...]]`.
    Link,
    /// Inline embed `![[...]]`.
    Embed,
}

/// One outbound reference occurrence found in a scrap.
#[derive(Debug, Clone, PartialEq, Eq)]
pub struct LookupScrapLinksResult {
    pub kind: LinkRefKind,
    pub title: String,
    pub ctx: Option<String>,
    pub heading: Option<String>,
}

/// A reference occurrence as a value.
#[verifier::ext_equal]
pub struct LinkRefV {
    pub kind: LinkRefKind,
    pub title: Seq<char>,
    pub ctx: Option<Seq<char>>,
    pub heading: Option<Seq<char>>,
}

impl View for LookupScrapLinksResult {
    type V = LinkRefV;

    open spec fn view(&self) -> LinkRefV {
        LinkRefV {
            kind: self.kind,
            title: self.title@,
            ctx: opt_chars(self.ctx),
            heading: opt_chars(self.heading),
        }
    }
}

pub open spec fn link_ref_views(v: Seq<LookupScrapLinksResult>) -> Seq<LinkRefV> {
    v.map_values(|r: LookupScrapLinksResult| r@)
}

/// The link and embed occurrences among `refs` whose target some scrap of
/// `ss` is, in order, each named by that scrap, with its heading; tags are
/// left out.
pub open spec fn ref_results(ss: Seq<ScrapV>, refs: Seq<RefV>) -> Seq<LinkRefV>
    decreases refs.len(),
{
    if refs.len() == 0 {
        seq![]
    } else {
        let r = refs.last();
        ref_results(ss, refs.drop_last()) + if r.kind == RefKind::Tag {
            seq![]
        } else {
            match last_with_key(ss, r.key) {
                Some(s) => seq![
                    LinkRefV {
                        kind: if r.kind == RefKind::Link {
                            LinkRefKind::Link
                        } else {
                            LinkRefKind::Embed
                        },
                        title: s.title,
                        ctx: s.ctx,
                        heading: r.heading,
                    },
                ],
                None => seq![],
            }
        }
    }
}

/// The reference `r` is a link or an embed to a scrap of `ss`.
pub open spec fn resolves(ss: Seq<ScrapV>, r: RefV) -> bool {
    r.kind != RefKind::Tag && last_with_key(ss, r.key) is Some
}

/// The result for a resolving reference: its kind, the scrap it names, its
/// heading.
pub open spec fn link_ref_of(ss: Seq<ScrapV>, r: RefV) -> LinkRefV {
    LinkRefV {
        kind: if r.kind == RefKind::Link {
            LinkRefKind::Link
        } else {
            LinkRefKind::Embed
        },
        title: last_with_key(ss, r.key)->0.title,
        ctx: last_with_key(ss, r.key)->0.ctx,
        heading: r.heading,
    }
}

/// Looking up a scrap's links gives one entry per link or embed occurrence
/// in its text, in text order, repeats kept, for each that names a scrap of
/// the wiki; tags and names of no scrap give none.
pub proof fn lemma_one_result_per_resolving_occurrence(ss: Seq<ScrapV>, refs: Seq<RefV>)
    ensures
        ref_results(ss, refs) == refs.filter(|r: RefV| resolves(ss, r)).map_values(|r: RefV| link_ref_of(ss, r)),
    decreases refs.len(),
{
    let p = |r: RefV| resolves(ss, r);
    let g = |r: RefV| link_ref_of(ss, r);
    if refs.len() == 0 {
        reveal_with_fuel(Seq::filter, 1);
        assert(refs.filter(p).map_values(g) =~= Seq::<LinkRefV>::empty());
    } else {
        lemma_one_result_per_resolving_occurrence(ss, refs.drop_last());
        crate::lint::lemma_filter_map_step(refs, p, g);
        if p(refs.last()) {
            assert(ref_results(ss, refs) =~= ref_results(ss, refs.drop_last()) + seq![g(refs.last())]);
        } else {
            assert(ref_results(ss, refs) =~= ref_results(ss, refs.drop_last()));
        }
    }
}

/// Looking up the scraps a scrap links to gives, for each name it links to
/// (each once, in order of first link) that some scrap has, that scrap with
/// the address of its page; names no scrap has give none.
pub proof fn lemma_links_resolve_each_named_scrap(ss: Seq<ScrapV>, base_url: Seq<char>, ls: Seq<KeyV>)
    ensures
        link_results(ss, base_url, ls) == ls.filter(|k: KeyV| last_with_key(ss, k) is Some).map_values(
            |k: KeyV| result_of(Some(base_url), last_with_key(ss, k)->0),
        ),
    decreases ls.len(),
{
    let p = |k: KeyV| last_with_key(ss, k) is Some;
    let g = |k: KeyV| result_of(Some(base_url), last_with_key(ss, k)->0);
    if ls.len() == 0 {
        reveal_with_fuel(Seq::filter, 1);
        assert(ls.filter(p).map_values(g) =~= Seq::<ResultV>::empty());
    } else {
        lemma_links_resolve_each_named_scrap(ss, base_url, ls.drop_last());
        crate::lint::lemma_filter_map_step(ls, p, g);
        if p(ls.last()) {
            assert(link_results(ss, base_url, ls) =~= link_results(ss, base_url, ls.drop_last()) + seq![
                g(ls.last()),
            ]);
        } else {
            assert(link_results(ss, base_url, ls) =~= link_results(ss, base_url, ls.drop_last()));
        }
    }
}

/// Lists the references one scrap makes.
pub struct LookupScrapLinksUsecase;

impl LookupScrapLinksUsecase {
    pub fn new() -> (r: LookupScrapLinksUsecase) {
        LookupScrapLinksUsecase
    }

    /// Every link and embed of the first scrap named `title` within `ctx`
    /// that resolves to a scrap, in order of appearance, a target
    /// referenced twice appearing twice.
    pub fn execute(&self, scraps: &[Scrap], title: &str, ctx: &Option<String>) -> (r: Result<
        Vec<LookupScrapLinksResult>,
        ScrapsError,
    >)
        ensures
            r is Ok <==> self_keys(scrap_views(scraps@)).contains(
                KeyV { ctx: opt_chars(*ctx), title: title@ },
            ),
            r matches Err(e) ==> reports(e, title@, opt_chars(*ctx)),
            r matches Ok(res) ==> first_with_key(
                scrap_views(scraps@),
                KeyV { ctx: opt_chars(*ctx), title: title@ },
            ) matches Some(i) && link_ref_views(res@) == ref_results(
                scrap_views(scraps@),
                scrap_views(scraps@)[i].refs,
            ),
    {
        let ghost sv = scrap_views(scraps@);
        let key = ScrapKey::new(title, ctx);
        proof {
            lemma_first_with_key_exists(sv, key@);
        }
        let i = match first_scrap_with_key(scraps, &key) {
            Some(i) => i,
            None => {
                return Err(not_found(title, ctx));
            },
        };
        let target = &scraps[i];
        assert(sv[i as int] == target@);
        let ghost rv = target@.refs;
        let mut out: Vec<LookupScrapLinksResult> = Vec::new();
        let mut j: usize = 0;
        while j < target.refs.len()
            invariant
                j <= target.refs.len(),
                sv == scrap_views(scraps@),
                rv == target@.refs,
                link_ref_views(out@) == ref_results(sv, rv.take(j as int)),
            decreases target.refs.len() - j,
        {
            let r = &target.refs[j];
            assert(rv.take(j + 1).drop_last() =~= rv.take(j as int));
            assert(rv.take(j + 1).last() == r@);
            let ghost before = link_ref_views(out@);
            if r.kind == RefKind::Tag {
                assert(link_ref_views(out@) =~= ref_results(sv, rv.take(j + 1)));
            } else {
                match last_scrap_with_key(scraps, &r.key) {
                    Some(t) => {
                        let linked = &scraps[t];
                        assert(sv[t as int] == linked@);
                        let kind = if r.kind == RefKind::Link {
                            LinkRefKind::Link
                        } else {
                            LinkRefKind::Embed
                        };
                        out.push(
                            LookupScrapLinksResult {
                                kind,
                                title: linked.title.clone(),
                                ctx: clone_opt(&linked.ctx),
                                heading: clone_opt(&r.heading),
                            },
                        );
                        assert(link_ref_views(out@) =~= ref_results(sv, rv.take(j + 1)));
                    },
                    None => {
                        assert(link_ref_views(out@) =~= ref_results(sv, rv.take(j + 1)));
                    },
                }
            }
            j += 1;
        }
        assert(rv.take(target.refs.len() as int) =~= rv);
        Ok(out)
    }
}

// ------------------------------------------------------ lookup backlinks --

/// A scrap that links to the one looked up.
#[derive(Debug, Clone, PartialEq, Eq)]
pub struct LookupScrapBacklinksResult {
    pub title: String,
    pub ctx: Option<String>,
    pub md_text: String,
}

impl View for LookupScrapBacklinksResult {
    type V = ShownV;

    open spec fn view(&self) -> ShownV {
        ShownV { title: self.title@, ctx: opt_chars(self.ctx), md_text: self.md_text@ }
    }
}

pub open spec fn backlink_views(v: Seq<LookupScrapBacklinksResult>) -> Seq<ShownV> {
    v.map_values(|r: LookupScrapBacklinksResult| r@)
}

/// Lists the scraps that link to one scrap.
pub struct LookupScrapBacklinksUsecase;

impl LookupScrapBacklinksUsecase {
    pub fn new() -> (r: LookupScrapBacklinksUsecase) {
        LookupScrapBacklinksUsecase
    }

    /// The scraps that link to the scrap named `title` within `ctx`, in
    /// wiki order.
    pub fn execute(&self, scraps: &[Scrap], title: &str, ctx: &Option<String>) -> (r: Result<
        Vec<LookupScrapBacklinksResult>,
        ScrapsError,
    >)
        ensures
            r is Ok <==> self_keys(scrap_views(scraps@)).contains(
                KeyV { ctx: opt_chars(*ctx), title: title@ },
            ),
            r matches Err(e) ==> reports(e, title@, opt_chars(*ctx)),
            r matches Ok(res) ==> backlink_views(res@) == backlinks_of(
                scrap_views(scraps@),
                KeyV { ctx: opt_chars(*ctx), title: title@ },
            ).map_values(|s: ScrapV| shown(s)),
    {
        let ghost sv = scrap_views(scraps@);
        let key = ScrapKey::new(title, ctx);
        proof {
            lemma_first_with_key_exists(sv, key@);
        }
        if first_scrap_with_key(scraps, &key).is_none() {
            return Err(not_found(title, ctx));
        }
        let bm = BacklinksMap::new(scraps);
        let linking = bm.get(&key);
        let ghost lv = scrap_views(linking@);
        let mut out: Vec<LookupScrapBacklinksResult> = Vec::new();
        let mut j: usize = 0;
        while j < linking.len()
            invariant
                j <= linking.len(),
                lv == scrap_views(linking@),
                out.len() == j,
                forall|m: int| 0 <= m < j ==> (#[trigger] out@[m])@ == shown(lv[m]),
            decreases linking.len() - j,
        {
            let s = &linking[j];
            assert(lv[j as int] == s@);
            out.push(
                LookupScrapBacklinksResult {
                    title: s.title.clone(),
                    ctx: clone_opt(&s.ctx),
                    md_text: s.md_text.clone(),
                },
            );
            j += 1;
        }
        assert(backlink_views(out@) =~= lv.map_values(|s: ScrapV| shown(s)));
        Ok(out)
    }
}

} // verus!
