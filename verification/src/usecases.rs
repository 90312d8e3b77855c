//! The smaller commands: collecting frontmatter, setting up a project, and
//! serving a built site.

use vstd::prelude::*;

use crate::error::ScrapsError;
use crate::model::{clone_opt, opt_chars, scrap_views, Scrap, ScrapV};
use crate::order::{
    insertion_order, key_triples, permuted, stable_order, KeyTriple, OrderKey,
    ctx_text,
};

verus! {

broadcast use crate::model::lemma_scrap_view;

#[verifier::external_type_specification]
#[verifier::external_body]
pub struct ExJsonValue(serde_json::Value);

/// `Clone` of `serde_json::Value`: claimed to give back an equal value, as
/// the derived `Clone` of its plain data enum does.
pub assume_specification[ <serde_json::Value as Clone>::clone ](v: &serde_json::Value) -> (r:
    serde_json::Value)
    ensures
        r == *v,
;

/// One scrap's frontmatter, with the scrap it came from.
#[derive(Debug, Clone, PartialEq)]
pub struct FrontmatterResult {
    pub title: String,
    pub ctx: Option<String>,
    pub frontmatter: serde_json::Value,
}

/// The key frontmatter results are ordered by: context, then title.
pub open spec fn scrap_order_key(s: ScrapV) -> KeyTriple {
    (0, ctx_text(s.ctx), s.title)
}

/// The scraps that have frontmatter, with theirs, in wiki order.
pub open spec fn with_frontmatter(ss: Seq<ScrapV>, fm: Seq<Option<serde_json::Value>>) -> Seq<
    (ScrapV, serde_json::Value),
>
    decreases ss.len(),
{
    if ss.len() == 0 {
        seq![]
    } else {
        let i = ss.len() - 1;
        with_frontmatter(ss.drop_last(), fm) + if i < fm.len() && fm[i] is Some {
            seq![(ss[i], fm[i]->0)]
        } else {
            seq![]
        }
    }
}

/// The scraps that have frontmatter, with theirs, ordered by context then
/// title, equal names in wiki order.
pub open spec fn frontmatter_results(ss: Seq<ScrapV>, fm: Seq<Option<serde_json::Value>>) -> Seq<
    (Seq<char>, Option<Seq<char>>, serde_json::Value),
> {
    let found = with_frontmatter(ss, fm);
    permuted(
        found,
        insertion_order(
            found.map_values(|e: (ScrapV, serde_json::Value)| scrap_order_key(e.0)),
            found.len() as int,
        ),
    ).map_values(|e: (ScrapV, serde_json::Value)| (e.0.title, e.0.ctx, e.1))
}

pub open spec fn frontmatter_views(v: Seq<FrontmatterResult>) -> Seq<
    (Seq<char>, Option<Seq<char>>, serde_json::Value),
> {
    v.map_values(|r: FrontmatterResult| (r.title@, opt_chars(r.ctx), r.frontmatter))
}

/// Collects the frontmatter of a wiki's scraps.
pub struct FrontmatterUsecase;

impl FrontmatterUsecase {
    pub fn new() -> (r: FrontmatterUsecase) {
        FrontmatterUsecase
    }

    /// The frontmatter of each scrap that has one, ordered by context then
    /// title; `frontmatters[i]` is what the `i`-th scrap's frontmatter
    /// parsed to, `None` where it has none or it does not parse.
    pub fn execute(&self, scraps: &[Scrap], frontmatters: &Vec<Option<serde_json::Value>>) -> (r: Result<
        Vec<FrontmatterResult>,
        ScrapsError,
    >)
        ensures
            r matches Ok(res) && frontmatter_views(res@) == frontmatter_results(
                scrap_views(scraps@),
                frontmatters@,
            ),
    {
        let ghost sv = scrap_views(scraps@);
        let mut found: Vec<(usize, serde_json::Value)> = Vec::new();
        let mut i: usize = 0;
        while i < scraps.len()
            invariant
                i <= scraps.len(),
                sv == scrap_views(scraps@),
                found@.map_values(|e: (usize, serde_json::Value)| (sv[e.0 as int], e.1))
                    == with_frontmatter(sv.take(i as int), frontmatters@),
                forall|k: int| 0 <= k < found.len() ==> (#[trigger] found@[k]).0 < i,
            decreases scraps.len() - i,
        {
            assert(sv.take(i + 1).drop_last() =~= sv.take(i as int));
            let ghost before = found@;
            if i < frontmatters.len() {
                match &frontmatters[i] {
                    Some(v) => {
                        found.push((i, v.clone()));
                    },
                    None => {},
                }
            }
            assert(found@.map_values(|e: (usize, serde_json::Value)| (sv[e.0 as int], e.1))
                =~= with_frontmatter(sv.take(i + 1), frontmatters@));
            i += 1;
        }
        assert(sv.take(scraps.len() as int) =~= sv);
        let ghost fv = found@.map_values(|e: (usize, serde_json::Value)| (sv[e.0 as int], e.1));
        let mut keys: Vec<OrderKey> = Vec::new();
        let mut k: usize = 0;
        while k < found.len()
            invariant
                k <= found.len(),
                sv == scrap_views(scraps@),
                fv == found@.map_values(|e: (usize, serde_json::Value)| (sv[e.0 as int], e.1)),
                forall|m: int| 0 <= m < found.len() ==> (#[trigger] found@[m]).0 < scraps.len(),
                keys.len() == k,
                forall|m: int| 0 <= m < k ==> (#[trigger] keys@[m])@ == scrap_order_key(fv[m].0),
            decreases found.len() - k,
        {
            let s = &scraps[found[k].0];
            assert(sv[found@[k as int].0 as int] == s@);
            let first = match &s.ctx {
                Some(c) => crate::text::chars_of(c.as_str()),
                None => Vec::new(),
            };
            let key = OrderKey { num: 0, first, second: crate::text::chars_of(s.title.as_str()) };
            assert(key@.1 =~= scrap_order_key(s@).1);
            keys.push(key);
            k += 1;
        }
        assert(key_triples(keys@) =~= fv.map_values(
            |e: (ScrapV, serde_json::Value)| scrap_order_key(e.0),
        ));
        let perm = stable_order(&keys);
        let mut out: Vec<FrontmatterResult> = Vec::new();
        let mut m: usize = 0;
        while m < perm.len()
            invariant
                m <= perm.len() == found.len(),
                sv == scrap_views(scraps@),
                fv == found@.map_values(|e: (usize, serde_json::Value)| (sv[e.0 as int], e.1)),
                forall|j: int| 0 <= j < found.len() ==> (#[trigger] found@[j]).0 < scraps.len(),
                forall|j: int| 0 <= j < perm.len() ==> (#[trigger] perm@[j]) < found.len(),
                out.len() == m,
                forall|j: int|
                    0 <= j < m ==> ((#[trigger] out@[j]).title@, opt_chars(out@[j].ctx), out@[j].frontmatter)
                        == (fv[perm@[j] as int].0.title, fv[perm@[j] as int].0.ctx, fv[perm@[j] as int].1),
            decreases perm.len() - m,
        {
            let e = &found[perm[m]];
            let s = &scraps[e.0];
            assert(sv[e.0 as int] == s@);
            out.push(
                FrontmatterResult {
                    title: s.title.clone(),
                    ctx: clone_opt(&s.ctx),
                    frontmatter: e.1.clone(),
                },
            );
            m += 1;
        }
        assert(frontmatter_views(out@) =~= frontmatter_results(sv, frontmatters@));
        Ok(out)
    }
}

/// Sets up a scraps project.
pub struct InitUsecase;

impl InitUsecase {
    pub fn new() -> (r: InitUsecase) {
        InitUsecase
    }
}

/// What `init` writes to `.gitignore`: the build output directory.
pub fn gitignore_text() -> (r: &'static str)
    ensures
        r@ == "_site\n"@,
{
    "_site\n"
}

/// Serves a built site from its output directory.
pub struct ServeUsecase {
    pub output_dir_path: String,
}

impl ServeUsecase {
    pub fn new(output_dir_path: &str) -> (r: ServeUsecase)
        ensures
            r.output_dir_path@ == output_dir_path@,
    {
        ServeUsecase { output_dir_path: output_dir_path.to_owned() }
    }
}

} // verus!
