//! Where each page of a built site goes, and what it lists. Turning this
//! into HTML through templates is left to the caller.

use vstd::prelude::*;

use crate::backlinks::{backlinks_of, tag_backlinks_of, BacklinksMap};
use crate::graph::{GraphSelection, MAX_NODES};
use crate::lint::{last_scrap_with_key, last_with_key};
use crate::model::{key_views, links, scrap_views, self_key, tags, KeyV, Scrap, ScrapV, string_views};
use crate::pages::{
    chunks_of, detail_rows, row_views, rows_by_key_desc, tag_entry, tag_slug, tag_view,
    IndexScrapsTera, ScrapDetail, ScrapDetails, SortKey, TagTera,
};
use crate::search::file_stem;
use crate::site::ListViewConfigs;
use crate::text::{push_str, string_of};

verus! {

broadcast use crate::model::lemma_scrap_view;

/// `Path::join` of a relative path `b` onto `a`: `b` after `a` and a `/`,
/// unless `a` is empty or already ends in one.
pub open spec fn join_path(a: Seq<char>, b: Seq<char>) -> Seq<char> {
    if a.len() == 0 {
        b
    } else if a.last() == '/' {
        a + b
    } else {
        a + "/"@ + b
    }
}

/// `b` joined onto the directory `a`.
pub fn join(a: &str, b: &str) -> (r: String)
    ensures
        r@ == join_path(a@, b@),
{
    let ac = crate::text::chars_of(a);
    let mut v: Vec<char> = Vec::new();
    push_str(&mut v, a);
    if ac.len() > 0 && ac[ac.len() - 1] != '/' {
        v.push('/');
    }
    push_str(&mut v, b);
    proof {
        reveal_strlit("/");
    }
    let r = string_of(v.as_slice());
    assert(r@ =~= join_path(a@, b@));
    r
}

/// Renders the about page, from the wiki's README, at `about/`.
pub struct AboutRender {
    pub output_about_dir_path: String,
}

impl AboutRender {
    pub fn new(static_dir_path: &str, output_dir_path: &str) -> (r: AboutRender)
        ensures
            r.output_about_dir_path@ == join_path(output_dir_path@, "about"@),
    {
        AboutRender { output_about_dir_path: join(output_dir_path, "about") }
    }

    /// The file the about page is written to.
    pub fn file_path(&self) -> (r: String)
        ensures
            r@ == join_path(self.output_about_dir_path@, "index.html"@),
    {
        join(self.output_about_dir_path.as_str(), "index.html")
    }
}

/// Renders the stylesheet.
pub struct CSSRender {
    pub output_dir_path: String,
}

impl CSSRender {
    pub fn new(static_dir_path: &str, output_dir_path: &str) -> (r: CSSRender)
        ensures
            r.output_dir_path@ == output_dir_path@,
    {
        CSSRender { output_dir_path: output_dir_path.to_owned() }
    }

    /// The file the stylesheet is written to.
    pub fn main_path(&self) -> (r: String)
        ensures
            r@ == join_path(self.output_dir_path@, "main.css"@),
    {
        join(self.output_dir_path.as_str(), "main.css")
    }
}

/// Renders the index views: the recently updated (the home page) and the
/// most linked, each cut into pages.
pub struct IndexRender {
    pub output_dir_path: String,
}

/// Index pages of `size` rows.
pub open spec fn index_pages(rows: Seq<crate::pages::IndexRowV>, k: SortKey, size: int) -> Seq<Seq<crate::pages::IndexRowV>> {
    chunks_of(rows_by_key_desc(rows, k), size)
}

/// An index view's pages, joined, list its rows in the view's order, each
/// once; every page holds `size` rows but the last, which holds at most
/// `size` and at least one.
pub proof fn lemma_index_pages_list_the_sorted_rows(rows: Seq<crate::pages::IndexRowV>, k: SortKey, size: int)
    requires
        size > 0,
    ensures
        index_pages(rows, k, size).flatten() == rows_by_key_desc(rows, k),
        index_pages(rows, k, size).len() == (rows.len() + size - 1) / size,
        forall|i: int|
            0 <= i < index_pages(rows, k, size).len() ==> 0 < (#[trigger] index_pages(rows, k, size)[i]).len()
                <= size,
        forall|i: int|
            0 <= i < index_pages(rows, k, size).len() - 1 ==> (#[trigger] index_pages(rows, k, size)[i]).len()
                == size,
{
    crate::pages::lemma_pages_keep_every_row(rows_by_key_desc(rows, k), size);
    crate::pages::lemma_pair_le_total();
    let kr = crate::pages::keyed_rows(rows, k);
    kr.lemma_sort_by_ensures(|a: (int, int), b: (int, int)| crate::pages::pair_le(a, b));
    kr.sort_by(|a: (int, int), b: (int, int)| crate::pages::pair_le(a, b)).to_multiset_ensures();
    kr.to_multiset_ensures();
    assert(rows_by_key_desc(rows, k).len() == rows.len());
}

pub open spec fn page_views(v: Seq<IndexScrapsTera>) -> Seq<Seq<crate::pages::IndexRowV>> {
    v.map_values(|c: IndexScrapsTera| row_views(c.0@))
}

impl IndexRender {
    pub fn new(static_dir_path: &str, output_dir_path: &str) -> (r: IndexRender)
        ensures
            r.output_dir_path@ == output_dir_path@,
    {
        IndexRender { output_dir_path: output_dir_path.to_owned() }
    }

    /// The pages of the two index views: recently committed first, then
    /// most linked first, each cut into pages as `list_view_configs` says.
    pub fn views(
        &self,
        list_view_configs: &ListViewConfigs,
        scrap_details: &ScrapDetails,
        backlinks_map: &BacklinksMap,
    ) -> (r: (Vec<IndexScrapsTera>, Vec<IndexScrapsTera>))
        requires
            match list_view_configs.paging {
                crate::site::Paging::Not => scrap_details.0@.len() > 0,
                crate::site::Paging::By(size) => size > 0,
            },
        ensures
            ({
                let rows = detail_rows(backlinks_map@, scrap_details.0@);
                let size = match list_view_configs.paging {
                    crate::site::Paging::Not => scrap_details.0@.len() as int,
                    crate::site::Paging::By(size) => size as int,
                };
                &&& page_views(r.0@) == index_pages(rows, SortKey::CommittedDate, size)
                &&& page_views(r.1@) == index_pages(rows, SortKey::LinkedCount, size)
            }),
    {
        let size = list_view_configs.paging.size_with(scrap_details.len());
        let updated = IndexScrapsTera::new_with_sort(scrap_details, backlinks_map, &SortKey::CommittedDate);
        let linked = IndexScrapsTera::new_with_sort(scrap_details, backlinks_map, &SortKey::LinkedCount);
        (updated.chunks(size), linked.chunks(size))
    }
}

/// What a scrap page shows besides the scrap itself.
pub struct ScrapPage {
    /// The file the page is written to.
    pub file_path: String,
    /// The scrap's tags.
    pub tags: Vec<TagTera>,
    /// The scraps linking to it, in wiki order.
    pub linked_scraps: Vec<Scrap>,
    /// The scraps it links to, in link order; links to no scrap drop out.
    pub outbound_scraps: Vec<Scrap>,
    /// Its neighbourhood graph, when it has neighbours.
    pub graph: Option<GraphSelection>,
}

/// The scraps the names `ls` resolve to in `ss`, each the last scrap known
/// by it, in order; names no scrap has drop out.
pub open spec fn resolved(ss: Seq<ScrapV>, ls: Seq<KeyV>) -> Seq<ScrapV>
    decreases ls.len(),
{
    if ls.len() == 0 {
        seq![]
    } else {
        resolved(ss, ls.drop_last()) + match last_with_key(ss, ls.last()) {
            Some(s) => seq![s],
            None => seq![],
        }
    }
}

/// Renders one page per scrap, under `scraps/`.
pub struct ScrapRender {
    pub output_scraps_dir_path: String,
}

impl ScrapRender {
    pub fn new(static_dir_path: &str, output_dir_path: &str) -> (r: ScrapRender)
        ensures
            r.output_scraps_dir_path@ == join_path(output_dir_path@, "scraps"@),
    {
        ScrapRender { output_scraps_dir_path: join(output_dir_path, "scraps") }
    }

    /// What the page of the scrap of `scrap_detail` shows, in the wiki
    /// `scraps` with the backlinks of `backlinks_map`.
    pub fn page(&self, scrap_detail: &ScrapDetail, backlinks_map: &BacklinksMap, scraps: &[Scrap]) -> (r:
        ScrapPage)
        ensures
            ({
                let s = scrap_detail.v@;
                &&& r.file_path@ == join_path(
                    self.output_scraps_dir_path@,
                    file_stem(self_key(s)) + ".html"@,
                )
                &&& r.tags@.map_values(|t: TagTera| tag_view(t)) == tags(s).map_values(
                    |t: Seq<char>| tag_entry(backlinks_map@, t),
                )
                &&& scrap_views(r.linked_scraps@) == backlinks_of(backlinks_map@, self_key(s))
                &&& scrap_views(r.outbound_scraps@) == resolved(scrap_views(scraps@), links(s))
                &&& r.linked_scraps@.len() + r.outbound_scraps@.len() <= usize::MAX ==> crate::graph::drawn_as(
                    s.title,
                    scrap_views(r.linked_scraps@),
                    scrap_views(r.outbound_scraps@),
                    MAX_NODES as int,
                    r.graph,
                )
                &&& r.linked_scraps@.len() + r.outbound_scraps@.len() > usize::MAX ==> r.graph is None
                &&& r.linked_scraps@.len() + r.outbound_scraps@.len() <= usize::MAX ==> (r.graph is Some <==> (
                    r.linked_scraps@.len() > 0 || r.outbound_scraps@.len() > 0))
            }),
    {
        let scrap = scrap_detail.scrap();
        let key = scrap.self_key();
        let mut name: Vec<char> = Vec::new();
        let stem = key.to_text();
        push_str(&mut name, stem.as_str());
        push_str(&mut name, ".html");
        let file_name = string_of(name.as_slice());
        let file_path = join(self.output_scraps_dir_path.as_str(), file_name.as_str());
        let ts = scrap.tags();
        let ghost tv = string_views(ts@);
        let mut tag_teras: Vec<TagTera> = Vec::new();
        let mut i: usize = 0;
        while i < ts.len()
            invariant
                i <= ts.len(),
                tv == string_views(ts@),
                tag_teras.len() == i,
                forall|j: int| 0 <= j < i ==> tag_view(#[trigger] tag_teras@[j]) == tag_entry(backlinks_map@, tv[j]),
            decreases ts.len() - i,
        {
            tag_teras.push(TagTera::new(ts[i].as_str(), backlinks_map));
            i += 1;
        }
        assert(tag_teras@.map_values(|t: TagTera| tag_view(t)) =~= tv.map_values(
            |t: Seq<char>| tag_entry(backlinks_map@, t),
        ));
        let linked = backlinks_map.get(&key);
        let ls = scrap.links();
        let ghost lv = key_views(ls@);
        let ghost sv = scrap_views(scraps@);
        let mut outbound: Vec<Scrap> = Vec::new();
        let mut j: usize = 0;
        while j < ls.len()
            invariant
                j <= ls.len(),
                lv == key_views(ls@),
                sv == scrap_views(scraps@),
                scrap_views(outbound@) == resolved(sv, lv.take(j as int)),
            decreases ls.len() - j,
        {
            assert(lv.take(j + 1).drop_last() =~= lv.take(j as int));
            assert(lv.take(j + 1).last() == ls@[j as int]@);
            let ghost before = scrap_views(outbound@);
            match last_scrap_with_key(scraps, &ls[j]) {
                Some(t) => {
                    outbound.push(scraps[t].duplicate());
                    assert(scrap_views(outbound@) =~= before + seq![sv[t as int]]);
                },
                None => {
                    assert(scrap_views(outbound@) =~= before + Seq::<ScrapV>::empty());
                },
            }
            j += 1;
        }
        assert(lv.take(ls.len() as int) =~= lv);
        let graph = if linked.len() <= usize::MAX - outbound.len() {
            GraphSelection::new(scrap.title.as_str(), linked.as_slice(), outbound.as_slice(), MAX_NODES)
        } else {
            None
        };
        proof {
            if linked@.len() + outbound@.len() <= usize::MAX {
                crate::graph::lemma_graph_exactly_with_neighbours(
                    scrap@.title,
                    scrap_views(linked@),
                    scrap_views(outbound@),
                    MAX_NODES as int,
                    graph,
                );
            }
        }
        ScrapPage { file_path, tags: tag_teras, linked_scraps: linked, outbound_scraps: outbound, graph }
    }
}

/// Renders the listing of every scrap by title, at `scraps/`.
pub struct ScrapsIndexRender {
    pub output_scraps_dir_path: String,
}

impl ScrapsIndexRender {
    pub fn new(static_dir_path: &str, output_dir_path: &str) -> (r: ScrapsIndexRender)
        ensures
            r.output_scraps_dir_path@ == join_path(output_dir_path@, "scraps"@),
    {
        ScrapsIndexRender { output_scraps_dir_path: join(output_dir_path, "scraps") }
    }

    /// The file the listing is written to.
    pub fn file_path(&self) -> (r: String)
        ensures
            r@ == join_path(self.output_scraps_dir_path@, "index.html"@),
    {
        join(self.output_scraps_dir_path.as_str(), "index.html")
    }
}

/// What a tag page shows.
pub struct TagPage {
    pub file_path: String,
    pub tag: TagTera,
    /// The scraps the tag applies to, in wiki order.
    pub linked_scraps: Vec<Scrap>,
}

/// Renders one page per tag, under `tags/`, each segment of a tag path a
/// directory.
pub struct TagRender {
    pub output_tags_dir_path: String,
}

impl TagRender {
    pub fn new(static_dir_path: &str, output_dir_path: &str) -> (r: TagRender)
        ensures
            r.output_tags_dir_path@ == join_path(output_dir_path@, "tags"@),
    {
        TagRender { output_tags_dir_path: join(output_dir_path, "tags") }
    }

    /// What the page of `tag` shows, and where it goes.
    pub fn page(&self, tag: &str, backlinks_map: &BacklinksMap) -> (r: TagPage)
        ensures
            r.file_path@ == join_path(self.output_tags_dir_path@, tag_slug(tag@) + ".html"@),
            tag_view(r.tag) == tag_entry(backlinks_map@, tag@),
            scrap_views(r.linked_scraps@) == tag_backlinks_of(backlinks_map@, tag@),
    {
        let mut name: Vec<char> = Vec::new();
        let slug = crate::pages::tag_slug_path(tag);
        push_str(&mut name, slug.as_str());
        push_str(&mut name, ".html");
        let file_name = string_of(name.as_slice());
        TagPage {
            file_path: join(self.output_tags_dir_path.as_str(), file_name.as_str()),
            tag: TagTera::new(tag, backlinks_map),
            linked_scraps: backlinks_map.get_tag(tag),
        }
    }
}

/// Renders the index of every tag, at `tags/`.
pub struct TagsIndexRender {
    pub output_tags_dir_path: String,
}

impl TagsIndexRender {
    pub fn new(static_dir_path: &str, output_dir_path: &str) -> (r: TagsIndexRender)
        ensures
            r.output_tags_dir_path@ == join_path(output_dir_path@, "tags"@),
    {
        TagsIndexRender { output_tags_dir_path: join(output_dir_path, "tags") }
    }

    /// The file the tag index is written to.
    pub fn file_path(&self) -> (r: String)
        ensures
            r@ == join_path(self.output_tags_dir_path@, "index.html"@),
    {
        join(self.output_tags_dir_path.as_str(), "index.html")
    }
}

/// Renders the title index, at `titles/`.
pub struct TitleIndexRender {
    pub output_titles_dir_path: String,
}

impl TitleIndexRender {
    pub fn new(static_dir_path: &str, output_dir_path: &str) -> (r: TitleIndexRender)
        ensures
            r.output_titles_dir_path@ == join_path(output_dir_path@, "titles"@),
    {
        TitleIndexRender { output_titles_dir_path: join(output_dir_path, "titles") }
    }

    /// The file the title index is written to.
    pub fn file_path(&self) -> (r: String)
        ensures
            r@ == join_path(self.output_titles_dir_path@, "index.html"@),
    {
        join(self.output_titles_dir_path.as_str(), "index.html")
    }
}

/// Renders the search index, `search_index.json`, from a template that a
/// site may override in its static directory.
pub struct SearchIndexRender {
    pub static_dir_path: String,
    pub public_dir_path: String,
}

impl SearchIndexRender {
    pub fn new(static_dir_path: &str, public_dir_path: &str) -> (r: SearchIndexRender)
        ensures
            r.static_dir_path@ == static_dir_path@,
            r.public_dir_path@ == public_dir_path@,
    {
        SearchIndexRender {
            static_dir_path: static_dir_path.to_owned(),
            public_dir_path: public_dir_path.to_owned(),
        }
    }

    /// The file the search index is written to.
    pub fn file_path(&self) -> (r: String)
        ensures
            r@ == join_path(self.public_dir_path@, "search_index.json"@),
    {
        join(self.public_dir_path.as_str(), "search_index.json")
    }
}

} // verus!
