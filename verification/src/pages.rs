//! What the pages of a built site list: tags with their counts, the title
//! index in sections, and the scraps of each index view.

use vstd::prelude::*;

use crate::backlinks::{backlinks_of, tag_backlinks_of, BacklinksMap};
use crate::lint::{slug, slug_of};
use crate::model::{clone_opt, links, opt_chars, scrap_views, self_key, string_views, Scrap, ScrapV};
use crate::order::{
    entry_lt, insertion_order, is_stable_order, key_triples, lemma_insertion_order_sorted, permuted, stable_order,
    KeyTriple, OrderKey,
};
use crate::search::file_stem;
use crate::tags::Tags;
use crate::text::{chars_of, lowercase, push_str, string_of, to_lowercase};
use crate::title_group::{group_precedes, lemma_group_order_facts, spec_group_of_title, spec_label, TitleGroup};

verus! {

broadcast use crate::model::lemma_scrap_view;

// ------------------------------------------------------------------ tags --

/// The URL path of a tag: each `/`-separated segment of it slugged, from
/// the segment starting at `start`, scanning from `i`.
pub open spec fn tag_slug_from(t: Seq<char>, start: int, i: int) -> Seq<char>
    decreases t.len() - i,
{
    if i < start || i >= t.len() {
        slug(t.subrange(start, t.len() as int))
    } else if t[i] == '/' {
        slug(t.subrange(start, i)) + "/"@ + tag_slug_from(t, i + 1, i + 1)
    } else {
        tag_slug_from(t, start, i + 1)
    }
}

/// The URL path of a tag: `ai/Machine Learning` gives `ai/machine-learning`.
pub open spec fn tag_slug(t: Seq<char>) -> Seq<char> {
    tag_slug_from(t, 0, 0)
}

/// The URL path of a tag.
pub fn tag_slug_path(tag: &str) -> (r: String)
    ensures
        r@ == tag_slug(tag@),
{
    let t = chars_of(tag);
    let mut out: Vec<char> = Vec::new();
    let mut start: usize = 0;
    let mut i: usize = 0;
    while i < t.len()
        invariant
            start <= i <= t.len(),
            t@ == tag@,
            out@ + tag_slug_from(t@, start as int, i as int) == tag_slug(t@),
        decreases t.len() - i,
    {
        if t[i] == '/' {
            let seg = string_of(crate::textops::slice_to_vec(t.as_slice(), start, i).as_slice());
            let s = slug_of(seg.as_str());
            let ghost before = out@;
            crate::textops::append_range(&mut out, s.as_slice(), 0, s.len());
            out.push('/');
            assert(s@.subrange(0, s@.len() as int) =~= s@);
            proof {
                reveal_strlit("/");
            }
            assert(seg@ == t@.subrange(start as int, i as int));
            assert(tag_slug_from(t@, start as int, i as int) == slug(t@.subrange(start as int, i as int))
                + "/"@ + tag_slug_from(t@, i + 1, i + 1));
            assert(out@ + tag_slug_from(t@, i + 1, i + 1) =~= before + tag_slug_from(
                t@,
                start as int,
                i as int,
            ));
            start = i + 1;
        }
        i += 1;
    }
    let seg = string_of(crate::textops::slice_to_vec(t.as_slice(), start, t.len()).as_slice());
    let s = slug_of(seg.as_str());
    crate::textops::append_range(&mut out, s.as_slice(), 0, s.len());
    assert(s@.subrange(0, s@.len() as int) =~= s@);
    string_of(out.as_slice())
}

/// A tag as its pages show it.
#[derive(Debug, Clone, PartialEq, Eq)]
pub struct TagTera {
    /// The full tag path, e.g. `ai/ml`.
    pub title: String,
    /// The tag's URL path.
    pub slug: String,
    /// The scraps the tag applies to, descendants' included.
    pub backlinks_count: usize,
}

/// A tag as a value: path, URL path, count.
pub open spec fn tag_view(t: TagTera) -> (Seq<char>, Seq<char>, int) {
    (t.title@, t.slug@, t.backlinks_count as int)
}

/// What a tag's pages show of it, in a wiki `bm`.
pub open spec fn tag_entry(bm: Seq<ScrapV>, t: Seq<char>) -> (Seq<char>, Seq<char>, int) {
    (t, tag_slug(t), tag_backlinks_of(bm, t).len() as int)
}

impl TagTera {
    pub fn new(tag: &str, backlinks_map: &BacklinksMap) -> (r: TagTera)
        ensures
            tag_view(r) == tag_entry(backlinks_map@, tag@),
    {
        let count = backlinks_map.get_tag(tag).len();
        TagTera { title: tag.to_owned(), slug: tag_slug_path(tag), backlinks_count: count }
    }
}

/// The key tags are listed by: most scraps first, then by path.
pub open spec fn tag_order_key(e: (Seq<char>, Seq<char>, int)) -> KeyTriple {
    (-e.2, e.0, seq![])
}

/// The tags of a wiki as its tag index lists them: most used first, ties by
/// path.
pub open spec fn tags_listing(bm: Seq<ScrapV>, ts: Seq<Seq<char>>) -> Seq<(Seq<char>, Seq<char>, int)> {
    let es = ts.map_values(|t: Seq<char>| tag_entry(bm, t));
    permuted(es, insertion_order(es.map_values(|e: (Seq<char>, Seq<char>, int)| tag_order_key(e)), es.len() as int))
}

/// The tags of a wiki, as its tag index lists them.
#[derive(Debug, Clone, PartialEq, Eq)]
pub struct TagsTera(pub Vec<TagTera>);

impl TagsTera {
    pub fn new(tags: &Tags, backlinks_map: &BacklinksMap) -> (r: TagsTera)
        ensures
            r.0@.map_values(|t: TagTera| tag_view(t)) == tags_listing(backlinks_map@, tags@),
            is_stable_order(
                tags@.map_values(|t: Seq<char>| tag_order_key(tag_entry(backlinks_map@, t))),
                insertion_order(
                    tags@.map_values(|t: Seq<char>| tag_order_key(tag_entry(backlinks_map@, t))),
                    tags@.len() as int,
                ),
            ),
    {
        let ts = tags.to_vec();
        let ghost es = tags@.map_values(|t: Seq<char>| tag_entry(backlinks_map@, t));
        let mut teras: Vec<TagTera> = Vec::new();
        let mut keys: Vec<OrderKey> = Vec::new();
        let mut i: usize = 0;
        while i < ts.len()
            invariant
                i <= ts.len(),
                string_views(ts@) == tags@,
                es == tags@.map_values(|t: Seq<char>| tag_entry(backlinks_map@, t)),
                teras.len() == i,
                keys.len() == i,
                forall|j: int| 0 <= j < i ==> tag_view(#[trigger] teras@[j]) == es[j],
                forall|j: int| 0 <= j < i ==> (#[trigger] keys@[j])@ == tag_order_key(es[j]),
            decreases ts.len() - i,
        {
            let t = TagTera::new(ts[i].as_str(), backlinks_map);
            assert(ts@[i as int]@ == tags@[i as int]);
            let key = OrderKey {
                num: 0i128 - (t.backlinks_count as i128),
                first: chars_of(t.title.as_str()),
                second: Vec::new(),
            };
            assert(key@.2 =~= Seq::<char>::empty());
            keys.push(key);
            teras.push(t);
            i += 1;
        }
        assert(key_triples(keys@) =~= es.map_values(|e: (Seq<char>, Seq<char>, int)| tag_order_key(e)));
        assert(tags@.map_values(|t: Seq<char>| tag_order_key(tag_entry(backlinks_map@, t))) =~= es.map_values(
            |e: (Seq<char>, Seq<char>, int)| tag_order_key(e),
        ));
        let perm = stable_order(&keys);
        let mut out: Vec<TagTera> = Vec::new();
        let mut k: usize = 0;
        while k < perm.len()
            invariant
                k <= perm.len() == teras.len(),
                forall|j: int| 0 <= j < perm.len() ==> (#[trigger] perm@[j]) < teras.len(),
                forall|j: int| 0 <= j < teras.len() ==> tag_view(#[trigger] teras@[j]) == es[j],
                out.len() == k,
                forall|j: int| 0 <= j < k ==> tag_view(#[trigger] out@[j]) == es[perm@[j] as int],
            decreases perm.len() - k,
        {
            let t = &teras[perm[k]];
            out.push(TagTera { title: t.title.clone(), slug: t.slug.clone(), backlinks_count: t.backlinks_count });
            k += 1;
        }
        assert(out@.map_values(|t: TagTera| tag_view(t)) =~= tags_listing(backlinks_map@, tags@));
        TagsTera(out)
    }
}

// ---------------------------------------------------------------- scraps --

/// A scrap as read for a build, with the time of its latest commit.
#[derive(Debug, Clone, PartialEq, Eq)]
pub struct ScrapDetail {
    pub v: Scrap,
    pub commited_ts: Option<i64>,
}

impl ScrapDetail {
    pub fn new(scrap: &Scrap, commited_ts: &Option<i64>) -> (r: ScrapDetail)
        ensures
            r.v@ == scrap@,
            r.commited_ts == *commited_ts,
    {
        ScrapDetail { v: scrap.duplicate(), commited_ts: *commited_ts }
    }

    pub fn scrap(&self) -> (r: &Scrap)
        ensures
            r@ == self.v@,
    {
        &self.v
    }

    pub fn commited_ts(&self) -> (r: Option<i64>)
        ensures
            r == self.commited_ts,
    {
        self.commited_ts
    }
}

/// The scraps of a build.
pub struct ScrapDetails(pub Vec<ScrapDetail>);

pub open spec fn detail_scraps(v: Seq<ScrapDetail>) -> Seq<ScrapV> {
    v.map_values(|d: ScrapDetail| d.v@)
}

impl ScrapDetails {
    pub fn new(scrap_details: Vec<ScrapDetail>) -> (r: ScrapDetails)
        ensures
            r.0@ == scrap_details@,
    {
        ScrapDetails(scrap_details)
    }

    pub fn as_slice(&self) -> (r: &[ScrapDetail])
        ensures
            r@ == self.0@,
    {
        self.0.as_slice()
    }

    /// The scraps, in order.
    pub fn to_scraps(&self) -> (r: Vec<Scrap>)
        ensures
            scrap_views(r@) == detail_scraps(self.0@),
    {
        let mut r: Vec<Scrap> = Vec::new();
        let mut i: usize = 0;
        while i < self.0.len()
            invariant
                i <= self.0.len(),
                r.len() == i,
                forall|j: int| 0 <= j < i ==> (#[trigger] r@[j])@ == self.0@[j].v@,
            decreases self.0.len() - i,
        {
            r.push(self.0[i].v.duplicate());
            i += 1;
        }
        assert(scrap_views(r@) =~= detail_scraps(self.0@));
        r
    }

    pub fn len(&self) -> (r: usize)
        ensures
            r == self.0@.len(),
    {
        self.0.len()
    }
}

// ----------------------------------------------------------- title index --

/// A scrap as the title index lists it.
#[derive(Debug, Clone, PartialEq, Eq)]
pub struct SerializeTitleIndexScrap {
    pub ctx: Option<String>,
    pub title: String,
    pub html_file_name: String,
    pub backlinks_count: usize,
}

/// A title index entry as a value.
pub open spec fn title_entry_view(e: SerializeTitleIndexScrap) -> (Option<Seq<char>>, Seq<char>, Seq<char>, int) {
    (opt_chars(e.ctx), e.title@, e.html_file_name@, e.backlinks_count as int)
}

/// The entry of a scrap in the title index of the wiki `bm`.
pub open spec fn title_entry(bm: Seq<ScrapV>, s: ScrapV) -> (Option<Seq<char>>, Seq<char>, Seq<char>, int) {
    (s.ctx, s.title, file_stem(self_key(s)) + ".html"@, backlinks_of(bm, self_key(s)).len() as int)
}

/// A section of the title index.
#[derive(Debug, Clone, PartialEq, Eq)]
pub struct TitleIndexGroupTera {
    pub label: String,
    pub scraps: Vec<SerializeTitleIndexScrap>,
}

/// The title index: its sections in order, kana rows first, then Latin
/// letters, kanji and the rest.
#[derive(Debug, Clone, PartialEq, Eq)]
pub struct TitleIndexTera(pub Vec<TitleIndexGroupTera>);

/// The position of a section in the index: kana rows, Latin letters (each
/// by character), kanji, then the rest.
pub open spec fn group_rank(g: TitleGroup) -> int {
    match g {
        TitleGroup::Kana(c) => c as int,
        TitleGroup::Latin(c) => 0x110000 + c as int,
        TitleGroup::Kanji => 0x220000,
        TitleGroup::Other => 0x220001,
    }
}

fn group_rank_of(g: TitleGroup) -> (r: i128)
    ensures
        r == group_rank(g),
{
    match g {
        TitleGroup::Kana(c) => c as u32 as i128,
        TitleGroup::Latin(c) => 0x110000i128 + (c as u32 as i128),
        TitleGroup::Kanji => 0x220000,
        TitleGroup::Other => 0x220001,
    }
}

/// The key a scrap is placed in the title index by: its section, then its
/// lowercased title.
pub open spec fn title_order_key(s: ScrapV) -> KeyTriple {
    (group_rank(spec_group_of_title(s.title)), lowercase(s.title), seq![])
}

/// The scraps in title index order.
pub open spec fn title_order(ss: Seq<ScrapV>) -> Seq<ScrapV> {
    permuted(ss, insertion_order(ss.map_values(|s: ScrapV| title_order_key(s)), ss.len() as int))
}

/// The group of a scrap's title.
pub open spec fn title_group_of(s: ScrapV) -> TitleGroup {
    spec_group_of_title(s.title)
}

/// Each scrap's group is the group of every later one or comes before it.
pub open spec fn groups_ascend(ss: Seq<ScrapV>) -> bool {
    forall|i: int, j: int|
        0 <= i < j < ss.len() ==> title_group_of(#[trigger] ss[i]) == title_group_of(#[trigger] ss[j])
            || group_precedes(title_group_of(ss[i]), title_group_of(ss[j]))
}

proof fn lemma_rank_orders_groups(a: TitleGroup, b: TitleGroup)
    ensures
        group_rank(a) < group_rank(b) ==> group_precedes(a, b),
        group_rank(a) == group_rank(b) ==> a == b,
{
    match (a, b) {
        (TitleGroup::Kana(x), TitleGroup::Kana(y)) => {
            crate::text::lemma_char_of_code(x, x as u32);
            crate::text::lemma_char_of_code(y, y as u32);
        },
        (TitleGroup::Latin(x), TitleGroup::Latin(y)) => {
            crate::text::lemma_char_of_code(x, x as u32);
            crate::text::lemma_char_of_code(y, y as u32);
        },
        _ => {},
    }
}

/// The title index order takes the sections in the order of their groups:
/// kana rows by their lead, then Latin letters alphabetically, then kanji,
/// then the rest.
pub proof fn lemma_title_order_follows_groups(ss: Seq<ScrapV>)
    requires
        ss.len() <= usize::MAX,
    ensures
        title_order(ss).len() == ss.len(),
        groups_ascend(title_order(ss)),
{
    let keys = ss.map_values(|s: ScrapV| title_order_key(s));
    let n = ss.len() as int;
    lemma_insertion_order_sorted(keys, n);
    let perm = insertion_order(keys, n);
    let o = title_order(ss);
    assert forall|k: int| 0 <= k < n - 1 implies title_group_of(#[trigger] o[k]) == title_group_of(o[k + 1])
        || group_precedes(title_group_of(o[k]), title_group_of(o[k + 1])) by {
        assert(entry_lt(keys, perm[k] as int, perm[k + 1] as int));
        assert(o[k] == ss[perm[k] as int]);
        assert(o[k + 1] == ss[perm[k + 1] as int]);
        lemma_rank_orders_groups(title_group_of(o[k]), title_group_of(o[k + 1]));
    }
    assert forall|i: int, j: int| 0 <= i < j < o.len() implies title_group_of(#[trigger] o[i]) == title_group_of(
        #[trigger] o[j],
    ) || group_precedes(title_group_of(o[i]), title_group_of(o[j])) by {
        lemma_groups_chain(o, i, j);
    }
}

proof fn lemma_groups_chain(o: Seq<ScrapV>, i: int, j: int)
    requires
        0 <= i < j < o.len(),
        forall|k: int| 0 <= k < o.len() - 1 ==> title_group_of(#[trigger] o[k]) == title_group_of(o[k + 1])
            || group_precedes(title_group_of(o[k]), title_group_of(o[k + 1])),
    ensures
        title_group_of(o[i]) == title_group_of(o[j]) || group_precedes(title_group_of(o[i]), title_group_of(o[j])),
    decreases j - i,
{
    if j > i + 1 {
        lemma_groups_chain(o, i, j - 1);
        lemma_group_order_facts(title_group_of(o[i]), title_group_of(o[j - 1]), title_group_of(o[j]));
    }
}

/// A section as a value: its label and entries.
pub type SectionV = (Seq<char>, Seq<(Option<Seq<char>>, Seq<char>, Seq<char>, int)>);

/// Scraps already in index order, cut into sections where the section
/// changes.
pub open spec fn sections(bm: Seq<ScrapV>, ss: Seq<ScrapV>) -> Seq<SectionV>
    decreases ss.len(),
{
    if ss.len() == 0 {
        seq![]
    } else {
        let prev = sections(bm, ss.drop_last());
        let s = ss.last();
        let g = spec_group_of_title(s.title);
        if ss.len() > 1 && spec_group_of_title(ss[ss.len() - 2].title) == g {
            prev.update(prev.len() - 1, (prev.last().0, prev.last().1.push(title_entry(bm, s))))
        } else {
            prev.push((spec_label(g), seq![title_entry(bm, s)]))
        }
    }
}

/// The group a section is filed under: that of its first entry's title.
pub open spec fn section_group(sec: SectionV) -> TitleGroup {
    spec_group_of_title(sec.1[0].1)
}

/// Sections cut from scraps whose groups ascend: none is empty, each holds
/// the titles of one group under that group's label, and each section's
/// group comes before the next one's, so no group is split.
pub proof fn lemma_sections_in_group_order(bm: Seq<ScrapV>, ss: Seq<ScrapV>)
    requires
        groups_ascend(ss),
    ensures
        (sections(bm, ss).len() == 0) == (ss.len() == 0),
        forall|k: int|
            0 <= k < sections(bm, ss).len() ==> (#[trigger] sections(bm, ss)[k]).1.len() > 0
                && sections(bm, ss)[k].0 == spec_label(section_group(sections(bm, ss)[k])),
        forall|k: int, j: int|
            0 <= k < sections(bm, ss).len() && 0 <= j < sections(bm, ss)[k].1.len() ==> spec_group_of_title(
                (#[trigger] sections(bm, ss)[k].1[j]).1,
            ) == section_group(sections(bm, ss)[k]),
        forall|k: int, m: int|
            0 <= k < m < sections(bm, ss).len() ==> group_precedes(
                section_group(#[trigger] sections(bm, ss)[k]),
                section_group(#[trigger] sections(bm, ss)[m]),
            ),
        ss.len() > 0 ==> section_group(sections(bm, ss).last()) == title_group_of(ss.last()),
        forall|k: int|
            0 <= k < sections(bm, ss).len() && ss.len() > 0 ==> section_group(#[trigger] sections(bm, ss)[k])
                == title_group_of(ss.last()) || group_precedes(
                section_group(sections(bm, ss)[k]),
                title_group_of(ss.last()),
            ),
    decreases ss.len(),
{
    if ss.len() > 0 {
        let rest = ss.drop_last();
        assert(groups_ascend(rest)) by {
            assert forall|i: int, j: int| 0 <= i < j < rest.len() implies title_group_of(#[trigger] rest[i])
                == title_group_of(#[trigger] rest[j]) || group_precedes(
                title_group_of(rest[i]),
                title_group_of(rest[j]),
            ) by {
                assert(rest[i] == ss[i] && rest[j] == ss[j]);
            }
        }
        lemma_sections_in_group_order(bm, rest);
        let prev = sections(bm, rest);
        let secs = sections(bm, ss);
        let s = ss.last();
        let g = title_group_of(s);
        assert(title_entry(bm, s).1 == s.title);
        if ss.len() > 1 {
            assert(rest.last() == ss[ss.len() - 2]);
            assert(title_group_of(ss[ss.len() - 2]) == g || group_precedes(title_group_of(ss[ss.len() - 2]), g));
        }
        if ss.len() > 1 && spec_group_of_title(ss[ss.len() - 2].title) == g {
            assert(secs == prev.update(prev.len() - 1, (prev.last().0, prev.last().1.push(title_entry(bm, s)))));
            assert forall|k: int| 0 <= k < secs.len() implies section_group(#[trigger] secs[k]) == (if k
                == secs.len() - 1 {
                g
            } else {
                section_group(prev[k])
            }) by {
                if k == secs.len() - 1 {
                    assert(secs[k].1[0] == prev[k].1[0]);
                }
            }
            assert forall|k: int, j: int| 0 <= k < secs.len() && 0 <= j < secs[k].1.len() implies spec_group_of_title(
                (#[trigger] secs[k].1[j]).1,
            ) == section_group(secs[k]) by {
                if k == secs.len() - 1 && j == prev[k].1.len() {
                    assert(secs[k].1[j] == title_entry(bm, s));
                } else if k == secs.len() - 1 {
                    assert(secs[k].1[j] == prev[k].1[j]);
                }
            }
        } else {
            assert(secs == prev.push((spec_label(g), seq![title_entry(bm, s)])));
            assert(section_group(secs.last()) == g);
            assert forall|k: int| 0 <= k < prev.len() implies group_precedes(#[trigger] section_group(prev[k]), g) by {
                lemma_group_order_facts(section_group(prev[k]), title_group_of(rest.last()), g);
            }
            assert forall|k: int, m: int| 0 <= k < m < secs.len() implies group_precedes(
                section_group(#[trigger] secs[k]),
                section_group(#[trigger] secs[m]),
            ) by {
                assert(secs[k] == prev[k]);
                if m < prev.len() {
                    assert(secs[m] == prev[m]);
                }
            }
            assert forall|k: int| 0 <= k < secs.len() implies section_group(#[trigger] secs[k]) == g
                || group_precedes(section_group(secs[k]), g) by {
                if k < prev.len() {
                    assert(secs[k] == prev[k]);
                }
            }
            assert forall|k: int, j: int| 0 <= k < secs.len() && 0 <= j < secs[k].1.len() implies spec_group_of_title(
                (#[trigger] secs[k].1[j]).1,
            ) == section_group(secs[k]) by {
                if k < prev.len() {
                    assert(secs[k] == prev[k]);
                }
            }
            assert forall|k: int| 0 <= k < secs.len() implies (#[trigger] secs[k]).1.len() > 0 && secs[k].0
                == spec_label(section_group(secs[k])) by {
                if k < prev.len() {
                    assert(secs[k] == prev[k]);
                }
            }
        }
    }
}

pub open spec fn section_views(v: Seq<TitleIndexGroupTera>) -> Seq<SectionV> {
    v.map_values(
        |g: TitleIndexGroupTera| (g.label@, g.scraps@.map_values(|e: SerializeTitleIndexScrap| title_entry_view(e))),
    )
}

impl TitleIndexTera {
    /// The title index of the scraps, each with its backlink count in `bm`.
    pub fn new(scrap_details: &ScrapDetails, backlinks_map: &BacklinksMap) -> (r: TitleIndexTera)
        ensures
            section_views(r.0@) == sections(backlinks_map@, title_order(detail_scraps(scrap_details.0@))),
            forall|k: int| 0 <= k < r.0.len() ==> (#[trigger] r.0@[k]).scraps.len() > 0,
            forall|k: int, m: int|
                0 <= k < m < r.0.len() ==> group_precedes(
                    spec_group_of_title((#[trigger] r.0@[k]).scraps@[0].title@),
                    spec_group_of_title((#[trigger] r.0@[m]).scraps@[0].title@),
                ),
    {
        let scraps = scrap_details.to_scraps();
        let ghost sv = scrap_views(scraps@);
        let mut keys: Vec<OrderKey> = Vec::new();
        let mut i: usize = 0;
        while i < scraps.len()
            invariant
                i <= scraps.len(),
                sv == scrap_views(scraps@),
                keys.len() == i,
                forall|j: int| 0 <= j < i ==> (#[trigger] keys@[j])@ == title_order_key(sv[j]),
            decreases scraps.len() - i,
        {
            let s = &scraps[i];
            assert(sv[i as int] == s@);
            let g = TitleGroup::from_title(s.title.as_str());
            let key = OrderKey {
                num: group_rank_of(g),
                first: chars_of(to_lowercase(s.title.as_str()).as_str()),
                second: Vec::new(),
            };
            assert(key@.2 =~= Seq::<char>::empty());
            keys.push(key);
            i += 1;
        }
        assert(key_triples(keys@) =~= sv.map_values(|s: ScrapV| title_order_key(s)));
        let perm = stable_order(&keys);
        let ghost ordered = title_order(sv);
        let mut groups: Vec<TitleIndexGroupTera> = Vec::new();
        let mut last_group: Option<TitleGroup> = None;
        let mut k: usize = 0;
        while k < perm.len()
            invariant
                k <= perm.len() == scraps.len(),
                sv == scrap_views(scraps@),
                ordered == title_order(sv),
                ordered == permuted(sv, perm@),
                forall|j: int| 0 <= j < perm.len() ==> (#[trigger] perm@[j]) < scraps.len(),
                section_views(groups@) == sections(backlinks_map@, ordered.take(k as int)),
                k == 0 ==> last_group is None,
                k > 0 ==> last_group == Some(spec_group_of_title(ordered[k - 1].title)) && groups.len() > 0,
            decreases perm.len() - k,
        {
            let s = &scraps[perm[k]];
            assert(ordered[k as int] == s@);
            assert(ordered.take(k + 1).drop_last() =~= ordered.take(k as int));
            assert(ordered.take(k + 1).last() == s@);
            let g = TitleGroup::from_title(s.title.as_str());
            let entry = SerializeTitleIndexScrap {
                ctx: clone_opt(&s.ctx),
                title: s.title.clone(),
                html_file_name: {
                    let mut v: Vec<char> = Vec::new();
                    let stem = s.self_key().to_text();
                    push_str(&mut v, stem.as_str());
                    push_str(&mut v, ".html");
                    string_of(v.as_slice())
                },
                backlinks_count: backlinks_map.get(&s.self_key()).len(),
            };
            assert(title_entry_view(entry) =~= title_entry(backlinks_map@, s@));
            let ghost before = section_views(groups@);
            let same = match last_group {
                Some(lg) => lg == g,
                None => false,
            };
            if same {
                let ghost old_groups = groups@;
                let n = groups.len();
                let mut last = groups.pop().unwrap();
                let ghost old_last = last;
                last.scraps.push(entry);
                let ghost new_last = last;
                groups.push(last);
                assert(ordered.take(k + 1)[k - 1] == ordered[k - 1]);
                assert(groups@ =~= old_groups.update(n - 1, new_last));
                assert(new_last.scraps@.map_values(|e: SerializeTitleIndexScrap| title_entry_view(e))
                    =~= old_last.scraps@.map_values(|e: SerializeTitleIndexScrap| title_entry_view(e)).push(
                    title_entry_view(entry),
                ));
                assert(section_views(groups@) =~~= sections(backlinks_map@, ordered.take(k + 1)));
            } else {
                groups.push(TitleIndexGroupTera { label: g.label(), scraps: vec![entry] });
                if k > 0 {
                    assert(ordered.take(k + 1)[k - 1] == ordered[k - 1]);
                }
                assert(section_views(groups@) =~~= sections(backlinks_map@, ordered.take(k + 1)));
            }
            last_group = Some(g);
            k += 1;
        }
        assert(ordered.take(perm.len() as int) =~= ordered);
        assert(detail_scraps(scrap_details.0@) == sv);
        proof {
            lemma_title_order_follows_groups(sv);
            lemma_sections_in_group_order(backlinks_map@, ordered);
            let secs = sections(backlinks_map@, ordered);
            assert forall|k: int| 0 <= k < groups.len() implies (#[trigger] groups@[k]).scraps.len() > 0
                && spec_group_of_title(groups@[k].scraps@[0].title@) == section_group(secs[k]) by {
                assert(section_views(groups@)[k] == secs[k]);
                assert(secs[k].1.len() > 0);
                assert(secs[k].1[0] == title_entry_view(groups@[k].scraps@[0]));
            }
        }
        TitleIndexTera(groups)
    }
}

// ------------------------------------------------------------ index views --

/// Characters of a summary on an index row: a useful gloss that stays on
/// one line at the narrowest supported width.
pub const SUMMARY_MAX_CHARS: usize = 90;

/// What an index view is ordered by.
#[derive(Debug, Clone, Copy, PartialEq, Eq, Structural)]
pub enum SortKey {
    /// Most recently committed first.
    CommittedDate,
    /// Most linked first.
    LinkedCount,
}

/// A scrap as an index row shows it.
#[derive(Debug, Clone, PartialEq, Eq)]
pub struct SerializeIndexScrap {
    pub ctx: Option<String>,
    pub title: String,
    pub html_file_name: String,
    pub summary: Option<String>,
    pub commited_ts: Option<i64>,
    pub backlinks_count: usize,
    pub links_count: usize,
}

/// An index row as a value.
#[verifier::ext_equal]
pub struct IndexRowV {
    pub ctx: Option<Seq<char>>,
    pub title: Seq<char>,
    pub html_file_name: Seq<char>,
    pub summary: Option<Seq<char>>,
    pub commited_ts: Option<i64>,
    pub backlinks_count: int,
    pub links_count: int,
}

pub open spec fn row_view(r: SerializeIndexScrap) -> IndexRowV {
    IndexRowV {
        ctx: opt_chars(r.ctx),
        title: r.title@,
        html_file_name: r.html_file_name@,
        summary: opt_chars(r.summary),
        commited_ts: r.commited_ts,
        backlinks_count: r.backlinks_count as int,
        links_count: r.links_count as int,
    }
}

pub open spec fn row_views(v: Seq<SerializeIndexScrap>) -> Seq<IndexRowV> {
    v.map_values(|r: SerializeIndexScrap| row_view(r))
}

/// The index row of a scrap last committed at `ts`, in the wiki `bm`.
pub open spec fn index_row(bm: Seq<ScrapV>, s: ScrapV, ts: Option<i64>) -> IndexRowV {
    IndexRowV {
        ctx: s.ctx,
        title: s.title,
        html_file_name: file_stem(self_key(s)) + ".html"@,
        summary: crate::summary::summary_of(s.md_text, SUMMARY_MAX_CHARS as nat),
        commited_ts: ts,
        backlinks_count: backlinks_of(bm, self_key(s)).len() as int,
        links_count: links(s).len() as int,
    }
}

pub open spec fn detail_rows(bm: Seq<ScrapV>, ds: Seq<ScrapDetail>) -> Seq<IndexRowV> {
    ds.map_values(|d: ScrapDetail| index_row(bm, d.v@, d.commited_ts))
}

impl SerializeIndexScrap {
    pub fn new(scrap_detail: &ScrapDetail, backlinks_map: &BacklinksMap) -> (r: SerializeIndexScrap)
        ensures
            row_view(r) == index_row(backlinks_map@, scrap_detail.v@, scrap_detail.commited_ts),
    {
        let scrap = scrap_detail.scrap();
        let key = scrap.self_key();
        let backlinks_count = backlinks_map.get(&key).len();
        let links_count = scrap.links().len();
        let summary = match crate::summary::Summary::from_md_text(scrap.md_text.as_str(), SUMMARY_MAX_CHARS) {
            Some(s) => Some(s.as_str().to_owned()),
            None => None,
        };
        let mut v: Vec<char> = Vec::new();
        let stem = key.to_text();
        push_str(&mut v, stem.as_str());
        push_str(&mut v, ".html");
        let r = SerializeIndexScrap {
            ctx: clone_opt(&scrap.ctx),
            title: scrap.title.clone(),
            html_file_name: string_of(v.as_slice()),
            summary,
            commited_ts: scrap_detail.commited_ts(),
            backlinks_count,
            links_count,
        };
        assert(row_view(r) =~= index_row(backlinks_map@, scrap_detail.v@, scrap_detail.commited_ts));
        r
    }
}

/// Pairs of integers in the order Rust gives tuples: by the first, then by
/// the second.
pub open spec fn pair_le(a: (int, int), b: (int, int)) -> bool {
    a.0 < b.0 || (a.0 == b.0 && a.1 <= b.1)
}

pub proof fn lemma_pair_le_total()
    ensures
        vstd::relations::total_ordering(|a: (int, int), b: (int, int)| pair_le(a, b)),
{
}

pub open spec fn int_pairs(v: Seq<(i128, u64)>) -> Seq<(int, int)> {
    v.map_values(|p: (i128, u64)| (p.0 as int, p.1 as int))
}

/// `Itertools::sorted` on pairs of integers: the same pairs, in ascending
/// tuple order.
#[verifier::external_body]
fn sorted_pairs(v: Vec<(i128, u64)>) -> (r: Vec<(i128, u64)>)
    ensures
        int_pairs(r@).to_multiset() == int_pairs(v@).to_multiset(),
        vstd::relations::sorted_by(int_pairs(r@), |a: (int, int), b: (int, int)| pair_le(a, b)),
{
    itertools::Itertools::sorted(v.into_iter()).collect()
}

/// The key rows are ordered by: last commit (none before any) or backlink
/// count.
pub open spec fn row_sort_key(r: IndexRowV, k: SortKey) -> int {
    match k {
        SortKey::CommittedDate => match r.commited_ts {
            Some(t) => t as int,
            None => i64::MIN - 1,
        },
        SortKey::LinkedCount => r.backlinks_count,
    }
}

/// Each row's key with its position.
pub open spec fn keyed_rows(rows: Seq<IndexRowV>, k: SortKey) -> Seq<(int, int)> {
    Seq::new(rows.len(), |i: int| (row_sort_key(rows[i], k), i))
}

/// The rows by key, largest first; equal keys the later row first.
pub open spec fn rows_by_key_desc(rows: Seq<IndexRowV>, k: SortKey) -> Seq<IndexRowV> {
    keyed_rows(rows, k).sort_by(|a: (int, int), b: (int, int)| pair_le(a, b)).reverse().map_values(
        |p: (int, int)| rows[p.1],
    )
}

/// The rows in title order, ignoring case, equal titles in their order.
pub open spec fn rows_by_title(rows: Seq<IndexRowV>) -> Seq<IndexRowV> {
    permuted(
        rows,
        insertion_order(rows.map_values(|r: IndexRowV| (0int, lowercase(r.title), Seq::<char>::empty())), rows.len() as int),
    )
}

/// `s` cut into consecutive pieces of `c`, the last one possibly shorter.
pub open spec fn chunks_of<A>(s: Seq<A>, c: int) -> Seq<Seq<A>>
    decreases s.len(),
{
    if s.len() == 0 || c <= 0 {
        seq![]
    } else if s.len() <= c {
        seq![s]
    } else {
        seq![s.take(c)] + chunks_of(s.skip(c), c)
    }
}

/// Cutting rows into pages loses and reorders nothing: the pages, joined,
/// give back the rows; none is empty, none holds more than `c`, and every
/// page but the last holds exactly `c`.
pub proof fn lemma_pages_keep_every_row<A>(s: Seq<A>, c: int)
    requires
        c > 0,
    ensures
        chunks_of(s, c).flatten() == s,
        chunks_of(s, c).len() == (s.len() + c - 1) / c,
        forall|i: int| 0 <= i < chunks_of(s, c).len() ==> 0 < (#[trigger] chunks_of(s, c)[i]).len() <= c,
        forall|i: int| 0 <= i < chunks_of(s, c).len() - 1 ==> (#[trigger] chunks_of(s, c)[i]).len() == c,
    decreases s.len(),
{
    if s.len() == 0 {
        assert((s.len() + c - 1) / c == 0) by (nonlinear_arith)
            requires
                s.len() == 0,
                c > 0,
        ;
    } else if s.len() <= c {
        assert((s.len() + c - 1) / c == 1) by (nonlinear_arith)
            requires
                0 < s.len() <= c,
        ;
        let ch = chunks_of(s, c);
        assert(ch.drop_first() =~= Seq::<Seq<A>>::empty());
        assert(ch.drop_first().flatten() =~= Seq::<A>::empty());
        assert(ch.first() + ch.drop_first().flatten() =~= s);
    } else {
        let rest = chunks_of(s.skip(c), c);
        lemma_pages_keep_every_row(s.skip(c), c);
        let m = s.skip(c).len() as int;
        assert(m == s.len() - c);
        assert((s.len() + c - 1) / c == (m + c - 1) / c + 1) by (nonlinear_arith)
            requires
                m == s.len() - c,
                c > 0,
                m > 0,
        {
            assert(s.len() + c - 1 == (m + c - 1) + c);
        }
        assert(chunks_of(s, c).drop_first() =~= rest);
        assert(s.take(c) + s.skip(c) =~= s);
        assert forall|i: int| 0 <= i < chunks_of(s, c).len() implies 0 < (#[trigger] chunks_of(s, c)[i]).len() <= c by {
            if i > 0 {
                assert(chunks_of(s, c)[i] == rest[i - 1]);
            }
        }
        assert forall|i: int| 0 <= i < chunks_of(s, c).len() - 1 implies (#[trigger] chunks_of(s, c)[i]).len() == c by {
            if i > 0 {
                assert(chunks_of(s, c)[i] == rest[i - 1]);
            }
        }
    }
}

/// The rows of an index view.
#[derive(Debug, Clone, PartialEq, Eq)]
pub struct IndexScrapsTera(pub Vec<SerializeIndexScrap>);

fn clone_row(r: &SerializeIndexScrap) -> (c: SerializeIndexScrap)
    ensures
        row_view(c) == row_view(*r),
{
    SerializeIndexScrap {
        ctx: clone_opt(&r.ctx),
        title: r.title.clone(),
        html_file_name: r.html_file_name.clone(),
        summary: clone_opt(&r.summary),
        commited_ts: r.commited_ts,
        backlinks_count: r.backlinks_count,
        links_count: r.links_count,
    }
}

impl IndexScrapsTera {
    fn rows(scrap_details: &ScrapDetails, backlinks_map: &BacklinksMap) -> (r: Vec<SerializeIndexScrap>)
        ensures
            row_views(r@) == detail_rows(backlinks_map@, scrap_details.0@),
    {
        let mut r: Vec<SerializeIndexScrap> = Vec::new();
        let mut i: usize = 0;
        while i < scrap_details.0.len()
            invariant
                i <= scrap_details.0.len(),
                r.len() == i,
                forall|j: int|
                    0 <= j < i ==> row_view(#[trigger] r@[j]) == index_row(
                        backlinks_map@,
                        scrap_details.0@[j].v@,
                        scrap_details.0@[j].commited_ts,
                    ),
            decreases scrap_details.0.len() - i,
        {
            r.push(SerializeIndexScrap::new(&scrap_details.0[i], backlinks_map));
            i += 1;
        }
        assert(row_views(r@) =~= detail_rows(backlinks_map@, scrap_details.0@));
        r
    }

    /// The rows of the scraps, largest key first; rows of equal key in
    /// reverse wiki order.
    pub fn new_with_sort(
        scrap_details: &ScrapDetails,
        backlinks_map: &BacklinksMap,
        sort_key: &SortKey,
    ) -> (r: IndexScrapsTera)
        ensures
            row_views(r.0@) == rows_by_key_desc(detail_rows(backlinks_map@, scrap_details.0@), *sort_key),
    {
        let rows = Self::rows(scrap_details, backlinks_map);
        let ghost rv = row_views(rows@);
        let mut pairs: Vec<(i128, u64)> = Vec::new();
        let mut i: usize = 0;
        while i < rows.len()
            invariant
                i <= rows.len(),
                rv == row_views(rows@),
                pairs.len() == i,
                forall|j: int| 0 <= j < i ==> int_pairs(pairs@)[j] == (row_sort_key(rv[j], *sort_key), j),
            decreases rows.len() - i,
        {
            let key: i128 = match sort_key {
                SortKey::CommittedDate => match rows[i].commited_ts {
                    Some(t) => t as i128,
                    None => -9223372036854775809i128,
                },
                SortKey::LinkedCount => rows[i].backlinks_count as i128,
            };
            assert(rv[i as int] == row_view(rows@[i as int]));
            assert(key as int == row_sort_key(rv[i as int], *sort_key));
            let ghost old_pairs = pairs@;
            pairs.push((key, i as u64));
            assert(int_pairs(pairs@) =~= int_pairs(old_pairs).push((key as int, i as int)));
            i += 1;
        }
        let ghost kv = int_pairs(pairs@);
        assert(kv =~= keyed_rows(rv, *sort_key));
        let ghost before = pairs@;
        let sorted = sorted_pairs(pairs);
        proof {
            lemma_pair_le_total();
            let leq = |a: (int, int), b: (int, int)| pair_le(a, b);
            kv.lemma_sort_by_ensures(leq);
            vstd::seq_lib::lemma_sorted_unique(int_pairs(sorted@), kv.sort_by(leq), leq);
        }
        let ghost sv = int_pairs(sorted@);
        assert(sv == kv.sort_by(|a: (int, int), b: (int, int)| pair_le(a, b)));
        proof {
            broadcast use vstd::seq_lib::group_to_multiset_ensures;

            let leq = |a: (int, int), b: (int, int)| pair_le(a, b);
            assert(sv.to_multiset().len() == kv.to_multiset().len());
            assert(sv.len() == kv.len());
            assert forall|j: int| 0 <= j < sorted.len() implies 0 <= (#[trigger] sv[j]).1 < rows.len() by {
                assert(kv.sort_by(leq).contains(sv[j]));
                assert(kv.contains(sv[j]));
                let m = choose|m: int| 0 <= m < kv.len() && kv[m] == sv[j];
                assert(kv[m].1 == m);
            }
        }
        let mut out: Vec<SerializeIndexScrap> = Vec::new();
        let mut k: usize = sorted.len();
        while k > 0
            invariant
                k <= sorted.len() == rows.len(),
                sv == int_pairs(sorted@),
                rv == row_views(rows@),
                forall|j: int| 0 <= j < sorted.len() ==> 0 <= (#[trigger] sv[j]).1 < rows.len(),
                row_views(out@) == sv.reverse().take(sorted.len() - k).map_values(|p: (int, int)| rv[p.1]),
            decreases k,
        {
            let idx = sorted[k - 1].1;
            assert(sv[k - 1].1 == idx as int);
            let ghost before_out = row_views(out@);
            out.push(clone_row(&rows[idx as usize]));
            assert(sv.reverse().take(sorted.len() - k + 1) =~= sv.reverse().take(sorted.len() - k).push(
                sv[k - 1],
            ));
            assert(row_views(out@) =~= before_out.push(rv[sv[k - 1].1]));
            k -= 1;
        }
        assert(sv.reverse().take(sorted.len() as int) =~= sv.reverse());
        IndexScrapsTera(out)
    }

    /// The rows of the scraps in title order, ignoring case.
    pub fn new_sorted_by_title(scrap_details: &ScrapDetails, backlinks_map: &BacklinksMap) -> (r: IndexScrapsTera)
        ensures
            row_views(r.0@) == rows_by_title(detail_rows(backlinks_map@, scrap_details.0@)),
    {
        let rows = Self::rows(scrap_details, backlinks_map);
        let ghost rv = row_views(rows@);
        let mut keys: Vec<OrderKey> = Vec::new();
        let mut i: usize = 0;
        while i < rows.len()
            invariant
                i <= rows.len(),
                rv == row_views(rows@),
                keys.len() == i,
                forall|j: int|
                    0 <= j < i ==> (#[trigger] keys@[j])@ == (0int, lowercase(rv[j].title), Seq::<char>::empty()),
            decreases rows.len() - i,
        {
            let key = OrderKey {
                num: 0,
                first: chars_of(to_lowercase(rows[i].title.as_str()).as_str()),
                second: Vec::new(),
            };
            assert(key@.2 =~= Seq::<char>::empty());
            keys.push(key);
            i += 1;
        }
        assert(key_triples(keys@) =~= rv.map_values(
            |r: IndexRowV| (0int, lowercase(r.title), Seq::<char>::empty()),
        ));
        let perm = stable_order(&keys);
        let mut out: Vec<SerializeIndexScrap> = Vec::new();
        let mut k: usize = 0;
        while k < perm.len()
            invariant
                k <= perm.len() == rows.len(),
                rv == row_views(rows@),
                forall|j: int| 0 <= j < perm.len() ==> (#[trigger] perm@[j]) < rows.len(),
                out.len() == k,
                forall|j: int| 0 <= j < k ==> row_view(#[trigger] out@[j]) == rv[perm@[j] as int],
            decreases perm.len() - k,
        {
            out.push(clone_row(&rows[perm[k]]));
            k += 1;
        }
        assert(row_views(out@) =~= rows_by_title(rv));
        IndexScrapsTera(out)
    }

    /// The rows cut into pages of `chunk_size`.
    pub fn chunks(&self, chunk_size: usize) -> (r: Vec<IndexScrapsTera>)
        requires
            chunk_size > 0,
        ensures
            r@.map_values(|c: IndexScrapsTera| row_views(c.0@)) == chunks_of(row_views(self.0@), chunk_size as int),
    {
        let ghost rv = row_views(self.0@);
        let mut out: Vec<IndexScrapsTera> = Vec::new();
        let mut start: usize = 0;
        assert(rv.skip(0) =~= rv);
        assert(out@.map_values(|c: IndexScrapsTera| row_views(c.0@)) =~= Seq::<Seq<IndexRowV>>::empty());
        while start < self.0.len()
            invariant
                start <= self.0.len(),
                chunk_size > 0,
                rv == row_views(self.0@),
                out@.map_values(|c: IndexScrapsTera| row_views(c.0@)) + chunks_of(rv.skip(start as int), chunk_size as int)
                    == chunks_of(rv, chunk_size as int),
            decreases self.0.len() - start,
        {
            let end = if self.0.len() - start <= chunk_size {
                self.0.len()
            } else {
                start + chunk_size
            };
            let mut piece: Vec<SerializeIndexScrap> = Vec::new();
            let mut j: usize = start;
            while j < end
                invariant
                    start <= j <= end <= self.0.len(),
                    rv == row_views(self.0@),
                    row_views(piece@) == rv.subrange(start as int, j as int),
                decreases end - j,
            {
                let ghost pb = row_views(piece@);
                let c = clone_row(&self.0[j]);
                assert(rv[j as int] == row_view(self.0@[j as int]));
                piece.push(c);
                assert(row_views(piece@) =~= pb.push(rv[j as int]));
                assert(row_views(piece@) =~= rv.subrange(start as int, j + 1));
                j += 1;
            }
            let ghost ob = out@.map_values(|c: IndexScrapsTera| row_views(c.0@));
            let ghost rest = rv.skip(start as int);
            out.push(IndexScrapsTera(piece));
            assert(out@.map_values(|c: IndexScrapsTera| row_views(c.0@)) =~= ob.push(rv.subrange(start as int, end as int)));
            proof {
                if rest.len() <= chunk_size {
                    assert(rv.subrange(start as int, end as int) =~= rest);
                    assert(rv.skip(end as int) =~= Seq::<IndexRowV>::empty());
                    assert(chunks_of(rest, chunk_size as int) == seq![rest]);
                } else {
                    assert(rv.subrange(start as int, end as int) =~= rest.take(chunk_size as int));
                    assert(rest.skip(chunk_size as int) =~= rv.skip(end as int));
                }
            }
            assert(ob.push(rv.subrange(start as int, end as int)) + chunks_of(rv.skip(end as int), chunk_size as int)
                =~= ob + chunks_of(rest, chunk_size as int));
            start = end;
        }
        assert(rv.skip(self.0.len() as int) =~= Seq::<IndexRowV>::empty());
        assert(out@.map_values(|c: IndexScrapsTera| row_views(c.0@)) =~= out@.map_values(|c: IndexScrapsTera| row_views(c.0@)) + Seq::<Seq<IndexRowV>>::empty());
        out
    }
}

} // verus!
