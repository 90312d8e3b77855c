//! Building a site: reading the wiki into pages and handing each page, the
//! stylesheet and the search index to the writers that put them out.

use vstd::prelude::*;

use crate::backlinks::BacklinksMap;
use crate::error::ScrapsError;
use crate::model::{scrap_views, Scrap, ScrapV};
use crate::pages::{ScrapDetail, ScrapDetails};
use crate::site::{ListViewConfigs, Progress, Stage};
use crate::tags::{wiki_tags, Tags};

verus! {

broadcast use crate::model::lemma_scrap_view;

/// One step of a build: a page, the stylesheet or the search index to
/// write.
#[derive(Debug, Clone, PartialEq, Eq)]
pub enum BuildStep {
    /// The index pages, the title index, the scrap list and the about page.
    Index,
    /// The page of the `i`-th scrap.
    ScrapPage(usize),
    /// The index of every tag.
    TagsIndex,
    /// The page of a tag.
    TagPage(String),
    /// The stylesheet.
    Style,
    /// The search index.
    SearchIndex,
}

/// A build step as a value.
pub enum StepV {
    Index,
    ScrapPage(int),
    TagsIndex,
    TagPage(Seq<char>),
    Style,
    SearchIndex,
}

pub open spec fn step_view(s: BuildStep) -> StepV {
    match s {
        BuildStep::Index => StepV::Index,
        BuildStep::ScrapPage(i) => StepV::ScrapPage(i as int),
        BuildStep::TagsIndex => StepV::TagsIndex,
        BuildStep::TagPage(t) => StepV::TagPage(t@),
        BuildStep::Style => StepV::Style,
        BuildStep::SearchIndex => StepV::SearchIndex,
    }
}

pub open spec fn step_views(v: Seq<BuildStep>) -> Seq<StepV> {
    v.map_values(|s: BuildStep| step_view(s))
}

/// The scraps of a build's input, without their commit times.
pub open spec fn build_scraps(sw: Seq<(Scrap, Option<i64>)>) -> Seq<ScrapV> {
    sw.map_values(|p: (Scrap, Option<i64>)| p.0@)
}

/// The steps of a build of `n` scraps whose wiki has the tags `tags`, in
/// order: the index, each scrap's page, the tag index, each tag's page, the
/// stylesheet, and the search index exactly when `search` is set.
pub open spec fn plan_of(n: nat, tags: Seq<Seq<char>>, search: bool) -> Seq<StepV> {
    seq![StepV::Index] + Seq::new(n, |i: int| StepV::ScrapPage(i)) + seq![StepV::TagsIndex]
        + tags.map_values(|t: Seq<char>| StepV::TagPage(t)) + seq![StepV::Style] + if search {
        seq![StepV::SearchIndex]
    } else {
        seq![]
    }
}

/// What a build of `scraps_with_ts` writes, in order, as the configuration
/// asks.
pub fn build_plan(scraps_with_ts: &[(Scrap, Option<i64>)], list_view_configs: &ListViewConfigs) -> (p:
    Vec<BuildStep>)
    ensures
        step_views(p@) == plan_of(
            scraps_with_ts@.len(),
            wiki_tags(build_scraps(scraps_with_ts@)),
            list_view_configs.build_search_index,
        ),
        forall|k: int|
            0 <= k < p@.len() ==> (#[trigger] p@[k] matches BuildStep::ScrapPage(i) ==> i
                < scraps_with_ts@.len()),
{
    let ghost n = scraps_with_ts@.len();
    let mut scraps: Vec<Scrap> = Vec::new();
    let mut i: usize = 0;
    while i < scraps_with_ts.len()
        invariant
            i <= scraps_with_ts.len(),
            scrap_views(scraps@) == build_scraps(scraps_with_ts@).take(i as int),
        decreases scraps_with_ts.len() - i,
    {
        let ghost before = scrap_views(scraps@);
        let d = scraps_with_ts[i].0.duplicate();
        assert(d@ == build_scraps(scraps_with_ts@)[i as int]);
        scraps.push(d);
        assert(scrap_views(scraps@) =~= before.push(d@));
        assert(build_scraps(scraps_with_ts@).take(i + 1) =~= build_scraps(scraps_with_ts@).take(i as int).push(d@));
        i += 1;
    }
    assert(build_scraps(scraps_with_ts@).take(n as int) =~= build_scraps(scraps_with_ts@));
    let tags = Tags::new(scraps.as_slice()).to_vec();
    let ghost tv = wiki_tags(build_scraps(scraps_with_ts@));
    let mut p: Vec<BuildStep> = Vec::new();
    p.push(BuildStep::Index);
    let mut j: usize = 0;
    while j < scraps_with_ts.len()
        invariant
            j <= scraps_with_ts.len(),
            n == scraps_with_ts@.len(),
            step_views(p@) == seq![StepV::Index] + Seq::new(j as nat, |i: int| StepV::ScrapPage(i)),
            forall|k: int| 0 <= k < p@.len() ==> (#[trigger] p@[k] matches BuildStep::ScrapPage(i) ==> i < n),
        decreases scraps_with_ts.len() - j,
    {
        let ghost before = step_views(p@);
        p.push(BuildStep::ScrapPage(j));
        assert(step_views(p@) =~= before.push(StepV::ScrapPage(j as int)));
        assert(step_views(p@) =~= seq![StepV::Index] + Seq::new((j + 1) as nat, |i: int| StepV::ScrapPage(i)));
        j += 1;
    }
    p.push(BuildStep::TagsIndex);
    let ghost head = seq![StepV::Index] + Seq::new(n, |i: int| StepV::ScrapPage(i)) + seq![StepV::TagsIndex];
    assert(step_views(p@) =~= head);
    let mut t: usize = 0;
    while t < tags.len()
        invariant
            t <= tags.len(),
            n == scraps_with_ts@.len(),
            tv == crate::model::string_views(tags@),
            step_views(p@) == head + tv.take(t as int).map_values(|x: Seq<char>| StepV::TagPage(x)),
            forall|k: int| 0 <= k < p@.len() ==> (#[trigger] p@[k] matches BuildStep::ScrapPage(i) ==> i < n),
        decreases tags.len() - t,
    {
        let ghost before = step_views(p@);
        let tag = tags[t].clone();
        assert(tv[t as int] == tags@[t as int]@);
        p.push(BuildStep::TagPage(tag));
        assert(step_views(p@) =~= before.push(StepV::TagPage(tv[t as int])));
        assert(tv.take(t + 1) =~= tv.take(t as int).push(tv[t as int]));
        assert(step_views(p@) =~= head + tv.take(t + 1).map_values(|x: Seq<char>| StepV::TagPage(x)));
        t += 1;
    }
    assert(tv.take(tags.len() as int) =~= tv);
    p.push(BuildStep::Style);
    if list_view_configs.build_search_index {
        p.push(BuildStep::SearchIndex);
    }
    assert(step_views(p@) =~= plan_of(n, tv, list_view_configs.build_search_index));
    p
}

/// Writes the index pages; returns how many it wrote.
pub trait IndexPageWriter {
    fn write(
        &self,
        list_view_configs: &ListViewConfigs,
        scrap_details: &ScrapDetails,
        backlinks_map: &BacklinksMap,
        readme_text: &Option<String>,
    ) -> Result<usize, ScrapsError>;
}

/// Writes the page of one scrap.
pub trait ScrapPageWriter {
    fn write(&self, scrap_detail: &ScrapDetail, backlinks_map: &BacklinksMap) -> Result<(), ScrapsError>;
}

/// Writes the tag index and the page of each tag.
pub trait TagPageWriter {
    fn write_index(&self, scraps: &[Scrap], backlinks_map: &BacklinksMap) -> Result<(), ScrapsError>;

    fn write_detail(&self, tag: &str, backlinks_map: &BacklinksMap) -> Result<(), ScrapsError>;
}

/// Writes the stylesheet.
pub trait StyleWriter {
    fn write(&self) -> Result<(), ScrapsError>;
}

/// Writes the search index.
pub trait SearchIndexWriter {
    fn write(&self, scraps: &[Scrap]) -> Result<(), ScrapsError>;
}

/// What a build does next.
#[derive(Debug, Clone, PartialEq, Eq)]
pub enum BuildAction {
    /// Run the step at this position of the plan.
    Run(usize),
    /// Every step ran: the build is done.
    Finish,
    /// A step failed: the build ends with its error.
    Abort(ScrapsError),
}

/// The decision a build takes after `done` steps of a plan of `plan_len`
/// steps, the last of which came out as `last`: a failure ends the build
/// with its error; otherwise the next step runs, in plan order, until none
/// is left.
pub fn next_build_action(plan_len: usize, done: usize, last: Result<(), ScrapsError>) -> (a: BuildAction)
    ensures
        a == (match last {
            Err(e) => BuildAction::Abort(e),
            Ok(_) => if done < plan_len {
                BuildAction::Run(done)
            } else {
                BuildAction::Finish
            },
        }),
{
    match last {
        Err(e) => BuildAction::Abort(e),
        Ok(()) => if done < plan_len {
            BuildAction::Run(done)
        } else {
            BuildAction::Finish
        },
    }
}

/// Builds a site through its writers, reporting progress.
pub struct BuildUsecase<'a, IP, SP, TP, SW, SI, PG> where
    IP: IndexPageWriter,
    SP: ScrapPageWriter,
    TP: TagPageWriter,
    SW: StyleWriter,
    SI: SearchIndexWriter,
    PG: Progress,
 {
    pub index_page_writer: &'a IP,
    pub scrap_page_writer: &'a SP,
    pub tag_page_writer: &'a TP,
    pub style_writer: &'a SW,
    pub search_index_writer: &'a SI,
    pub progress: &'a PG,
}

impl<'a, IP, SP, TP, SW, SI, PG> BuildUsecase<'a, IP, SP, TP, SW, SI, PG> where
    IP: IndexPageWriter,
    SP: ScrapPageWriter,
    TP: TagPageWriter,
    SW: StyleWriter,
    SI: SearchIndexWriter,
    PG: Progress,
 {
    pub fn new(
        index_page_writer: &'a IP,
        scrap_page_writer: &'a SP,
        tag_page_writer: &'a TP,
        style_writer: &'a SW,
        search_index_writer: &'a SI,
        progress: &'a PG,
    ) -> (r: Self)
        ensures
            r.index_page_writer == index_page_writer,
            r.scrap_page_writer == scrap_page_writer,
            r.tag_page_writer == tag_page_writer,
            r.style_writer == style_writer,
            r.search_index_writer == search_index_writer,
            r.progress == progress,
    {
        BuildUsecase {
            index_page_writer,
            scrap_page_writer,
            tag_page_writer,
            style_writer,
            search_index_writer,
            progress,
        }
    }

    /// Runs one step of a build: hands its page, the stylesheet or the
    /// search index to its writer, reporting progress around the stages.
    fn run_step(
        &self,
        step: &BuildStep,
        list_view_configs: &ListViewConfigs,
        scrap_details: &ScrapDetails,
        scraps: &[Scrap],
        backlinks_map: &BacklinksMap,
        readme_text: &Option<String>,
        index_page_count: &mut usize,
        tag_page_count: &mut usize,
    ) -> (r: Result<(), ScrapsError>)
        requires
            step matches BuildStep::ScrapPage(j) ==> j < scrap_details.0@.len(),
    {
        match step {
            BuildStep::Index => {
                self.progress.start_stage(&Stage::GenerateHtml);
                *index_page_count = self.index_page_writer.write(
                    list_view_configs,
                    scrap_details,
                    backlinks_map,
                    readme_text,
                )?;
            },
            BuildStep::ScrapPage(j) => {
                self.scrap_page_writer.write(&scrap_details.0[*j], backlinks_map)?;
            },
            BuildStep::TagsIndex => {
                self.tag_page_writer.write_index(scraps, backlinks_map)?;
            },
            BuildStep::TagPage(tag) => {
                self.tag_page_writer.write_detail(tag.as_str(), backlinks_map)?;
                *tag_page_count = tag_page_count.saturating_add(1);
            },
            BuildStep::Style => {
                let html_count = index_page_count.saturating_add(scrap_details.len()).saturating_add(
                    1,
                ).saturating_add(*tag_page_count);
                self.progress.complete_stage(&Stage::GenerateHtml, &html_count);
                self.progress.start_stage(&Stage::GenerateCss);
                self.style_writer.write()?;
                self.progress.complete_stage(&Stage::GenerateCss, &1);
            },
            BuildStep::SearchIndex => {
                self.progress.start_stage(&Stage::GenerateJson);
                self.search_index_writer.write(scraps)?;
                self.progress.complete_stage(&Stage::GenerateJson, &1);
            },
        }
        Ok(())
    }

    /// Builds the site of `scraps_with_ts` (each scrap with the time of its
    /// latest commit) by running the steps of `build_plan` in order: the
    /// index pages, a page per scrap, the tag index and a page per tag, the
    /// stylesheet, and the search index when the configuration asks for one.
    /// Returns the number of scraps; the first writer that fails ends the
    /// build with its error, and no later step runs. Each decision is taken
    /// by `next_build_action`.
    pub fn execute(
        &self,
        scraps_with_ts: &[(Scrap, Option<i64>)],
        readme_text: &Option<String>,
        list_view_configs: &ListViewConfigs,
    ) -> (r: Result<usize, ScrapsError>)
        ensures
            r matches Ok(n) ==> n == scraps_with_ts@.len(),
    {
        let plan = build_plan(scraps_with_ts, list_view_configs);
        self.progress.start_stage(&Stage::ReadScraps);
        let mut details: Vec<ScrapDetail> = Vec::new();
        let mut i: usize = 0;
        while i < scraps_with_ts.len()
            invariant
                i <= scraps_with_ts.len(),
                details.len() == i,
            decreases scraps_with_ts.len() - i,
        {
            let (scrap, ts) = &scraps_with_ts[i];
            details.push(ScrapDetail::new(scrap, ts));
            i += 1;
        }
        let scrap_details = ScrapDetails::new(details);
        let scraps = scrap_details.to_scraps();
        let backlinks_map = BacklinksMap::new(scraps.as_slice());
        self.progress.complete_stage(&Stage::ReadScraps, &scrap_details.len());
        assert(scrap_views(scraps@).len() == scraps@.len());

        let mut index_page_count: usize = 0;
        let mut tag_page_count: usize = 0;
        let mut done: usize = 0;
        let mut last: Result<(), ScrapsError> = Ok(());
        loop
            invariant
                done <= plan.len(),
                last is Err ==> done > 0,
                scrap_details.0@.len() == scraps_with_ts@.len(),
                scraps@.len() == scraps_with_ts@.len(),
                forall|m: int|
                    0 <= m < plan@.len() ==> (#[trigger] plan@[m] matches BuildStep::ScrapPage(j) ==> j
                        < scraps_with_ts@.len()),
            decreases plan.len() - done + (if last is Ok { 1int } else { 0int }),
        {
            match next_build_action(plan.len(), done, last) {
                BuildAction::Run(k) => {
                    last = self.run_step(
                        &plan[k],
                        list_view_configs,
                        &scrap_details,
                        scraps.as_slice(),
                        &backlinks_map,
                        readme_text,
                        &mut index_page_count,
                        &mut tag_page_count,
                    );
                    done = k + 1;
                },
                BuildAction::Finish => {
                    return Ok(scraps.len());
                },
                BuildAction::Abort(e) => {
                    return Err(e);
                },
            }
        }
    }
}

} // verus!
