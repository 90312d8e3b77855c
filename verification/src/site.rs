//! Settings of a site build: paging of the index, what the sidebar shows,
//! the page head, the colour scheme and the pinned CDN versions.

use vstd::prelude::*;

use crate::tags::Tags;

verus! {

broadcast use crate::model::lemma_scrap_view;

/// How the index lists scraps: all on one page, or so many per page.
#[derive(Debug, Clone, Copy, PartialEq, Eq, Structural)]
pub enum Paging {
    Not,
    By(usize),
}

impl Paging {
    /// Scraps per index page for a wiki of `scrap_count` scraps.
    pub fn size_with(&self, scrap_count: usize) -> (r: usize)
        ensures
            r == match *self {
                Paging::Not => scrap_count,
                Paging::By(size) => size,
            },
    {
        match self {
            Paging::Not => scrap_count,
            Paging::By(size) => *size,
        }
    }
}

/// How the index views are built.
#[derive(Debug, Clone, Copy, PartialEq, Eq)]
pub struct ListViewConfigs {
    pub build_search_index: bool,
    pub paging: Paging,
}

impl ListViewConfigs {
    pub fn new(build_search_index: &bool, paging: &Paging) -> (r: ListViewConfigs)
        ensures
            r.build_search_index == *build_search_index,
            r.paging == *paging,
    {
        ListViewConfigs { build_search_index: *build_search_index, paging: *paging }
    }
}

/// What the sidebar of every page shows: the number of scraps, the tag
/// list, and whether the search box is wired up.
pub struct SiteNav {
    pub scrap_count: usize,
    pub tags: Tags,
    pub build_search_index: bool,
}

impl SiteNav {
    pub fn new(scrap_count: usize, tags: Tags, build_search_index: bool) -> (r: SiteNav)
        ensures
            r.scrap_count == scrap_count,
            r.tags@ == tags@,
            r.build_search_index == build_search_index,
    {
        SiteNav { scrap_count, tags, build_search_index }
    }
}

/// What the head of every page carries.
#[derive(Debug, Clone, PartialEq, Eq)]
pub struct HtmlMetadata {
    pub lang_code: String,
    pub title: String,
    pub description: Option<String>,
    pub favicon: Option<String>,
}

impl HtmlMetadata {
    pub fn new(
        lang_code: &str,
        title: &str,
        description: &Option<String>,
        favicon: &Option<String>,
    ) -> (r: HtmlMetadata)
        ensures
            r.lang_code@ == lang_code@,
            r.title@ == title@,
            crate::model::opt_chars(r.description) == crate::model::opt_chars(*description),
            crate::model::opt_chars(r.favicon) == crate::model::opt_chars(*favicon),
    {
        HtmlMetadata {
            lang_code: lang_code.to_owned(),
            title: title.to_owned(),
            description: crate::model::clone_opt(description),
            favicon: crate::model::clone_opt(favicon),
        }
    }
}

/// The colour schemes a site offers.
#[derive(Debug, Clone, Copy, PartialEq, Eq, Structural)]
pub enum ColorScheme {
    /// Follow the reader's system setting.
    OsSetting,
    OnlyLight,
    OnlyDark,
}

/// The `color-scheme` value of a colour scheme.
pub open spec fn css_value(c: ColorScheme) -> Seq<char> {
    match c {
        ColorScheme::OsSetting => "light dark"@,
        ColorScheme::OnlyLight => "only light"@,
        ColorScheme::OnlyDark => "only dark"@,
    }
}

/// A colour scheme as the stylesheet template receives it.
#[derive(Debug, Clone, Copy, PartialEq, Eq)]
pub struct ColorSchemeTera(pub ColorScheme);

impl ColorSchemeTera {
    pub fn new(color_scheme: &ColorScheme) -> (r: ColorSchemeTera)
        ensures
            r.0 == *color_scheme,
    {
        ColorSchemeTera(*color_scheme)
    }

    /// The CSS `color-scheme` value.
    pub fn as_css(&self) -> (r: &'static str)
        ensures
            r@ == css_value(self.0),
    {
        match self.0 {
            ColorScheme::OsSetting => "light dark",
            ColorScheme::OnlyLight => "only light",
            ColorScheme::OnlyDark => "only dark",
        }
    }
}

/// Versions of the scripts pages load from a CDN.
#[derive(Debug, Clone, Copy, PartialEq, Eq)]
pub struct CdnVersions {
    pub highlightjs: &'static str,
    pub mermaid: &'static str,
    pub fusejs: &'static str,
}

impl CdnVersions {
    /// The versions the built-in templates are tested with.
    pub fn pinned() -> (r: CdnVersions)
        ensures
            r.highlightjs@ == "11.12.0"@,
            r.mermaid@ == "11.17.2"@,
            r.fusejs@ == "7.5.0"@,
    {
        CdnVersions { highlightjs: "11.12.0", mermaid: "11.17.2", fusejs: "7.5.0" }
    }
}

/// The stages of a build, in the order they run.
#[derive(Debug, Clone, Copy, PartialEq, Eq, Structural)]
pub enum Stage {
    ReadScraps,
    GenerateHtml,
    GenerateCss,
    GenerateJson,
}

/// Reports a build's progress, stage by stage.
pub trait Progress {
    fn start_stage(&self, stage: &Stage);

    fn complete_stage(&self, stage: &Stage, count: &usize);

    fn end(&self);
}

} // verus!
