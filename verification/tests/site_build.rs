use std::cell::RefCell;

use scraps::backlinks::BacklinksMap;
use scraps::error::ScrapsError;
use scraps::model::Scrap;
use scraps::pages::{ScrapDetail, ScrapDetails};
use scraps::site::{ListViewConfigs, Paging, Progress, Stage};
use scraps::site_build::{
    build_plan, next_build_action, BuildAction, BuildStep, BuildUsecase, IndexPageWriter, ScrapPageWriter, SearchIndexWriter, StyleWriter, TagPageWriter,
};

#[derive(Default)]
struct Log(RefCell<Vec<String>>);

impl Log {
    fn add(&self, s: String) {
        self.0.borrow_mut().push(s);
    }
}

impl IndexPageWriter for Log {
    fn write(
        &self,
        _c: &ListViewConfigs,
        d: &ScrapDetails,
        _b: &BacklinksMap,
        _r: &Option<String>,
    ) -> Result<usize, ScrapsError> {
        self.add(format!("index {}", d.len()));
        Ok(1)
    }
}

impl ScrapPageWriter for Log {
    fn write(&self, d: &ScrapDetail, _b: &BacklinksMap) -> Result<(), ScrapsError> {
        self.add(format!("scrap {}", d.scrap().title));
        Ok(())
    }
}

impl TagPageWriter for Log {
    fn write_index(&self, s: &[Scrap], _b: &BacklinksMap) -> Result<(), ScrapsError> {
        self.add(format!("tags {}", s.len()));
        Ok(())
    }
    fn write_detail(&self, tag: &str, _b: &BacklinksMap) -> Result<(), ScrapsError> {
        self.add(format!("tag {tag}"));
        Ok(())
    }
}

impl StyleWriter for Log {
    fn write(&self) -> Result<(), ScrapsError> {
        self.add("css".to_string());
        Ok(())
    }
}

impl SearchIndexWriter for Log {
    fn write(&self, s: &[Scrap]) -> Result<(), ScrapsError> {
        self.add(format!("json {}", s.len()));
        Ok(())
    }
}

impl Progress for Log {
    fn start_stage(&self, stage: &Stage) {
        self.add(format!("start {stage:?}"));
    }
    fn complete_stage(&self, stage: &Stage, count: &usize) {
        self.add(format!("done {stage:?} {count}"));
    }
    fn end(&self) {}
}

struct FailingStyle;

impl StyleWriter for FailingStyle {
    fn write(&self) -> Result<(), ScrapsError> {
        Err(ScrapsError::Build { message: "css".to_string() })
    }
}

fn scraps_with_ts() -> Vec<(Scrap, Option<i64>)> {
    vec![
        (Scrap::new("a", &None, "[[b]] #[[t]]"), Some(1)),
        (Scrap::new("b", &None, "text"), None),
    ]
}

#[test]
fn it_writes_every_page_and_counts_the_scraps() {
    let log = Log::default();
    let configs = ListViewConfigs::new(&true, &Paging::Not);
    let usecase = BuildUsecase::new(&log, &log, &log, &log, &log, &log);
    let n = usecase.execute(&scraps_with_ts(), &None, &configs).unwrap();
    assert_eq!(n, 2);
    let lines = log.0.borrow().clone();
    assert_eq!(
        lines,
        vec![
            "start ReadScraps",
            "done ReadScraps 2",
            "start GenerateHtml",
            "index 2",
            "scrap a",
            "scrap b",
            "tags 2",
            "tag t",
            "done GenerateHtml 5",
            "start GenerateCss",
            "css",
            "done GenerateCss 1",
            "start GenerateJson",
            "json 2",
            "done GenerateJson 1",
        ]
    );
}

#[test]
fn it_skips_the_search_index_when_not_asked() {
    let log = Log::default();
    let configs = ListViewConfigs::new(&false, &Paging::Not);
    let usecase = BuildUsecase::new(&log, &log, &log, &log, &log, &log);
    assert_eq!(usecase.execute(&scraps_with_ts(), &None, &configs).unwrap(), 2);
    assert!(!log.0.borrow().iter().any(|l| l.starts_with("json")));
}

#[test]
fn it_stops_at_the_first_failing_writer() {
    let log = Log::default();
    let configs = ListViewConfigs::new(&true, &Paging::Not);
    let usecase = BuildUsecase::new(&log, &log, &log, &FailingStyle, &log, &log);
    let r = usecase.execute(&scraps_with_ts(), &None, &configs);
    assert_eq!(r, Err(ScrapsError::Build { message: "css".to_string() }));
    assert!(!log.0.borrow().iter().any(|l| l.starts_with("json")));
}

#[test]
fn it_plans_every_page_then_style_then_search_index() {
    let configs = ListViewConfigs::new(&true, &Paging::Not);
    let scraps = vec![
        (Scrap::new("a", &None, "[[b]] #[[ai/ml]]"), Some(1)),
        (Scrap::new("b", &None, "text"), None),
    ];
    assert_eq!(
        build_plan(&scraps, &configs),
        vec![
            BuildStep::Index,
            BuildStep::ScrapPage(0),
            BuildStep::ScrapPage(1),
            BuildStep::TagsIndex,
            BuildStep::TagPage("ai".to_string()),
            BuildStep::TagPage("ai/ml".to_string()),
            BuildStep::Style,
            BuildStep::SearchIndex,
        ]
    );
    let no_search = ListViewConfigs::new(&false, &Paging::Not);
    assert_eq!(
        build_plan(&[], &no_search),
        vec![BuildStep::Index, BuildStep::TagsIndex, BuildStep::Style]
    );
}

#[test]
fn it_runs_steps_in_order_and_stops_at_the_first_failure() {
    assert_eq!(next_build_action(3, 0, Ok(())), BuildAction::Run(0));
    assert_eq!(next_build_action(3, 2, Ok(())), BuildAction::Run(2));
    assert_eq!(next_build_action(3, 3, Ok(())), BuildAction::Finish);
    let e = ScrapsError::Build { message: "x".to_string() };
    assert_eq!(next_build_action(3, 1, Err(e.clone())), BuildAction::Abort(e));
}
