use std::collections::HashSet;

use scraps::model::Scrap;
use scraps::search::{SearchCommand, SearchIndexScrapsTera, SearchUsecase};

fn hits_for(scraps: &[Scrap], query: &str) -> Vec<String> {
    let data = SearchIndexScrapsTera::new(scraps);
    let items = SearchCommand::convert_to_search_items(&data, "http://localhost:1112/");
    SearchCommand::perform_search(&items, query).into_iter().map(|h| h.title).collect()
}

#[test]
fn usecase_it_run() {
    let scraps = vec![
        Scrap::new("test1", &None, "# Test Document 1\nThis is a test document."),
        Scrap::new("test2", &None, "# Another Document\nAnother test content."),
    ];
    let hits = hits_for(&scraps, "test");
    let results = SearchUsecase::new("scraps")
        .execute(Some("http://localhost:1112/"), &scraps, &hits)
        .unwrap();
    assert!(!results.is_empty());
    assert!(results.iter().any(|r| r.title.to_string().contains("test")));
    assert!(results.iter().all(|r| r.url.is_some() && !r.url.as_ref().unwrap().is_empty()));
    assert!(results.iter().all(|r| !r.md_text.is_empty()));
}

#[test]
fn it_handles_duplicate_titles() {
    let scraps = vec![
        Scrap::new("duplicate", &Some("ctx".into()), "# Duplicate\nContent in ctx directory."),
        Scrap::new("duplicate", &None, "# Duplicate\nContent in root directory."),
    ];
    let hits = hits_for(&scraps, "duplicate");
    let results = SearchUsecase::new("scraps")
        .execute(Some("http://localhost:1112/"), &scraps, &hits)
        .unwrap();
    assert_eq!(results.len(), 2);
    let urls: HashSet<Option<String>> = results.iter().map(|r| r.url.clone()).collect();
    assert_eq!(urls.len(), 2);
    let md_texts: HashSet<String> = results.iter().map(|r| r.md_text.clone()).collect();
    assert_eq!(md_texts.len(), 2);
    let ctx_values: HashSet<Option<String>> = results.iter().map(|r| r.ctx.clone()).collect();
    assert_eq!(ctx_values.len(), 2);
    assert!(ctx_values.contains(&Some("ctx".to_string())));
    assert!(ctx_values.contains(&None));
    let titles: HashSet<String> = results.iter().map(|r| r.title.to_string()).collect();
    assert_eq!(titles.len(), 1);
    assert!(titles.contains("duplicate"));
}

#[test]
fn search_without_a_site_address_gives_no_urls() {
    let scraps = vec![Scrap::new("alpha", &None, "a")];
    let results = SearchUsecase::new("scraps").execute(None, &scraps, &["alpha".to_string(), "beta".to_string()]).unwrap();
    assert_eq!(results.len(), 1);
    assert_eq!(results[0].url, None);
}

#[test]
fn cmd_it_run() {
    let scraps = vec![
        Scrap::new("test1", &None, "# Test Document 1\nThis is a test document."),
        Scrap::new("test2", &None, "# Another Document\nAnother test content."),
    ];
    let data = SearchIndexScrapsTera::new(&scraps);
    let items = SearchCommand::convert_to_search_items(&data, "http://localhost:1112/");
    let results = SearchCommand::perform_search(&items, "test");
    assert!(!results.is_empty());
    assert!(results.iter().any(|r| r.title.contains("test")));
}

#[test]
fn search_command_ignores_case_and_builds_urls() {
    let scraps = vec![
        Scrap::new("Rust Guide", &None, ""),
        Scrap::new("scrap2", &Some("Context".into()), ""),
    ];
    let data = SearchIndexScrapsTera::new(&scraps);
    let items = SearchCommand::convert_to_search_items(&data, "http://localhost:1112/");
    assert_eq!(items[1].title, "Context/scrap2");
    assert_eq!(items[1].url, "http://localhost:1112/scraps/Context/scrap2.html");
    let results = SearchCommand::perform_search(&items, "RUST");
    assert_eq!(results.len(), 1);
    assert_eq!(results[0].url, "http://localhost:1112/scraps/Rust Guide.html");
    assert!(SearchCommand::perform_search(&items, "missing").is_empty());
}
