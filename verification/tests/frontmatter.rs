use scraps::model::Scrap;
use scraps::usecases::FrontmatterUsecase;

fn value(json: &str) -> serde_json::Value {
    serde_json::from_str(json).unwrap()
}

#[test]
fn it_collects_frontmatter_from_scraps_that_have_it() {
    let scraps = vec![
        Scrap::new("a", &None, "---\nstatus: draft\n---\n\n# A\n"),
        Scrap::new("b", &None, "# B\n\nNo frontmatter.\n"),
    ];
    let parsed = vec![Some(value(r#"{"status": "draft"}"#)), None];
    let results = FrontmatterUsecase::new().execute(&scraps, &parsed).unwrap();
    assert_eq!(results.len(), 1);
    assert_eq!(results[0].title.to_string(), "a");
    assert_eq!(results[0].frontmatter, value(r#"{"status": "draft"}"#));
}

#[test]
fn it_passes_keys_through_without_interpreting_them() {
    let scraps = vec![Scrap::new("a", &None, "---\nowner: alice\ntags:\n  - infra\nnested:\n  k: v\n---\n")];
    let v = value(r#"{"owner": "alice", "tags": ["infra"], "nested": {"k": "v"}}"#);
    let results = FrontmatterUsecase::new().execute(&scraps, &vec![Some(v.clone())]).unwrap();
    assert_eq!(results[0].frontmatter, v);
}

#[test]
fn it_sorts_by_ctx_then_title() {
    let scraps = vec![
        Scrap::new("z", &None, "---\nk: 1\n---\n"),
        Scrap::new("b", &Some("Book".into()), "---\nk: 2\n---\n"),
        Scrap::new("a", &Some("Book".into()), "---\nk: 3\n---\n"),
    ];
    let parsed = vec![Some(value(r#"{"k": 1}"#)), Some(value(r#"{"k": 2}"#)), Some(value(r#"{"k": 3}"#))];
    let results = FrontmatterUsecase::new().execute(&scraps, &parsed).unwrap();
    let order: Vec<String> = results.iter().map(|r| r.title.to_string()).collect();
    assert_eq!(order, vec!["z", "a", "b"]);
    assert_eq!(results[1].frontmatter, value(r#"{"k": 3}"#));
}

#[test]
fn it_skips_malformed_frontmatter_rather_than_failing() {
    let scraps = vec![Scrap::new("a", &None, "---\nstatus: [unclosed\n---\n\n# A\n")];
    let results = FrontmatterUsecase::new().execute(&scraps, &vec![None]).unwrap();
    assert!(results.is_empty());
}

#[test]
fn it_returns_empty_when_no_scrap_has_frontmatter() {
    let scraps = vec![Scrap::new("a", &None, "# A\n\nJust prose.\n")];
    assert!(FrontmatterUsecase::new().execute(&scraps, &vec![None]).unwrap().is_empty());
}
