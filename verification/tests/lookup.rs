use scraps::lookup::{
    GetScrapLinksUsecase, GetScrapUsecase, LinkRefKind, LookupScrapBacklinksUsecase,
    LookupScrapLinksUsecase,
};
use scraps::model::Scrap;

// ------------------------------------------------------------- get links

#[test]
fn test_get_scrap_links_success() {
    let scraps = vec![
        Scrap::new("scrap1", &None, "# Scrap 1\n\nThis links to [[scrap2]] and [[scrap3]]."),
        Scrap::new("scrap2", &None, "# Scrap 2\n\nContent of scrap 2."),
        Scrap::new("scrap3", &None, "# Scrap 3\n\nContent of scrap 3."),
    ];
    let usecase = GetScrapLinksUsecase::new("scraps");
    let results = usecase
        .execute("http://localhost:3000/", &scraps, "scrap1", &None)
        .expect("Should succeed");
    assert_eq!(results.len(), 2);
    let titles: Vec<String> = results.iter().map(|r| r.title.to_string()).collect();
    assert!(titles.contains(&"scrap2".to_string()));
    assert!(titles.contains(&"scrap3".to_string()));
    for result in &results {
        let url = result.url.as_ref().unwrap();
        assert!(url.starts_with("http://localhost:3000/scraps/"));
        assert!(url.ends_with(".html"));
    }
    assert_eq!(results[0].url.as_deref(), Some("http://localhost:3000/scraps/scrap2.html"));
    assert_eq!(results[1].md_text, "# Scrap 3\n\nContent of scrap 3.");
}

#[test]
fn test_get_scrap_links_with_context() {
    let scraps = vec![
        Scrap::new("scrap1", &Some("Context".into()), "# Scrap 1\n\nThis links to [[scrap2]]."),
        Scrap::new("scrap2", &None, "# Scrap 2\n\nContent of scrap 2."),
    ];
    let usecase = GetScrapLinksUsecase::new("scraps");
    let results = usecase
        .execute("http://localhost:3000/", &scraps, "scrap1", &Some("Context".to_string()))
        .expect("Should succeed");
    assert_eq!(results.len(), 1);
    assert_eq!(results[0].title.to_string(), "scrap2");
}

#[test]
fn test_get_scrap_links_not_found() {
    let scraps = vec![Scrap::new("scrap1", &None, "# Scrap 1\n\nContent.")];
    let usecase = GetScrapLinksUsecase::new("scraps");
    let result = usecase.execute("http://localhost:3000/", &scraps, "Nonexistent Scrap", &None);
    assert!(result.is_err());
    assert!(result.unwrap_err().to_string().contains("Scrap not found"));
}

#[test]
fn test_get_scrap_links_no_links() {
    let scraps = vec![Scrap::new("scrap1", &None, "# Scrap 1\n\nThis scrap has no links.")];
    let usecase = GetScrapLinksUsecase::new("scraps");
    let results = usecase
        .execute("http://localhost:3000/", &scraps, "scrap1", &None)
        .expect("Should succeed");
    assert_eq!(results.len(), 0);
}

#[test]
fn get_links_skip_unresolved_and_use_context_pages() {
    let scraps = vec![
        Scrap::new("a", &None, "[[missing]] [[Book/b]]"),
        Scrap::new("b", &Some("Book".into()), "b text"),
    ];
    let results = GetScrapLinksUsecase::new("scraps")
        .execute("https://example.org/wiki/", &scraps, "a", &None)
        .unwrap();
    assert_eq!(results.len(), 1);
    assert_eq!(results[0].ctx.as_deref(), Some("Book"));
    assert_eq!(results[0].url.as_deref(), Some("https://example.org/wiki/scraps/Book/b.html"));
}

// ------------------------------------------------------------------- get

#[test]
fn get_scrap_returns_the_first_of_the_name() {
    let scraps = vec![
        Scrap::new("a", &None, "first"),
        Scrap::new("a", &Some("x".into()), "in x"),
        Scrap::new("a", &None, "second"),
    ];
    let usecase = GetScrapUsecase::new("scraps");
    let found = usecase.execute(&scraps, "a", &None).unwrap();
    assert_eq!(found.md_text, "first");
    assert_eq!(found.ctx, None);
    let in_x = usecase.execute(&scraps, "a", &Some("x".to_string())).unwrap();
    assert_eq!(in_x.md_text, "in x");
    let err = usecase.execute(&scraps, "b", &Some("y".to_string())).unwrap_err();
    assert_eq!(err.to_string(), "Scrap not found: title='b', ctx='Some(\"y\")'");
    let err = usecase.execute(&scraps, "b", &None).unwrap_err();
    assert_eq!(err.to_string(), "Scrap not found: title='b', ctx='None'");
}

// ------------------------------------------------------------ backlinks

#[test]
fn test_lookup_scrap_backlinks_success() {
    let scraps = vec![
        Scrap::new("scrap1", &None, "# Scrap 1\n\nThis links to [[target_scrap]]."),
        Scrap::new("scrap2", &None, "# Scrap 2\n\nThis also links to [[target_scrap]]."),
        Scrap::new("target_scrap", &None, "# Target Scrap\n\nContent of target scrap."),
    ];
    let results = LookupScrapBacklinksUsecase::new()
        .execute(&scraps, "target_scrap", &None)
        .expect("Should succeed");
    assert_eq!(results.len(), 2);
    let titles: Vec<String> = results.iter().map(|r| r.title.to_string()).collect();
    assert!(titles.contains(&"scrap1".to_string()));
    assert!(titles.contains(&"scrap2".to_string()));
}

#[test]
fn test_lookup_scrap_backlinks_with_context() {
    let scraps = vec![
        Scrap::new("scrap1", &None, "# Scrap 1\n\nThis links to [[Context/target_scrap]]."),
        Scrap::new("target_scrap", &Some("Context".into()), "# Target Scrap\n\nContent of target scrap."),
    ];
    let results = LookupScrapBacklinksUsecase::new()
        .execute(&scraps, "target_scrap", &Some("Context".to_string()))
        .expect("Should succeed");
    assert_eq!(results.len(), 1);
    assert_eq!(results[0].title.to_string(), "scrap1");
}

#[test]
fn test_lookup_scrap_backlinks_not_found() {
    let scraps = vec![Scrap::new("scrap1", &None, "# Scrap 1\n\nContent.")];
    let result = LookupScrapBacklinksUsecase::new().execute(&scraps, "Nonexistent Scrap", &None);
    assert!(result.is_err());
    assert!(result.unwrap_err().to_string().contains("Scrap not found"));
}

#[test]
fn test_lookup_scrap_backlinks_no_backlinks() {
    let scraps = vec![Scrap::new("target_scrap", &None, "# Target Scrap\n\nThis scrap has no backlinks.")];
    let results = LookupScrapBacklinksUsecase::new()
        .execute(&scraps, "target_scrap", &None)
        .expect("Should succeed");
    assert_eq!(results.len(), 0);
}

// ---------------------------------------------------------------- links

#[test]
fn test_lookup_scrap_links_success() {
    let scraps = vec![
        Scrap::new("scrap1", &None, "# Scrap 1\n\nThis links to [[scrap2]] and [[scrap3]]."),
        Scrap::new("scrap2", &None, "# Scrap 2\n\nContent of scrap 2."),
        Scrap::new("scrap3", &None, "# Scrap 3\n\nContent of scrap 3."),
    ];
    let results = LookupScrapLinksUsecase::new()
        .execute(&scraps, "scrap1", &None)
        .expect("Should succeed");
    assert_eq!(results.len(), 2);
    assert_eq!(results[0].kind, LinkRefKind::Link);
    assert_eq!(results[0].title.to_string(), "scrap2");
    assert_eq!(results[1].kind, LinkRefKind::Link);
    assert_eq!(results[1].title.to_string(), "scrap3");
}

#[test]
fn test_lookup_scrap_links_with_context() {
    let scraps = vec![
        Scrap::new("scrap1", &Some("Context".into()), "# Scrap 1\n\nThis links to [[scrap2]]."),
        Scrap::new("scrap2", &None, "# Scrap 2\n\nContent of scrap 2."),
    ];
    let results = LookupScrapLinksUsecase::new()
        .execute(&scraps, "scrap1", &Some("Context".to_string()))
        .expect("Should succeed");
    assert_eq!(results.len(), 1);
    assert_eq!(results[0].title.to_string(), "scrap2");
}

#[test]
fn test_lookup_scrap_links_not_found() {
    let scraps = vec![Scrap::new("scrap1", &None, "# Scrap 1\n\nContent.")];
    let result = LookupScrapLinksUsecase::new().execute(&scraps, "Nonexistent Scrap", &None);
    assert!(result.is_err());
    assert!(result.unwrap_err().to_string().contains("Scrap not found"));
}

#[test]
fn test_lookup_scrap_links_no_links() {
    let scraps = vec![Scrap::new("scrap1", &None, "# Scrap 1\n\nThis scrap has no links.")];
    let results = LookupScrapLinksUsecase::new()
        .execute(&scraps, "scrap1", &None)
        .expect("Should succeed");
    assert_eq!(results.len(), 0);
}

#[test]
fn test_lookup_scrap_links_preserves_heading_occurrences() {
    let scraps = vec![
        Scrap::new("scrap1", &None, "# Scrap 1\n\nSee [[Target#Install]] and [[Target#Usage]]."),
        Scrap::new("Target", &None, "# Target"),
    ];
    let results = LookupScrapLinksUsecase::new()
        .execute(&scraps, "scrap1", &None)
        .expect("Should succeed");
    assert_eq!(results.len(), 2);
    assert_eq!(results[0].kind, LinkRefKind::Link);
    assert_eq!(results[0].title.to_string(), "Target");
    assert_eq!(results[0].heading.as_deref(), Some("Install"));
    assert_eq!(results[1].heading.as_deref(), Some("Usage"));
}

#[test]
fn test_lookup_scrap_links_includes_embeds() {
    let scraps = vec![
        Scrap::new("scrap1", &None, "# Scrap 1\n\nEmbed ![[Target#Install]] and link [[Other]]."),
        Scrap::new("Target", &None, "# Target"),
        Scrap::new("Other", &None, "# Other"),
    ];
    let results = LookupScrapLinksUsecase::new()
        .execute(&scraps, "scrap1", &None)
        .expect("Should succeed");
    assert_eq!(results.len(), 2);
    assert_eq!(results[0].kind, LinkRefKind::Embed);
    assert_eq!(results[0].title.to_string(), "Target");
    assert_eq!(results[0].heading.as_deref(), Some("Install"));
    assert_eq!(results[1].kind, LinkRefKind::Link);
    assert_eq!(results[1].title.to_string(), "Other");
    assert_eq!(results[1].heading, None);
}

#[test]
fn test_lookup_scrap_links_excludes_tags() {
    let scraps = vec![
        Scrap::new("scrap1", &None, "# Scrap 1\n\nLink [[Target]] and tag #[[ai]]."),
        Scrap::new("Target", &None, "# Target"),
    ];
    let results = LookupScrapLinksUsecase::new()
        .execute(&scraps, "scrap1", &None)
        .expect("Should succeed");
    assert_eq!(results.len(), 1);
    assert_eq!(results[0].title.to_string(), "Target");
}

#[test]
fn test_lookup_scrap_links_resolves_ctx_target() {
    let scraps = vec![
        Scrap::new("scrap1", &None, "# Scrap 1\n\nSee [[Book/Target]]."),
        Scrap::new("Target", &Some("Book".into()), "# Target"),
    ];
    let results = LookupScrapLinksUsecase::new()
        .execute(&scraps, "scrap1", &None)
        .expect("Should succeed");
    assert_eq!(results.len(), 1);
    assert_eq!(results[0].title.to_string(), "Target");
    assert_eq!(results[0].ctx.as_deref(), Some("Book"));
}
