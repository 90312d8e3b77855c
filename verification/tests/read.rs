use scraps::read::{scrap_name_of, scrap_of_file};

#[test]
fn it_names_a_top_level_scrap_by_its_file_stem() {
    assert_eq!(scrap_name_of("a.md"), ("a".to_string(), None));
}

#[test]
fn it_takes_the_folders_as_the_context() {
    assert_eq!(scrap_name_of("Book/x.md"), ("x".to_string(), Some("Book".to_string())));
    assert_eq!(
        scrap_name_of("Book/Rust/x y.md"),
        ("x y".to_string(), Some("Book/Rust".to_string()))
    );
}

#[test]
fn it_keeps_a_name_without_the_md_extension() {
    assert_eq!(scrap_name_of("notes.txt"), ("notes.txt".to_string(), None));
    assert_eq!(scrap_name_of(".md"), (".md".to_string(), None));
}

#[test]
fn it_reads_the_links_of_a_file() {
    let s = scrap_of_file("Book/x.md", "see [[y]] and #[[t]]");
    assert_eq!(s.title, "x");
    assert_eq!(s.ctx, Some("Book".to_string()));
    assert_eq!(s.md_text(), "see [[y]] and #[[t]]");
    let links: Vec<String> = s.links().iter().map(|k| k.to_text()).collect();
    assert_eq!(links, vec!["y".to_string()]);
    assert_eq!(s.tags(), vec!["t".to_string()]);
}
