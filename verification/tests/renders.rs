use scraps::backlinks::BacklinksMap;
use scraps::graph::LinkDir;
use scraps::model::Scrap;
use scraps::pages::ScrapDetail;
use scraps::renders::{join, AboutRender, CSSRender, ScrapRender, SearchIndexRender, TagRender, TitleIndexRender};

#[test]
fn it_joins_paths_with_one_slash() {
    assert_eq!(join("public", "scraps"), "public/scraps");
    assert_eq!(join("public/", "scraps"), "public/scraps");
    assert_eq!(join("", "scraps"), "scraps");
}

#[test]
fn it_places_the_fixed_pages() {
    assert_eq!(AboutRender::new("static", "_site").file_path(), "_site/about/index.html");
    assert_eq!(CSSRender::new("static", "_site").main_path(), "_site/main.css");
    assert_eq!(TitleIndexRender::new("static", "_site").file_path(), "_site/titles/index.html");
    assert_eq!(SearchIndexRender::new("static", "_site").file_path(), "_site/search_index.json");
}

#[test]
fn tag_render_it_run() {
    let scraps = vec![
        Scrap::new("scrap1", &None, "#[[tag 1]]"),
        Scrap::new("scrap2", &None, "#[[tag 1]] #[[tag2]]"),
    ];
    let backlinks_map = BacklinksMap::new(&scraps);
    let render = TagRender::new("static", "_site");
    let page = render.page("tag 1", &backlinks_map);
    assert_eq!(page.file_path, "_site/tags/tag-1.html");
    assert_eq!(page.linked_scraps.len(), 2);
}

#[test]
fn it_run_hierarchical_creates_nested_directory() {
    let scraps = vec![Scrap::new("paper", &None, "#[[ai/ml]]")];
    let backlinks_map = BacklinksMap::new(&scraps);
    let render = TagRender::new("static", "_site");
    let page = render.page("ai/ml", &backlinks_map);
    assert_eq!(page.file_path, "_site/tags/ai/ml.html");
    assert_eq!(page.linked_scraps.len(), 1);
}

#[test]
fn it_draws_the_neighbourhood_only_when_there_is_one() {
    let linked = Scrap::new("linked", &None, "");
    let linking = Scrap::new("linking", &None, "[[linked]]");
    let alone = Scrap::new("alone", &None, "no wiki links here");
    let scraps = vec![linked.clone(), linking.clone(), alone.clone()];
    let backlinks_map = BacklinksMap::new(&scraps);
    let render = ScrapRender::new("static", "_site");
    let page_of = |s: &Scrap| render.page(&ScrapDetail::new(s, &None), &backlinks_map, &scraps);

    // The backlink points at the scrap being read.
    let backlinked = page_of(&linked).graph.expect("a graph");
    assert_eq!(backlinked.nodes.len(), 1);
    assert_eq!(backlinked.nodes[0].dir, LinkDir::In);

    let outbound = page_of(&linking).graph.expect("a graph");
    assert_eq!(outbound.nodes.len(), 1);
    assert_eq!(outbound.nodes[0].dir, LinkDir::Out);

    assert!(page_of(&alone).graph.is_none());
}

#[test]
fn it_lists_backlinks_links_and_tags_of_a_scrap_page() {
    let scrap1 = Scrap::new("scrap 1", &None, "# header1");
    let scrap2 = Scrap::new("scrap 2", &Some("Context".to_string()), "[[scrap 1]] [[nowhere]] #[[design]]");
    let scraps = vec![scrap1.clone(), scrap2.clone()];
    let backlinks_map = BacklinksMap::new(&scraps);
    let render = ScrapRender::new("static", "_site");

    let page1 = render.page(&ScrapDetail::new(&scrap1, &None), &backlinks_map, &scraps);
    assert_eq!(page1.file_path, "_site/scraps/scrap 1.html");
    assert_eq!(page1.linked_scraps.len(), 1);
    assert!(page1.outbound_scraps.is_empty());

    let page2 = render.page(&ScrapDetail::new(&scrap2, &None), &backlinks_map, &scraps);
    assert_eq!(page2.file_path, "_site/scraps/Context/scrap 2.html");
    assert!(page2.linked_scraps.is_empty());
    assert_eq!(page2.outbound_scraps.len(), 1);
    assert_eq!(page2.outbound_scraps[0].title, "scrap 1");
    assert_eq!(page2.tags.len(), 1);
    assert_eq!(page2.tags[0].title, "design");
}
