use scraps::backlinks::BacklinksMap;
use scraps::model::Scrap;
use scraps::pages::{
    tag_slug_path, IndexScrapsTera, ScrapDetail, ScrapDetails, SerializeIndexScrap, SortKey,
    TagsTera, TitleIndexTera,
};
use scraps::site::{ColorScheme, ColorSchemeTera, ListViewConfigs, Paging};
use scraps::tags::Tags;

fn titles(stags: &TagsTera) -> Vec<&str> {
    stags.0.iter().map(|s| s.title.as_str()).collect()
}

fn tags_tera(scraps: &[Scrap]) -> TagsTera {
    TagsTera::new(&Tags::new(scraps), &BacklinksMap::new(scraps))
}

#[test]
fn it_orders_by_backlinks_count_desc_then_title_asc() {
    let scraps = [
        Scrap::new("s1", &None, "#[[popular]] #[[delta]]"),
        Scrap::new("s2", &None, "#[[popular]] #[[charlie]]"),
        Scrap::new("s3", &None, "#[[popular]] #[[bravo]]"),
        Scrap::new("s4", &None, "#[[alpha]]"),
    ];
    assert_eq!(titles(&tags_tera(&scraps)), vec!["popular", "alpha", "bravo", "charlie", "delta"]);
}

#[test]
fn it_orders_tied_tags_the_same_way_on_every_build() {
    let scraps = [
        Scrap::new("s1", &None, "#[[delta]]"),
        Scrap::new("s2", &None, "#[[charlie]]"),
        Scrap::new("s3", &None, "#[[bravo]]"),
        Scrap::new("s4", &None, "#[[alpha]]"),
    ];
    let first = tags_tera(&scraps);
    for _ in 0..100 {
        assert_eq!(titles(&tags_tera(&scraps)), titles(&first));
    }
}

#[test]
fn it_orders_hierarchical_tags_by_full_path() {
    let scraps = [Scrap::new("s1", &None, "#[[ai/ml]]"), Scrap::new("s2", &None, "#[[ai/agent]]")];
    assert_eq!(titles(&tags_tera(&scraps)), vec!["ai", "ai/agent", "ai/ml"]);
}

#[test]
fn tag_counts_and_slugs() {
    let scraps = [Scrap::new("s1", &None, "#[[AI/Machine Learning]]"), Scrap::new("s2", &None, "#[[AI]]")];
    let t = tags_tera(&scraps);
    assert_eq!(t.0[0].title, "AI");
    assert_eq!(t.0[0].backlinks_count, 2);
    assert_eq!(t.0[1].slug, "ai/machine-learning");
    assert_eq!(tag_slug_path("a b/C  D"), "a-b/c-d");
}

#[test]
fn it_groups_and_orders_titles() {
    let scrap1 = Scrap::new("デザイントークン", &None, "[[DTCG]]");
    let scrap2 = Scrap::new("DTCG", &None, "");
    let scrap3 = Scrap::new("DevOps", &None, "");
    let scrap4 = Scrap::new("設計", &None, "");
    let scraps = [scrap1.clone(), scrap2.clone(), scrap3.clone(), scrap4.clone()];
    let details = ScrapDetails::new(vec![
        ScrapDetail::new(&scrap1, &None),
        ScrapDetail::new(&scrap2, &None),
        ScrapDetail::new(&scrap3, &None),
        ScrapDetail::new(&scrap4, &None),
    ]);
    let backlinks_map = BacklinksMap::new(&scraps);
    let result = TitleIndexTera::new(&details, &backlinks_map);
    let labels: Vec<&str> = result.0.iter().map(|g| g.label.as_str()).collect();
    assert_eq!(labels, vec!["た", "D", "漢字"]);
    let d_titles: Vec<&str> = result.0[1].scraps.iter().map(|s| s.title.as_str()).collect();
    assert_eq!(d_titles, vec!["DevOps", "DTCG"]);
    assert_eq!(result.0[1].scraps[1].backlinks_count, 1);
    assert_eq!(result.0[1].scraps[1].html_file_name, "DTCG.html");
}

fn index_fixture() -> (Vec<ScrapDetail>, BacklinksMap) {
    let scrap1 = Scrap::new("title1", &None, "[[Context/title4]][[title2]]");
    let scrap2 = Scrap::new("title2", &None, "[[Context/title4]][[title1]]");
    let scrap3 = Scrap::new("title3", &None, "[[Context/title4]]");
    let scrap4 = Scrap::new("title4", &Some("Context".into()), "[[title1]]");
    let scraps = [scrap1.clone(), scrap2.clone(), scrap3.clone(), scrap4.clone()];
    let details = vec![
        ScrapDetail::new(&scrap1, &None),
        ScrapDetail::new(&scrap2, &Some(3)),
        ScrapDetail::new(&scrap3, &Some(2)),
        ScrapDetail::new(&scrap4, &Some(1)),
    ];
    (details, BacklinksMap::new(&scraps))
}

#[test]
fn it_new_with_sort() {
    let (details, backlinks_map) = index_fixture();
    let rows: Vec<SerializeIndexScrap> =
        details.iter().map(|d| SerializeIndexScrap::new(d, &backlinks_map)).collect();
    let result1 = IndexScrapsTera::new_with_sort(
        &ScrapDetails::new(details.clone()),
        &backlinks_map,
        &SortKey::CommittedDate,
    );
    assert_eq!(result1.0, vec![rows[1].clone(), rows[2].clone(), rows[3].clone(), rows[0].clone()]);
    let result2 = IndexScrapsTera::new_with_sort(
        &ScrapDetails::new(details.clone()),
        &backlinks_map,
        &SortKey::LinkedCount,
    );
    assert_eq!(result2.0, vec![rows[3].clone(), rows[0].clone(), rows[1].clone(), rows[2].clone()]);
}

#[test]
fn index_rows_carry_counts_and_file_names() {
    let (details, backlinks_map) = index_fixture();
    let row = SerializeIndexScrap::new(&details[3], &backlinks_map);
    assert_eq!(row.html_file_name, "Context/title4.html");
    assert_eq!(row.backlinks_count, 3);
    assert_eq!(row.links_count, 1);
    assert_eq!(row.commited_ts, Some(1));
    assert_eq!(row.summary.as_deref(), Some("title1"));
}

#[test]
fn sorted_by_title_ignores_case_and_chunks_pages() {
    let a = Scrap::new("banana", &None, "");
    let b = Scrap::new("Apple", &None, "");
    let c = Scrap::new("cherry", &None, "");
    let scraps = [a.clone(), b.clone(), c.clone()];
    let details = ScrapDetails::new(vec![
        ScrapDetail::new(&a, &None),
        ScrapDetail::new(&b, &None),
        ScrapDetail::new(&c, &None),
    ]);
    let bm = BacklinksMap::new(&scraps);
    let sorted = IndexScrapsTera::new_sorted_by_title(&details, &bm);
    let names: Vec<&str> = sorted.0.iter().map(|r| r.title.as_str()).collect();
    assert_eq!(names, vec!["Apple", "banana", "cherry"]);
    let pages = sorted.chunks(2);
    assert_eq!(pages.len(), 2);
    assert_eq!(pages[0].0.len(), 2);
    assert_eq!(pages[1].0.len(), 1);
    assert_eq!(pages[1].0[0].title, "cherry");
}

#[test]
fn paging_and_configs() {
    assert_eq!(Paging::Not.size_with(7), 7);
    assert_eq!(Paging::By(3).size_with(7), 3);
    let configs = ListViewConfigs::new(&true, &Paging::By(20));
    assert!(configs.build_search_index);
    assert_eq!(configs.paging, Paging::By(20));
    assert_eq!(ColorSchemeTera::new(&ColorScheme::OsSetting).as_css(), "light dark");
    assert_eq!(ColorSchemeTera::new(&ColorScheme::OnlyDark).as_css(), "only dark");
}
