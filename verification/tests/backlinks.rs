use scraps::backlinks::{BacklinksMap, LinkedScrapsMap};
use scraps::model::{Scrap, ScrapKey};

fn key(title: &str, ctx: Option<&str>) -> ScrapKey {
    ScrapKey::new(title, &ctx.map(|c| c.to_string()))
}

#[test]
fn it_get_returns_scrap_link_backlinks_only() {
    let scrap1 = Scrap::new("scrap1", &None, "");
    let scrap2 = Scrap::new("scrap2", &None, "[[scrap1]]");
    let scraps = vec![scrap1.clone(), scrap2.clone()];
    let backlinks_map = BacklinksMap::new(&scraps);
    assert_eq!(backlinks_map.get(&key("scrap1", None)), vec![scrap2]);
}

#[test]
fn it_get_with_context() {
    let scrap1 = Scrap::new("scrap1", &Some("Context".into()), "");
    let scrap2 = Scrap::new("scrap2", &Some("Context".into()), "[[Context/scrap1]]");
    let scrap3 = Scrap::new("scrap3", &None, "[[Context/scrap1]][[Context/scrap2]]");
    let scraps = vec![scrap1.clone(), scrap2.clone(), scrap3.clone()];
    let backlinks_map = BacklinksMap::new(&scraps);
    assert_eq!(backlinks_map.get(&key("scrap1", Some("Context"))), vec![scrap2.clone(), scrap3.clone()]);
    assert_eq!(backlinks_map.get(&key("scrap2", Some("Context"))), vec![scrap3.clone()]);
    assert_eq!(backlinks_map.get(&key("scrap3", None)), vec![]);
}

#[test]
fn it_get_tag_collects_explicit_tagged_scraps() {
    let scrap1 = Scrap::new("a", &None, "#[[ai]]");
    let scrap2 = Scrap::new("b", &None, "#[[ai]]");
    let scrap3 = Scrap::new("c", &None, "no tags");
    let scraps = vec![scrap1.clone(), scrap2.clone(), scrap3];
    let backlinks_map = BacklinksMap::new(&scraps);
    let mut got = backlinks_map.get_tag("ai");
    got.sort_by_key(|s| s.title.to_string());
    assert_eq!(got, vec![scrap1, scrap2]);
}

#[test]
fn it_get_tag_includes_descendant_tagged_scraps_via_auto_aggregation() {
    let scrap = Scrap::new("paper", &None, "#[[ai/ml/transformer]]");
    let scraps = vec![scrap.clone()];
    let backlinks_map = BacklinksMap::new(&scraps);
    assert_eq!(backlinks_map.get_tag("ai/ml/transformer"), vec![scrap.clone()]);
    assert_eq!(backlinks_map.get_tag("ai/ml"), vec![scrap.clone()]);
    assert_eq!(backlinks_map.get_tag("ai"), vec![scrap]);
}

#[test]
fn it_get_tag_unrelated_returns_empty() {
    let scrap = Scrap::new("a", &None, "#[[ai]]");
    let backlinks_map = BacklinksMap::new(&[scrap]);
    assert!(backlinks_map.get_tag("unrelated").is_empty());
}

#[test]
fn it_get_tag_dedupes_when_scrap_tagged_with_overlapping_paths() {
    let scrap = Scrap::new("multi", &None, "#[[ai]] and #[[ai/ml]]");
    let scraps = vec![scrap.clone()];
    let backlinks_map = BacklinksMap::new(&scraps);
    assert_eq!(backlinks_map.get_tag("ai"), vec![scrap]);
}

#[test]
fn tag_prefix_without_a_slash_is_no_ancestor() {
    let scrap = Scrap::new("a", &None, "#[[aim]]");
    let backlinks_map = BacklinksMap::new(&[scrap]);
    assert!(backlinks_map.get_tag("ai").is_empty());
}

#[test]
fn it_linked_by() {
    let scrap1 = Scrap::new("scrap1", &None, "[[tag1]]");
    let scrap2 = Scrap::new("scrap2", &None, "[[scrap1]][[tag1]]");
    let scraps = vec![scrap1.clone(), scrap2.clone()];
    let linked_map = LinkedScrapsMap::new(&scraps);
    assert_eq!(linked_map.linked_by(&key("scrap1", None)), vec![scrap2.clone()]);
    assert_eq!(linked_map.linked_by(&key("tag1", None)), vec![scrap1.clone(), scrap2.clone()]);
}

#[test]
fn it_linked_by_with_context() {
    let scrap1 = Scrap::new("scrap1", &Some("Context".into()), "");
    let scrap2 = Scrap::new("scrap2", &Some("Context".into()), "[[Context/scrap1]]");
    let scrap3 = Scrap::new("scrap3", &None, "[[Context/scrap1]][[Context/scrap2]]");
    let scraps = vec![scrap1.clone(), scrap2.clone(), scrap3.clone()];
    let linked_map = LinkedScrapsMap::new(&scraps);
    assert_eq!(linked_map.linked_by(&key("scrap1", Some("Context"))), vec![scrap2.clone(), scrap3.clone()]);
    assert_eq!(linked_map.linked_by(&key("scrap2", Some("Context"))), vec![scrap3.clone()]);
    assert_eq!(linked_map.linked_by(&key("scrap3", None)), vec![]);
}
