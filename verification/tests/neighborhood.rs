use scraps::model::Scrap;
use scraps::neighborhood::{LookupScrapNeighborhoodResult, LookupScrapNeighborhoodUsecase, NeighborhoodNode, MAX_DEPTH};

fn scrap(title: &str, text: &str) -> Scrap {
    Scrap::new(title, &None, text)
}

fn titles(nodes: &[NeighborhoodNode]) -> Vec<String> {
    nodes.iter().map(|n| n.scrap.title.to_string()).collect()
}

fn hop_of(result: &LookupScrapNeighborhoodResult, title: &str) -> usize {
    result
        .nodes
        .iter()
        .find(|n| n.scrap.title.to_string() == title)
        .unwrap_or_else(|| panic!("{title} should be a node: {:?}", titles(&result.nodes)))
        .hop
}

#[test]
fn test_one_call_returns_the_neighborhood_and_its_edges() {
    let scraps = vec![
        scrap("microservices", "# microservices\n\nlinks to [[ddd]]"),
        scrap("ddd", "# ddd\n\ncontent"),
        scrap("monolith", "# monolith\n\nlinks to [[microservices]]"),
    ];
    let result = LookupScrapNeighborhoodUsecase::new()
        .execute(&scraps, "microservices", &None, 1, 50)
        .unwrap();
    assert_eq!(titles(&result.nodes), vec!["microservices", "ddd", "monolith"]);
    assert_eq!(hop_of(&result, "microservices"), 0);
    assert_eq!(result.edges.len(), 2);
    assert_eq!(result.dropped, 0);
}

#[test]
fn test_the_given_scrap_is_the_only_root() {
    let scraps = vec![
        scrap("rust guide", "# rust guide\n\n[[rust patterns]]"),
        scrap("rust patterns", "# rust patterns\n\ncontent"),
        scrap("rust tooling", "# rust tooling\n\ncontent"),
    ];
    let result = LookupScrapNeighborhoodUsecase::new()
        .execute(&scraps, "rust guide", &None, 1, 50)
        .unwrap();
    assert_eq!(titles(&result.nodes), vec!["rust guide", "rust patterns"]);
    assert_eq!(result.nodes.iter().filter(|n| n.hop == 0).count(), 1, "only the given scrap sits at hop 0");
}

#[test]
fn test_an_unknown_scrap_is_an_error_not_an_empty_map() {
    let scraps = vec![scrap("known", "# known\n\ncontent")];
    let result = LookupScrapNeighborhoodUsecase::new().execute(&scraps, "unknown", &None, 1, 50);
    assert!(result.is_err());
}

#[test]
fn test_edges_are_wiki_links_in_both_directions_only() {
    let scraps = vec![
        scrap("root", "# root\n\n[[outbound]] #[[shared]]"),
        scrap("outbound", "# outbound\n\ncontent"),
        scrap("inbound", "# inbound\n\n[[root]]"),
        scrap("tag mate", "# tag mate\n\n#[[shared]]"),
    ];
    let result = LookupScrapNeighborhoodUsecase::new()
        .execute(&scraps, "root", &None, 1, 50)
        .unwrap();
    assert_eq!(titles(&result.nodes), vec!["root", "outbound", "inbound"]);
    assert_eq!(hop_of(&result, "outbound"), 1);
    assert_eq!(hop_of(&result, "inbound"), 1);
    let edges: Vec<(String, String)> = result
        .edges
        .iter()
        .map(|e| (e.from.title.to_string(), e.to.title.to_string()))
        .collect();
    assert!(edges.contains(&("root".to_string(), "outbound".to_string())));
    assert!(edges.contains(&("inbound".to_string(), "root".to_string())));
}

#[test]
fn test_a_scrap_reached_twice_keeps_its_shortest_hop() {
    let scraps = vec![
        scrap("root", "# root\n\n[[near]] [[far]]"),
        scrap("near", "# near\n\n[[far]]"),
        scrap("far", "# far\n\ncontent"),
    ];
    let result = LookupScrapNeighborhoodUsecase::new()
        .execute(&scraps, "root", &None, 2, 50)
        .unwrap();
    assert_eq!(result.nodes.len(), 3);
    assert_eq!(hop_of(&result, "far"), 1);
    assert_eq!(result.edges.len(), 3);
}

#[test]
fn test_depth_opens_one_ring_at_a_time_and_stops_at_five() {
    let mut scraps = vec![scrap("s0", "# s0\n\n[[s1]]")];
    for i in 1..=6 {
        scraps.push(scrap(&format!("s{i}"), &format!("# s{i}\n\n[[s{}]]", i + 1)));
    }
    scraps.push(scrap("s7", "# s7\n\ncontent"));
    let usecase = LookupScrapNeighborhoodUsecase::new();

    let shallow = usecase.execute(&scraps, "s0", &None, 1, 50).unwrap();
    assert_eq!(titles(&shallow.nodes), vec!["s0", "s1"]);

    let deeper = usecase.execute(&scraps, "s0", &None, 2, 50).unwrap();
    assert_eq!(titles(&deeper.nodes), vec!["s0", "s1", "s2"]);

    let over = usecase.execute(&scraps, "s0", &None, 9, 50).unwrap();
    assert_eq!(over.nodes.len(), MAX_DEPTH + 1);
    assert_eq!(hop_of(&over, "s5"), MAX_DEPTH);
}

#[test]
fn test_the_same_call_returns_the_same_map() {
    let linkers: Vec<Scrap> = ["c", "a", "b"]
        .iter()
        .map(|t| scrap(t, &format!("# {t}\n\n[[root]]")))
        .collect();
    let mut scraps = vec![scrap("root", "# root\n\ncontent")];
    scraps.extend(linkers);
    let mut reversed = scraps.clone();
    reversed.reverse();
    let usecase = LookupScrapNeighborhoodUsecase::new();

    let read_one = usecase.execute(&scraps, "root", &None, 1, 50).unwrap();
    let read_other = usecase.execute(&reversed, "root", &None, 1, 50).unwrap();

    assert_eq!(titles(&read_one.nodes), vec!["root", "a", "b", "c"]);
    assert_eq!(titles(&read_other.nodes), titles(&read_one.nodes));
}

#[test]
fn test_node_cap_keeps_the_near_and_counts_what_it_dropped() {
    let hub_links: String = (1..=20).map(|i| format!("[[n{i:02}]] ")).collect();
    let mut scraps = vec![scrap("hub", &format!("# hub\n\n{hub_links}"))];
    for i in 1..=20 {
        scraps.push(scrap(&format!("n{i:02}"), "content"));
    }
    let result = LookupScrapNeighborhoodUsecase::new()
        .execute(&scraps, "hub", &None, 2, 5)
        .unwrap();
    assert_eq!(result.nodes.len(), 5);
    assert_eq!(hop_of(&result, "hub"), 0);
    assert_eq!(result.dropped, 16);
}

#[test]
fn test_a_scrap_with_no_relations_returns_itself_alone() {
    let scraps = vec![scrap("lonely", "# lonely\n\ncontent"), scrap("elsewhere", "# elsewhere\n\ncontent")];
    let result = LookupScrapNeighborhoodUsecase::new()
        .execute(&scraps, "lonely", &None, 2, 50)
        .unwrap();
    assert_eq!(titles(&result.nodes), vec!["lonely"]);
    assert!(result.edges.is_empty());
}

#[test]
fn a_cap_of_zero_returns_nothing_and_counts_the_root() {
    let scraps = vec![scrap("a", "[[b]]"), scrap("b", "")];
    let result = LookupScrapNeighborhoodUsecase::new().execute(&scraps, "a", &None, 2, 0).unwrap();
    assert!(result.nodes.is_empty());
    assert!(result.edges.is_empty());
    assert_eq!(result.dropped, 1);
}

#[test]
fn depth_zero_returns_the_root_alone_with_its_self_link() {
    let scraps = vec![scrap("a", "[[a]] [[b]]"), scrap("b", "")];
    let result = LookupScrapNeighborhoodUsecase::new().execute(&scraps, "a", &None, 0, 10).unwrap();
    assert_eq!(titles(&result.nodes), vec!["a"]);
    assert_eq!(result.edges.len(), 1);
    assert_eq!(result.edges[0].from.title, "a");
    assert_eq!(result.edges[0].to.title, "a");
}

#[test]
fn inbound_neighbours_come_after_outbound_in_name_order() {
    let scraps = vec![
        scrap("root", "[[z]]"),
        scrap("z", ""),
        Scrap::new("m", &Some("ctx".into()), "[[root]]"),
        scrap("y", "[[root]]"),
        scrap("b", "[[root]]"),
    ];
    let result = LookupScrapNeighborhoodUsecase::new().execute(&scraps, "root", &None, 1, 50).unwrap();
    let names: Vec<(Option<String>, String)> =
        result.nodes.iter().map(|n| (n.scrap.ctx.clone(), n.scrap.title.clone())).collect();
    assert_eq!(
        names,
        vec![
            (None, "root".to_string()),
            (None, "z".to_string()),
            (None, "b".to_string()),
            (None, "y".to_string()),
            (Some("ctx".to_string()), "m".to_string()),
        ]
    );
}

#[test]
fn it_gives_the_same_neighbourhood_for_any_read_order() {
    let scraps = vec![
        scrap("root", "# root\n\ncontent"),
        scrap("c", "[[root]]"),
        scrap("a", "[[root]] [[b]]"),
        scrap("b", "[[root]]"),
    ];
    let mut reversed = scraps.clone();
    reversed.reverse();
    let uc = LookupScrapNeighborhoodUsecase::new();
    let one = uc.execute(&scraps, "root", &None, 2, 50).unwrap();
    let two = uc.execute(&reversed, "root", &None, 2, 50).unwrap();
    assert_eq!(one, two);
    assert_eq!(titles(&one.nodes), vec!["root", "a", "b", "c"]);
}

#[test]
fn a_smaller_cap_only_cuts_the_order_short() {
    let scraps = vec![
        scrap("root", "[[a]] [[b]]"),
        scrap("a", "[[c]]"),
        scrap("b", "[[d]]"),
        scrap("c", ""),
        scrap("d", ""),
    ];
    let uc = LookupScrapNeighborhoodUsecase::new();
    let full = uc.execute(&scraps, "root", &None, 3, 50).unwrap();
    assert_eq!(full.dropped, 0);
    for limit in 0..6 {
        let cut = uc.execute(&scraps, "root", &None, 3, limit).unwrap();
        assert_eq!(&full.nodes[..cut.nodes.len()], &cut.nodes[..]);
        if cut.dropped == 0 {
            assert_eq!(cut, full);
        }
    }
}
