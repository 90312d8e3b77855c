use scraps::graph::{label_of, GraphSelection, LinkDir, MAX_NODES};
use scraps::model::Scrap;

fn scrap(title: &str, text: &str) -> Scrap {
    Scrap::new(title, &None, text)
}

fn dir_of(graph: &GraphSelection, title: &str) -> LinkDir {
    graph
        .nodes
        .iter()
        .find(|node| node.key.title == title)
        .unwrap_or_else(|| panic!("{title} not in graph"))
        .dir
}

#[test]
fn it_returns_none_without_neighbors() {
    assert_eq!(GraphSelection::new("center", &[], &[], MAX_NODES), None);
}

#[test]
fn it_classifies_each_neighbor_by_direction() {
    let inbound = vec![scrap("in", ""), scrap("mutual", "")];
    let outbound = vec![scrap("out", ""), scrap("mutual", "")];
    let graph = GraphSelection::new("center", &inbound, &outbound, MAX_NODES).unwrap();
    assert_eq!(graph.nodes.len(), 3);
    assert_eq!(dir_of(&graph, "in"), LinkDir::In);
    assert_eq!(dir_of(&graph, "out"), LinkDir::Out);
    assert_eq!(dir_of(&graph, "mutual"), LinkDir::Both);
    assert_eq!(graph.dropped, 0);
}

#[test]
fn it_keeps_both_directions_when_the_cap_bites() {
    let inbound: Vec<Scrap> = (0..30).map(|i| scrap(&format!("a{i:02}"), "")).collect();
    let outbound = vec![scrap("zzz", "")];
    let graph = GraphSelection::new("center", &inbound, &outbound, MAX_NODES).unwrap();
    assert_eq!(graph.nodes.len(), MAX_NODES);
    assert_eq!(graph.dropped, 31 - MAX_NODES);
    assert_eq!(dir_of(&graph, "zzz"), LinkDir::Out);
}

#[test]
fn it_orders_nodes_independently_of_read_order() {
    let forward = vec![scrap("a", ""), scrap("b", ""), scrap("c", "")];
    let reversed = vec![scrap("c", ""), scrap("b", ""), scrap("a", "")];
    let one = GraphSelection::new("center", &forward, &[], MAX_NODES).unwrap();
    let other = GraphSelection::new("center", &reversed, &[], MAX_NODES).unwrap();
    assert_eq!(one, other);
}

#[test]
fn it_points_arrows_at_the_referenced_side() {
    let inbound = vec![scrap("in", ""), scrap("mutual", "")];
    let outbound = vec![scrap("out", ""), scrap("mutual", "")];
    let graph = GraphSelection::new("center", &inbound, &outbound, MAX_NODES).unwrap();
    let d = |t: &str| dir_of(&graph, t);
    assert!(d("in").arrow_at_center() && !d("in").arrow_at_node());
    assert!(!d("out").arrow_at_center() && d("out").arrow_at_node());
    assert!(d("mutual").arrow_at_center() && d("mutual").arrow_at_node());
}

#[test]
fn it_shortens_a_long_title_but_keeps_it_for_the_tooltip() {
    let long = "a very long scrap title that will not fit on one node";
    let graph = GraphSelection::new("center", &[], &[scrap(long, "")], MAX_NODES).unwrap();
    assert_eq!(graph.nodes[0].key.title, long);
    assert_eq!(graph.nodes[0].label, "a very long scra…");
    assert_eq!(graph.center_label, "center");
}

#[test]
fn labels_cut_by_characters_not_bytes() {
    assert_eq!(label_of("あいうえおかきくけこさしすせそたち"), "あいうえおかきくけこさしすせそた…");
    assert_eq!(label_of("exactly sixteen!"), "exactly sixteen!");
}

#[test]
fn selection_round_robins_then_sorts_by_name() {
    let inbound = vec![scrap("i1", ""), scrap("i2", ""), scrap("i3", "")];
    let outbound = vec![scrap("o1", ""), scrap("o2", "")];
    let graph = GraphSelection::new("c", &inbound, &outbound, 3).unwrap();
    let names: Vec<&str> = graph.nodes.iter().map(|n| n.key.title.as_str()).collect();
    assert_eq!(names, vec!["i1", "i2", "o1"]);
    assert_eq!(graph.dropped, 2);
}

#[test]
fn it_selects_the_same_neighbours_for_any_read_order() {
    let a = scrap("a", "[[center]]");
    let b = scrap("b", "[[center]]");
    let c = scrap("c", "[[center]]");
    let d = scrap("d", "");
    let one = GraphSelection::new("center", &[a.clone(), b.clone(), c.clone()], &[d.clone(), b.clone()], 3).unwrap();
    let two = GraphSelection::new("center", &[c, b.clone(), a], &[b, d], 3).unwrap();
    assert_eq!(one, two);
    assert_eq!(one.nodes.len(), 3);
    assert_eq!(one.dropped, 1);
    assert_eq!(dir_of(&one, "b"), LinkDir::Both);
}

#[test]
fn with_room_for_each_direction_every_direction_keeps_a_seat() {
    let backlinkers: Vec<Scrap> = (0..5).map(|i| scrap(&format!("in{i}"), "[[center]]")).collect();
    let out = scrap("zz-out", "");
    let g = GraphSelection::new("center", &backlinkers, &[out], 2).unwrap();
    assert_eq!(g.nodes.len(), 2);
    assert_eq!(dir_of(&g, "zz-out"), LinkDir::Out);
    assert_eq!(g.dropped, 4);
}
