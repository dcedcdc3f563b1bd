use darkstar::layout::{are_joined, edge_degrees, grid_columns, group_edges, hierarchy_layers, radial_layers, SUBCLASS_LABEL};
use darkstar::ui::GraphEdge;

fn edge(from: &str, to: &str, label: &str) -> GraphEdge {
    GraphEdge { from: from.to_string(), to: to.to_string(), label: label.to_string(), is_inferred: false }
}

fn sub(child: &str, parent: &str) -> GraphEdge {
    edge(child, parent, SUBCLASS_LABEL)
}

fn names(v: &[&str]) -> Vec<String> {
    v.iter().map(|s| s.to_string()).collect()
}

fn sorted(mut v: Vec<String>) -> Vec<String> {
    v.sort();
    v
}

#[test]
fn edges_between_two_nodes_share_a_group_in_either_direction() {
    let edges = vec![edge("a", "b", "knows"), edge("b", "a", "likes"), edge("a", "c", "knows"), edge("a", "b", "sees")];
    let groups = group_edges(&edges);
    assert_eq!(groups.len(), 2);
    assert_eq!((groups[0].first.as_str(), groups[0].second.as_str()), ("a", "b"));
    assert_eq!(groups[0].edges, vec![0, 1, 3]);
    assert_eq!((groups[1].first.as_str(), groups[1].second.as_str()), ("a", "c"));
    assert_eq!(groups[1].edges, vec![2]);
}

#[test]
fn a_group_names_the_lesser_text_first() {
    let groups = group_edges(&vec![edge("z", "m", "p")]);
    assert_eq!((groups[0].first.as_str(), groups[0].second.as_str()), ("m", "z"));
    assert!(group_edges(&Vec::new()).is_empty());
}

#[test]
fn grid_columns_is_the_least_square_root_above() {
    let expected = [(0, 0), (1, 1), (2, 2), (4, 2), (5, 3), (9, 3), (10, 4), (100, 10), (101, 11)];
    for (count, cols) in expected {
        assert_eq!(grid_columns(count), cols, "{} nodes", count);
    }
}

#[test]
fn radial_layers_follow_the_distance_from_the_center() {
    let edges = vec![edge("a", "b", "p"), edge("c", "b", "p"), edge("a", "d", "p"), edge("x", "y", "p"), edge("c", "a", "p")];
    let layers = radial_layers(&"a".to_string(), &edges);
    assert_eq!(layers.len(), 2);
    assert_eq!(layers[0], names(&["a"]));
    assert_eq!(sorted(layers[1].clone()), names(&["b", "c", "d"]));
}

#[test]
fn radial_layers_of_a_chain() {
    let edges = vec![edge("b", "c", "p"), edge("a", "b", "p"), edge("c", "d", "p")];
    let layers = radial_layers(&"a".to_string(), &edges);
    assert_eq!(layers, vec![names(&["a"]), names(&["b"]), names(&["c"]), names(&["d"])]);
    let alone = radial_layers(&"q".to_string(), &edges);
    assert_eq!(alone, vec![names(&["q"])]);
}

#[test]
fn hierarchy_depth_is_the_longest_chain_from_a_top() {
    let nodes = names(&["A", "B", "C", "D", "lit"]);
    let edges = vec![sub("B", "A"), sub("C", "B"), sub("C", "A"), edge("D", "lit", "label")];
    let mut depths = hierarchy_layers(&nodes, &edges).expect("no cycle");
    depths.sort();
    let expected: Vec<(String, usize)> =
        vec![("A".into(), 0), ("B".into(), 1), ("C".into(), 2), ("D".into(), 0), ("lit".into(), 0)];
    assert_eq!(depths, expected);
}

#[test]
fn hierarchy_with_a_reachable_cycle_has_no_depths() {
    let nodes = names(&["A", "B", "C"]);
    let edges = vec![sub("B", "A"), sub("B", "C"), sub("C", "B")];
    assert_eq!(hierarchy_layers(&nodes, &edges), None);
}

#[test]
fn hierarchy_cycle_without_a_top_leaves_its_nodes_out() {
    let nodes = names(&["X", "Y", "Z"]);
    let edges = vec![sub("X", "Y"), sub("Y", "X")];
    assert_eq!(hierarchy_layers(&nodes, &edges), Some(vec![("Z".to_string(), 0)]));
}

#[test]
fn degrees_count_the_edges_at_each_end() {
    let edges = vec![edge("a", "b", "p"), edge("c", "b", "p"), edge("b", "a", "q"), edge("b", "b", "r")];
    assert_eq!(edge_degrees(&edges, &"b".to_string()), (3, 2));
    assert_eq!(edge_degrees(&edges, &"a".to_string()), (1, 1));
    assert_eq!(edge_degrees(&edges, &"z".to_string()), (0, 0));
}

#[test]
fn nodes_are_joined_by_an_edge_in_either_direction() {
    let edges = vec![edge("a", "b", "p"), edge("c", "d", "p")];
    assert!(are_joined(&edges, &"a".to_string(), &"b".to_string()));
    assert!(are_joined(&edges, &"b".to_string(), &"a".to_string()));
    assert!(!are_joined(&edges, &"a".to_string(), &"c".to_string()));
}
