use darkstar::graph::TripleGraph;
use darkstar::manager::DarkstarManager;
use darkstar::rules::RDF_TYPE;
use darkstar::ui::{decimal, focus_graph, focus_nodes, generate_unique_uri, get_label, is_system, NodeType, ViewFlags};
use darkstar::manager::OWL_NAMED_INDIVIDUAL;

const EX: &str = "http://example.org/onto#";

fn ex(name: &str) -> String {
    format!("{}{}", EX, name)
}

fn key(name: &str) -> String {
    format!("i:{}{}", EX, name)
}

fn chain() -> DarkstarManager {
    let mut m = DarkstarManager::new();
    m.add_assertion(ex("a"), ex("knows"), ex("b")).unwrap();
    m.add_assertion(ex("b"), ex("knows"), ex("c")).unwrap();
    m.add_assertion(ex("c"), ex("knows"), ex("d")).unwrap();
    m
}

fn sorted(mut v: Vec<String>) -> Vec<String> {
    v.sort();
    v
}

#[test]
fn labels_are_the_text_after_the_last_slash_and_hash() {
    assert_eq!(get_label("i:http://example.org/onto#Person"), "Person");
    assert_eq!(get_label("http://example.org/people/alice"), "alice");
    assert_eq!(get_label("l:plain text"), "plain text");
    assert_eq!(get_label("b:node1"), "node1");
    assert_eq!(get_label("i:http://example.org/a#b/c"), "c");
}

#[test]
fn decimal_writes_numbers_without_leading_zeros() {
    assert_eq!(decimal(0), "0");
    assert_eq!(decimal(7), "7");
    assert_eq!(decimal(1203), "1203");
    assert_eq!(decimal(u64::MAX), u64::MAX.to_string());
}

#[test]
fn unique_names_skip_the_taken_ones() {
    let m = DarkstarManager::new();
    let g: &TripleGraph = &m.memory.main_graph;
    assert_eq!(generate_unique_uri(g, "NewClass"), Some("i:NewClass_1".to_string()));
}

#[test]
fn unique_names_are_not_subjects_of_the_graph() {
    let mut m = DarkstarManager::new();
    m.add_class("NewClass_1".to_string()).unwrap();
    m.add_class("NewClass_2".to_string()).unwrap();
    assert_eq!(generate_unique_uri(&m.memory.main_graph, "NewClass"), Some("i:NewClass_3".to_string()));
}

#[test]
fn vocabulary_predicates_are_system_predicates() {
    assert!(is_system(RDF_TYPE));
    assert!(is_system("i:http://www.w3.org/2000/01/rdf-schema#subClassOf"));
    assert!(is_system("http://www.w3.org/2002/07/owl#sameAs"));
    assert!(is_system("http://example.org/vocab/TYPE"));
    assert!(!is_system("http://example.org/onto#knows"));
    assert!(is_system("http://example.org/onto#typeOfThing"));
    assert!(!is_system("http://example.org/onto#hasType"));
}

#[test]
fn focus_reaches_the_neighbours_within_the_depth() {
    let m = chain();
    let roots = vec![key("a")];
    let one = focus_nodes(&m.memory.asserted_graph, &m.memory.inferred_graph, &roots, 1);
    assert_eq!(sorted(one), vec![key("a"), key("b")]);
    let two = focus_nodes(&m.memory.asserted_graph, &m.memory.inferred_graph, &roots, 2);
    assert_eq!(sorted(two), vec![key("a"), key("b"), key("c")]);
    let none = focus_nodes(&m.memory.asserted_graph, &m.memory.inferred_graph, &roots, 0);
    assert_eq!(none, vec![key("a")]);
}

#[test]
fn focus_follows_triples_backwards_too() {
    let m = chain();
    let roots = vec![key("c")];
    let one = focus_nodes(&m.memory.asserted_graph, &m.memory.inferred_graph, &roots, 1);
    assert_eq!(sorted(one), vec![key("b"), key("c"), key("d")]);
}

#[test]
fn focus_graph_draws_the_edges_between_the_visible_nodes() {
    let m = chain();
    let flags = ViewFlags::default();
    let model = focus_graph(&m.memory, &flags, &Some(key("b")), &vec![]).unwrap();
    assert_eq!(sorted(model.visible.clone()), vec![key("a"), key("b"), key("c")]);
    assert_eq!(model.edges.len(), 2);
    for e in &model.edges {
        assert_eq!(e.label, "knows");
        assert!(!e.is_inferred);
    }
    let mut names: Vec<String> = model.nodes.iter().map(|n| n.0.clone()).collect();
    names.sort();
    assert_eq!(names, vec![key("a"), key("b"), key("c")]);
    assert!(model.nodes.iter().all(|n| n.1 == NodeType::Individual));
}

#[test]
fn focus_graph_hides_vocabulary_edges_unless_asked() {
    let mut m = DarkstarManager::new();
    m.add_assertion(ex("a"), RDF_TYPE.to_string(), OWL_NAMED_INDIVIDUAL.to_string()).unwrap();
    m.add_assertion(ex("a"), ex("knows"), ex("b")).unwrap();
    let mut flags = ViewFlags::default();
    let hidden = focus_graph(&m.memory, &flags, &Some(key("a")), &vec![]).unwrap();
    assert_eq!(hidden.edges.len(), 1);
    assert_eq!(hidden.edges[0].to, key("b"));
    flags.show_system = true;
    let shown = focus_graph(&m.memory, &flags, &Some(key("a")), &vec![]).unwrap();
    assert_eq!(shown.edges.len(), 2);
    let labels: Vec<String> = shown.edges.iter().map(|e| e.label.clone()).collect();
    assert!(labels.contains(&"type".to_string()));
}

#[test]
fn focus_graph_gives_typed_nodes_their_kind() {
    let mut m = DarkstarManager::new();
    m.add_class(ex("Person")).unwrap();
    m.add_assertion(ex("alice"), RDF_TYPE.to_string(), ex("Person")).unwrap();
    let mut flags = ViewFlags::default();
    flags.show_system = true;
    let model = focus_graph(&m.memory, &flags, &Some(key("alice")), &vec![]).unwrap();
    let person = model.nodes.iter().find(|n| n.0 == key("Person")).unwrap();
    assert_eq!(person.1, NodeType::Class);
    flags.show_schema = false;
    let hidden = focus_graph(&m.memory, &flags, &Some(key("alice")), &vec![]).unwrap();
    assert_eq!(hidden.edges.len(), 0);
    assert_eq!(hidden.nodes.len(), 0);
}

#[test]
fn focus_graph_marks_inferred_edges() {
    let mut m = DarkstarManager::new();
    m.add_subclass(ex("Student"), ex("Person")).unwrap();
    m.add_assertion(ex("bob"), RDF_TYPE.to_string(), ex("Student")).unwrap();
    m.run_reasoning(&darkstar::settings::ReasonerRules::default()).unwrap();
    let mut flags = ViewFlags::default();
    flags.show_system = true;
    let model = focus_graph(&m.memory, &flags, &Some(key("bob")), &vec![]).unwrap();
    let to_person = model.edges.iter().find(|e| e.from == key("bob") && e.to == key("Person")).unwrap();
    assert!(to_person.is_inferred);
    let to_student = model.edges.iter().find(|e| e.from == key("bob") && e.to == key("Student")).unwrap();
    assert!(!to_student.is_inferred);
    let schema = model.edges.iter().find(|e| e.from == key("Student") && e.to == key("Person")).unwrap();
    assert_eq!(schema.label, "subClassOf");
    assert!(!schema.is_inferred);
}

#[test]
fn focus_graph_starts_from_the_expanded_nodes_too() {
    let m = chain();
    let flags = ViewFlags::default();
    let model = focus_graph(&m.memory, &flags, &None, &vec![key("d")]).unwrap();
    assert_eq!(sorted(model.visible), vec![key("c"), key("d")]);
    assert_eq!(model.edges.len(), 1);
}

#[test]
fn the_overview_draws_the_asserted_edges() {
    let m = chain();
    let mut flags = ViewFlags::default();
    flags.focus_mode = false;
    let model = darkstar::ui::view_graph(&m.memory, &flags, &None, &vec![]).unwrap();
    assert_eq!(sorted(model.visible.clone()), vec![key("a"), key("b"), key("c"), key("d")]);
    assert_eq!(model.edges.len(), 3);
    assert!(model.edges.iter().all(|e| !e.is_inferred && e.label == "knows"));
    assert_eq!(model.nodes.len(), 4);
}

#[test]
fn the_overview_adds_inferred_edges_when_asked() {
    let mut m = DarkstarManager::new();
    m.add_subclass(ex("Student"), ex("Person")).unwrap();
    m.add_assertion(ex("bob"), RDF_TYPE.to_string(), ex("Student")).unwrap();
    m.run_reasoning(&darkstar::settings::ReasonerRules::default()).unwrap();
    let mut flags = ViewFlags::default();
    flags.focus_mode = false;
    flags.show_system = true;
    let with = darkstar::ui::overview_graph(&m.memory, &flags).unwrap();
    assert!(with.edges.iter().any(|e| e.is_inferred && e.from == key("bob") && e.to == key("Person")));
    flags.show_inferred = false;
    let without = darkstar::ui::overview_graph(&m.memory, &flags).unwrap();
    assert!(without.edges.iter().all(|e| !e.is_inferred));
    assert_eq!(without.edges.len(), 2);
}

#[test]
fn the_overview_draws_at_most_five_hundred_edges() {
    let mut m = DarkstarManager::new();
    for n in 0..600 {
        m.add_assertion(ex(&format!("a{}", n)), ex("knows"), ex(&format!("b{}", n))).unwrap();
    }
    let mut flags = ViewFlags::default();
    flags.focus_mode = false;
    let model = darkstar::ui::overview_graph(&m.memory, &flags).unwrap();
    assert_eq!(model.edges.len(), 500);
    assert_eq!(model.visible.len(), 1200);
}

#[test]
fn a_deeper_focus_shows_more() {
    let m = chain();
    let roots = vec![key("a")];
    let mut previous: Vec<String> = Vec::new();
    for depth in 0..4 {
        let now = focus_nodes(&m.memory.asserted_graph, &m.memory.inferred_graph, &roots, depth);
        assert!(now.contains(&key("a")));
        assert!(previous.iter().all(|v| now.contains(v)));
        previous = now;
    }
    assert_eq!(previous.len(), 4);
}

#[test]
fn starts_ascii_checks_the_first_two_characters() {
    assert!(darkstar::ui::starts_ascii("i:http://x"));
    assert!(darkstar::ui::starts_ascii("a"));
    assert!(darkstar::ui::starts_ascii(""));
    assert!(!darkstar::ui::starts_ascii("é:x"));
    assert!(!darkstar::ui::starts_ascii("aé"));
}
