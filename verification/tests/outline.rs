use darkstar::manager::DarkstarManager;
use darkstar::outline::{
    class_roots, filter_matching, individuals_by_type, is_text_less, matches_query, property_hierarchy, property_tree,
    sorted_texts, subclasses, tree_children,
};
use darkstar::rules::{RDFS_SUBPROPERTY_OF, RDF_TYPE};
use darkstar::manager::{OWL_OBJECT_PROPERTY, OWL_DATATYPE_PROPERTY};

const EX: &str = "http://example.org/onto#";

fn ex(name: &str) -> String {
    format!("{}{}", EX, name)
}

fn key(name: &str) -> String {
    format!("i:{}{}", EX, name)
}

fn texts(v: &[&str]) -> Vec<String> {
    v.iter().map(|s| s.to_string()).collect()
}

#[test]
fn texts_are_ordered_by_code_point() {
    assert!(is_text_less("a", "b"));
    assert!(is_text_less("", "a"));
    assert!(is_text_less("ab", "abc"));
    assert!(!is_text_less("abc", "ab"));
    assert!(!is_text_less("same", "same"));
    assert!(is_text_less("Zebra", "apple"));
    assert!(is_text_less("z", "é"));
}

#[test]
fn sorting_orders_texts_and_drops_repeats() {
    let v = texts(&["pear", "apple", "pear", "Fig", "apple"]);
    assert_eq!(sorted_texts(&v), texts(&["Fig", "apple", "pear"]));
    assert_eq!(sorted_texts(&Vec::new()), Vec::<String>::new());
}

#[test]
fn the_roots_are_the_classes_without_a_superclass() {
    let mut m = DarkstarManager::new();
    m.add_subclass(ex("A"), ex("B")).unwrap();
    m.add_subclass(ex("B"), ex("C")).unwrap();
    m.add_class(ex("D")).unwrap();
    m.add_class(ex("A")).unwrap();
    let roots = class_roots(&m.memory.main_graph).unwrap();
    assert_eq!(roots, vec![key("C"), key("D")]);
}

#[test]
fn subclasses_are_listed_in_order() {
    let mut m = DarkstarManager::new();
    m.add_subclass(ex("Dog"), ex("Animal")).unwrap();
    m.add_subclass(ex("Cat"), ex("Animal")).unwrap();
    m.add_subclass(ex("Puppy"), ex("Dog")).unwrap();
    assert_eq!(subclasses(&m.memory.main_graph, &key("Animal")).unwrap(), vec![key("Cat"), key("Dog")]);
    assert_eq!(subclasses(&m.memory.main_graph, &key("Cat")).unwrap(), Vec::<String>::new());
}

#[test]
fn individuals_are_grouped_by_their_types() {
    let mut m = DarkstarManager::new();
    m.add_class(ex("Person")).unwrap();
    m.add_assertion(ex("bob"), RDF_TYPE.to_string(), ex("Person")).unwrap();
    m.add_assertion(ex("alice"), RDF_TYPE.to_string(), ex("Person")).unwrap();
    m.add_assertion(ex("rex"), RDF_TYPE.to_string(), ex("Dog")).unwrap();
    m.add_object_property(ex("knows")).unwrap();
    m.add_assertion(ex("knows"), RDF_TYPE.to_string(), ex("Relation")).unwrap();
    let groups = individuals_by_type(&m.memory.main_graph).unwrap();
    let types: Vec<String> = groups.iter().map(|g| g.type_uri.clone()).collect();
    assert_eq!(types, vec![key("Dog"), key("Person")]);
    assert_eq!(groups[1].members, vec![key("alice"), key("bob")]);
    assert_eq!(groups[0].members, vec![key("rex")]);
}

#[test]
fn queries_match_the_key_or_the_label_in_lower_case() {
    assert!(matches_query("i:http://example.org/onto#Person", "person"));
    assert!(matches_query("i:http://example.org/onto#Person", "example"));
    assert!(!matches_query("i:http://example.org/onto#Person", "dog"));
    assert!(!matches_query("i:http://example.org/onto#Person", "Person"));
}

#[test]
fn an_empty_query_keeps_everything() {
    let items = vec![key("Cat"), key("Dog")];
    assert_eq!(filter_matching(&items, ""), items);
    assert_eq!(filter_matching(&items, "dog"), vec![key("Dog")]);
    assert_eq!(filter_matching(&items, "horse"), Vec::<String>::new());
}

#[test]
fn property_trees_grow_from_the_declared_properties() {
    let typed = texts(&["p"]);
    let links = vec![
        ("r".to_string(), "q".to_string()),
        ("q".to_string(), "p".to_string()),
        ("s".to_string(), "q".to_string()),
        ("x".to_string(), "y".to_string()),
    ];
    let tree = property_tree(&typed, &links);
    assert_eq!(tree.roots, texts(&["p"]));
    assert_eq!(tree.links, vec![("q".to_string(), "p".to_string()), ("s".to_string(), "q".to_string())]);
    assert_eq!(tree_children(&tree, "q"), texts(&["s"]));
    assert_eq!(tree_children(&tree, "p"), texts(&["q"]));
}

#[test]
fn the_object_property_hierarchy_starts_at_the_declared_ones() {
    let mut m = DarkstarManager::new();
    m.add_object_property(ex("relatedTo")).unwrap();
    m.add_assertion(ex("friendOf"), RDFS_SUBPROPERTY_OF.to_string(), ex("relatedTo")).unwrap();
    m.add_data_property(ex("age")).unwrap();
    let tree = property_hierarchy(&m.memory.main_graph, true).unwrap();
    assert_eq!(tree.roots, vec![key("relatedTo")]);
    assert_eq!(tree_children(&tree, &key("relatedTo")), vec![key("friendOf")]);
    let data = property_hierarchy(&m.memory.main_graph, false).unwrap();
    assert_eq!(data.roots, vec![key("age")]);
    assert!(data.links.is_empty());
    let _ = (OWL_OBJECT_PROPERTY, OWL_DATATYPE_PROPERTY);
}

#[test]
fn the_subtree_search_looks_below_the_class() {
    let mut m = DarkstarManager::new();
    m.add_subclass(ex("Dog"), ex("Animal")).unwrap();
    m.add_subclass(ex("Puppy"), ex("Dog")).unwrap();
    m.add_subclass(ex("Cat"), ex("Animal")).unwrap();
    let g = &m.memory.main_graph;
    assert_eq!(darkstar::outline::subtree_matches(g, &key("Animal"), "puppy"), Some(true));
    assert_eq!(darkstar::outline::subtree_matches(g, &key("Cat"), "puppy"), Some(false));
    assert_eq!(darkstar::outline::subtree_matches(g, &key("Dog"), "dog"), Some(true));
}

#[test]
fn the_subtree_search_ends_on_cycles() {
    let mut m = DarkstarManager::new();
    m.add_subclass(ex("A"), ex("B")).unwrap();
    m.add_subclass(ex("B"), ex("A")).unwrap();
    assert_eq!(darkstar::outline::subtree_matches(&m.memory.main_graph, &key("A"), "zebra"), Some(false));
    assert_eq!(darkstar::outline::subtree_matches(&m.memory.main_graph, &key("A"), "onto#b"), Some(true));
}

#[test]
fn sorted_lists_hold_each_text_once() {
    let sorted = sorted_texts(&texts(&["b", "a", "b", "c", "a"]));
    for w in sorted.windows(2) {
        assert!(is_text_less(&w[0], &w[1]));
    }
    assert_eq!(sorted.len(), 3);
}
