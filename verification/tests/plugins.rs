use darkstar::manager::DarkstarManager;
use darkstar::plugins::{entity_stats, health_check, RDFS_LABEL};
use darkstar::rules::RDF_TYPE;

const EX: &str = "http://example.org/onto#";

fn ex(name: &str) -> String {
    format!("{}{}", EX, name)
}

fn key(name: &str) -> String {
    format!("i:{}{}", EX, name)
}

#[test]
fn stats_of_an_empty_ontology_are_zero() {
    let m = DarkstarManager::new();
    let s = entity_stats(&m.memory).unwrap();
    assert_eq!((s.classes, s.object_properties, s.data_properties, s.individuals, s.total_triples), (0, 0, 0, 0, 0));
}

#[test]
fn stats_count_each_kind_of_entity() {
    let mut m = DarkstarManager::new();
    m.add_class(ex("Person")).unwrap();
    m.add_class(ex("Pet")).unwrap();
    m.add_object_property(ex("owns")).unwrap();
    m.add_data_property(ex("age")).unwrap();
    m.add_individual(ex("alice")).unwrap();
    m.add_assertion(ex("alice"), ex("owns"), ex("rex")).unwrap();
    let s = entity_stats(&m.memory).unwrap();
    assert_eq!(s.classes, 2);
    assert_eq!(s.object_properties, 1);
    assert_eq!(s.data_properties, 1);
    assert_eq!(s.individuals, 1);
    assert_eq!(s.total_triples, 6);
}

#[test]
fn health_finds_isolated_entities() {
    let mut m = DarkstarManager::new();
    m.add_individual(ex("loner")).unwrap();
    m.add_assertion(ex("a"), ex("knows"), ex("b")).unwrap();
    let h = health_check(&m.memory).unwrap();
    assert!(h.isolated_nodes.contains(&key("loner")));
    assert!(!h.isolated_nodes.contains(&key("a")));
    assert!(!h.isolated_nodes.contains(&key("b")));
}

#[test]
fn health_finds_entities_without_labels() {
    let mut m = DarkstarManager::new();
    m.add_assertion(ex("a"), ex("knows"), ex("b")).unwrap();
    m.add_assertion(ex("a"), RDFS_LABEL.to_string(), "l:Anne".to_string()).unwrap();
    let h = health_check(&m.memory).unwrap();
    assert!(!h.missing_labels.contains(&key("a")));
    assert!(h.missing_labels.contains(&key("b")));
    assert!(!h.missing_labels.contains(&"l:Anne".to_string()));
}

#[test]
fn health_finds_classes_without_members() {
    let mut m = DarkstarManager::new();
    m.add_class(ex("Empty")).unwrap();
    m.add_class(ex("Full")).unwrap();
    m.add_assertion(ex("x"), RDF_TYPE.to_string(), ex("Full")).unwrap();
    let h = health_check(&m.memory).unwrap();
    assert_eq!(h.empty_classes, vec![key("Empty")]);
}
