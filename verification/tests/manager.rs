use darkstar::manager::{format_for_path, DarkstarManager, LoadError, OntologyFormat, OWL_CLASS, OWL_NAMED_INDIVIDUAL};
use darkstar::memory::StoreError;
use darkstar::rules::engine::InferenceEngine;
use darkstar::rules::{OWL_DISJOINT_WITH, RDFS_SUBCLASS_OF, RDF_TYPE};
use darkstar::settings::ReasonerRules;
use darkstar::graph::TripleGraph;

const EX: &str = "http://example.org/onto#";

fn ex(name: &str) -> String {
    format!("{}{}", EX, name)
}

fn holds(g: &TripleGraph, s: &str, p: &str, o: &str) -> bool {
    g.contains(&InferenceEngine::make_term(s), &InferenceEngine::make_term(p), &InferenceEngine::make_term(o))
}

#[test]
fn new_manager_is_empty_and_clean() {
    let m = DarkstarManager::new();
    assert!(m.history.is_undo_empty());
    assert!(m.memory.is_consistent);
    assert!(m.active_file_path.is_none());
    assert!(!holds(&m.memory.main_graph, &ex("a"), &ex("p"), &ex("b")));
}

#[test]
fn an_assertion_is_stored_and_recorded() {
    let mut m = DarkstarManager::new();
    assert_eq!(m.add_assertion(ex("a"), ex("p"), ex("b")), Ok(()));
    assert!(holds(&m.memory.asserted_graph, &ex("a"), &ex("p"), &ex("b")));
    assert!(holds(&m.memory.main_graph, &ex("a"), &ex("p"), &ex("b")));
    assert!(holds(&m.memory.delta_graph, &ex("a"), &ex("p"), &ex("b")));
    assert!(!m.history.is_undo_empty());
}

#[test]
fn undo_of_an_assertion_removes_it_and_redo_restores_it() {
    let mut m = DarkstarManager::new();
    m.add_assertion(ex("a"), ex("p"), ex("b")).unwrap();
    assert_eq!(m.undo(), Ok(()));
    assert!(!holds(&m.memory.asserted_graph, &ex("a"), &ex("p"), &ex("b")));
    assert!(!holds(&m.memory.main_graph, &ex("a"), &ex("p"), &ex("b")));
    assert!(m.history.is_undo_empty());
    assert_eq!(m.redo(), Ok(()));
    assert!(holds(&m.memory.asserted_graph, &ex("a"), &ex("p"), &ex("b")));
}

#[test]
fn undo_of_a_removal_puts_the_triple_back() {
    let mut m = DarkstarManager::new();
    m.add_assertion(ex("a"), ex("p"), ex("b")).unwrap();
    m.remove_assertion(ex("a"), ex("p"), ex("b")).unwrap();
    assert!(!holds(&m.memory.asserted_graph, &ex("a"), &ex("p"), &ex("b")));
    m.undo().unwrap();
    assert!(holds(&m.memory.asserted_graph, &ex("a"), &ex("p"), &ex("b")));
}

#[test]
fn an_invalid_iri_is_refused_and_nothing_changes() {
    let mut m = DarkstarManager::new();
    let r = m.add_assertion("http://example.org/a b".to_string(), ex("p"), ex("b"));
    assert_eq!(r, Err(StoreError::InvalidTerm));
    assert!(m.history.is_undo_empty());
    assert!(!m.is_dirty);
}

#[test]
fn undo_with_nothing_to_undo_changes_nothing() {
    let mut m = DarkstarManager::new();
    assert_eq!(m.undo(), Ok(()));
    assert_eq!(m.redo(), Ok(()));
    assert!(m.history.is_undo_empty() && m.history.is_redo_empty());
}

#[test]
fn typing_shortcuts_assert_the_expected_triples() {
    let mut m = DarkstarManager::new();
    m.add_class(ex("Person")).unwrap();
    m.add_individual(ex("alice")).unwrap();
    m.add_subclass(ex("Student"), ex("Person")).unwrap();
    assert!(holds(&m.memory.asserted_graph, &ex("Person"), RDF_TYPE, OWL_CLASS));
    assert!(holds(&m.memory.asserted_graph, &ex("alice"), RDF_TYPE, OWL_NAMED_INDIVIDUAL));
    assert!(holds(&m.memory.asserted_graph, &ex("Student"), RDFS_SUBCLASS_OF, &ex("Person")));
}

#[test]
fn reasoning_infers_membership_of_a_superclass() {
    let mut m = DarkstarManager::new();
    m.add_subclass(ex("Student"), ex("Person")).unwrap();
    m.add_assertion(ex("bob"), RDF_TYPE.to_string(), ex("Student")).unwrap();
    assert!(m.is_dirty);
    assert_eq!(m.run_reasoning(&ReasonerRules::default()), Ok(()));
    assert!(!m.is_dirty);
    assert!(holds(&m.memory.main_graph, &ex("bob"), RDF_TYPE, &ex("Person")));
    assert!(holds(&m.memory.inferred_graph, &ex("bob"), RDF_TYPE, &ex("Person")));
    assert!(!holds(&m.memory.asserted_graph, &ex("bob"), RDF_TYPE, &ex("Person")));
    assert!(m.memory.is_consistent);
}

#[test]
fn reasoning_follows_chains_of_subclasses() {
    let mut m = DarkstarManager::new();
    m.add_subclass(ex("A"), ex("B")).unwrap();
    m.add_subclass(ex("B"), ex("C")).unwrap();
    m.add_assertion(ex("x"), RDF_TYPE.to_string(), ex("A")).unwrap();
    m.run_reasoning(&ReasonerRules::default()).unwrap();
    assert!(holds(&m.memory.main_graph, &ex("x"), RDF_TYPE, &ex("C")));
    assert!(holds(&m.memory.main_graph, &ex("A"), RDFS_SUBCLASS_OF, &ex("C")));
}

#[test]
fn members_of_disjoint_classes_make_the_ontology_inconsistent() {
    let mut m = DarkstarManager::new();
    m.add_assertion(ex("Cat"), OWL_DISJOINT_WITH.to_string(), ex("Dog")).unwrap();
    m.add_assertion(ex("rex"), RDF_TYPE.to_string(), ex("Cat")).unwrap();
    m.add_assertion(ex("rex"), RDF_TYPE.to_string(), ex("Dog")).unwrap();
    m.run_reasoning(&ReasonerRules::default()).unwrap();
    assert!(!m.memory.is_consistent);
    assert_eq!(m.memory.inconsistencies.len(), 1);
    assert_eq!(m.memory.inconsistencies[0].rule_name, "cls-dj");
}

#[test]
fn reasoning_without_changes_does_nothing() {
    let mut m = DarkstarManager::new();
    assert!(!m.is_dirty);
    assert_eq!(m.run_reasoning(&ReasonerRules::default()), Ok(()));
    assert!(!holds(&m.memory.main_graph, &ex("x"), RDF_TYPE, &ex("C")));
}

#[test]
fn loading_turtle_asserts_its_triples() {
    let mut m = DarkstarManager::new();
    let doc = "@prefix ex: <http://example.org/onto#> .\nex:a ex:knows ex:b .\nex:a ex:name \"Alice\" .\n";
    assert_eq!(m.load_from_string(doc, OntologyFormat::Turtle), Ok(()));
    assert!(holds(&m.memory.asserted_graph, &ex("a"), &ex("knows"), &ex("b")));
    assert!(holds(&m.memory.asserted_graph, &ex("a"), &ex("name"), "l:Alice"));
    assert!(!m.history.is_undo_empty());
    m.undo().unwrap();
    assert!(!holds(&m.memory.asserted_graph, &ex("a"), &ex("knows"), &ex("b")));
}

#[test]
fn loading_ntriples_asserts_its_triples() {
    let mut m = DarkstarManager::new();
    let doc = "<http://example.org/onto#a> <http://example.org/onto#p> <http://example.org/onto#b> .\n";
    assert_eq!(m.load_from_string(doc, OntologyFormat::NTriples), Ok(()));
    assert!(holds(&m.memory.asserted_graph, &ex("a"), &ex("p"), &ex("b")));
}

#[test]
fn loading_runs_the_reasoner() {
    let mut m = DarkstarManager::new();
    let doc = "@prefix ex: <http://example.org/onto#> .\n@prefix rdfs: <http://www.w3.org/2000/01/rdf-schema#> .\nex:Student rdfs:subClassOf ex:Person .\nex:bob a ex:Student .\n";
    m.load_from_string(doc, OntologyFormat::Turtle).unwrap();
    assert!(holds(&m.memory.main_graph, &ex("bob"), RDF_TYPE, &ex("Person")));
    assert!(!m.is_dirty);
}

#[test]
fn a_malformed_document_is_refused_and_nothing_changes() {
    let mut m = DarkstarManager::new();
    let r = m.load_from_string("this is not turtle", OntologyFormat::Turtle);
    assert!(matches!(r, Err(LoadError::Parse(_))));
    assert!(m.history.is_undo_empty());
}

#[test]
fn loading_a_document_already_asserted_records_no_change() {
    let mut m = DarkstarManager::new();
    let doc = "<http://example.org/onto#a> <http://example.org/onto#p> <http://example.org/onto#b> .\n";
    m.load_from_string(doc, OntologyFormat::NTriples).unwrap();
    m.history.clear();
    m.load_from_string(doc, OntologyFormat::NTriples).unwrap();
    assert!(m.history.is_undo_empty());
}

#[test]
fn the_format_follows_the_extension() {
    assert_eq!(format_for_path("/tmp/onto.nt"), OntologyFormat::NTriples);
    assert_eq!(format_for_path("/tmp/onto.ttl"), OntologyFormat::Turtle);
    assert_eq!(format_for_path("onto"), OntologyFormat::Turtle);
}

#[test]
fn loading_a_file_sets_the_active_path() {
    let mut m = DarkstarManager::new();
    m.add_assertion(ex("old"), ex("p"), ex("b")).unwrap();
    let doc = "<http://example.org/onto#a> <http://example.org/onto#p> <http://example.org/onto#b> .\n";
    assert_eq!(m.load_from_file("/tmp/onto.nt".to_string(), doc), Ok(()));
    assert_eq!(m.active_file_path, Some("/tmp/onto.nt".to_string()));
    assert!(holds(&m.memory.asserted_graph, &ex("a"), &ex("p"), &ex("b")));
    assert!(!holds(&m.memory.asserted_graph, &ex("old"), &ex("p"), &ex("b")));
}

#[test]
fn a_failed_file_load_keeps_the_active_path() {
    let mut m = DarkstarManager::new();
    assert!(m.load_from_file("/tmp/onto.ttl".to_string(), "@prefix broken").is_err());
    assert!(m.active_file_path.is_none());
}

#[test]
fn new_ontology_forgets_everything() {
    let mut m = DarkstarManager::new();
    m.add_assertion(ex("a"), ex("p"), ex("b")).unwrap();
    m.new_ontology();
    assert!(!holds(&m.memory.asserted_graph, &ex("a"), &ex("p"), &ex("b")));
    assert!(m.history.is_undo_empty());
    assert!(m.active_file_path.is_none());
}

#[test]
fn serialising_writes_the_asserted_triples() {
    let mut m = DarkstarManager::new();
    m.add_assertion(ex("a"), ex("p"), ex("b")).unwrap();
    let text = m.serialize_to_string(OntologyFormat::NTriples, false).unwrap();
    assert!(text.contains("<http://example.org/onto#a>\t<http://example.org/onto#p>\t<http://example.org/onto#b>"));
}

#[test]
fn serialising_with_inferences_includes_them() {
    let mut m = DarkstarManager::new();
    m.add_subclass(ex("Student"), ex("Person")).unwrap();
    m.add_assertion(ex("bob"), RDF_TYPE.to_string(), ex("Student")).unwrap();
    m.run_reasoning(&ReasonerRules::default()).unwrap();
    let without = m.serialize_to_string(OntologyFormat::NTriples, false).unwrap();
    let with = m.serialize_to_string(OntologyFormat::NTriples, true).unwrap();
    let inferred = "<http://example.org/onto#bob>\t<http://www.w3.org/1999/02/22-rdf-syntax-ns#type>\t<http://example.org/onto#Person>";
    assert!(!without.contains(inferred));
    assert!(with.contains(inferred));
}

#[test]
fn deleting_an_entity_retracts_every_triple_that_mentions_it() {
    let mut m = DarkstarManager::new();
    m.add_assertion(ex("a"), ex("p"), ex("b")).unwrap();
    m.add_assertion(ex("c"), ex("p"), ex("a")).unwrap();
    m.add_assertion(ex("c"), ex("p"), ex("d")).unwrap();
    m.delete_entity(&format!("i:{}", ex("a")));
    assert!(!holds(&m.memory.asserted_graph, &ex("a"), &ex("p"), &ex("b")));
    assert!(!holds(&m.memory.asserted_graph, &ex("c"), &ex("p"), &ex("a")));
    assert!(holds(&m.memory.asserted_graph, &ex("c"), &ex("p"), &ex("d")));
    m.undo().unwrap();
    m.undo().unwrap();
    assert!(holds(&m.memory.asserted_graph, &ex("a"), &ex("p"), &ex("b")));
    assert!(holds(&m.memory.asserted_graph, &ex("c"), &ex("p"), &ex("a")));
}

#[test]
fn setting_a_label_replaces_the_old_ones() {
    let label = "http://www.w3.org/2000/01/rdf-schema#label";
    let mut m = DarkstarManager::new();
    m.add_assertion(ex("a"), label.to_string(), "l:Old".to_string()).unwrap();
    m.add_assertion(ex("a"), label.to_string(), "l:Older".to_string()).unwrap();
    assert_eq!(m.set_label(&ex("a"), "New"), Ok(()));
    assert!(holds(&m.memory.asserted_graph, &ex("a"), label, "l:New"));
    assert!(!holds(&m.memory.asserted_graph, &ex("a"), label, "l:Old"));
    assert!(!holds(&m.memory.asserted_graph, &ex("a"), label, "l:Older"));
}

#[test]
fn a_label_for_an_invalid_iri_is_refused() {
    let mut m = DarkstarManager::new();
    assert_eq!(m.set_label("http://example.org/a b", "New"), Err(StoreError::InvalidTerm));
    assert!(m.history.is_undo_empty());
}

#[test]
fn modifying_an_assertion_replaces_its_object() {
    let mut m = DarkstarManager::new();
    m.add_assertion(ex("a"), ex("age"), "l:41".to_string()).unwrap();
    assert_eq!(m.modify_assertion(ex("a"), ex("age"), "l:41".to_string(), "l:42".to_string()), Ok(()));
    assert!(holds(&m.memory.asserted_graph, &ex("a"), &ex("age"), "l:42"));
    assert!(!holds(&m.memory.asserted_graph, &ex("a"), &ex("age"), "l:41"));
    m.undo().unwrap();
    m.undo().unwrap();
    assert!(holds(&m.memory.asserted_graph, &ex("a"), &ex("age"), "l:41"));
}

#[test]
fn after_a_deletion_nothing_mentions_the_entity() {
    let mut m = DarkstarManager::new();
    m.add_assertion(ex("x"), ex("p"), ex("y")).unwrap();
    m.add_assertion(ex("y"), ex("p"), ex("x")).unwrap();
    m.add_assertion(ex("x"), RDF_TYPE.to_string(), ex("C")).unwrap();
    m.delete_entity(&ex("x"));
    let subject = InferenceEngine::make_term(&ex("x"));
    assert!(m.memory.asserted_graph.triples_matching(Some(&subject), None, None).is_empty());
    assert!(m.memory.asserted_graph.triples_matching(None, None, Some(&subject)).is_empty());
    assert!(m.memory.asserted_graph.triples_matching(None, None, None).is_empty());
}

#[test]
fn serialising_an_empty_ontology() {
    let m = DarkstarManager::new();
    assert_eq!(m.serialize_to_string(OntologyFormat::NTriples, false).unwrap(), "");
    assert_eq!(m.serialize_to_string(OntologyFormat::NTriples, true).unwrap(), "");
    let turtle = m.serialize_to_string(OntologyFormat::Turtle, false).unwrap();
    assert!(turtle.starts_with("PREFIX"));
}

#[test]
fn a_new_manager_holds_every_rule() {
    let m = DarkstarManager::new();
    assert_eq!(m.engine.rules_core.len(), 7);
    assert_eq!(m.engine.rules_equality.len(), 7);
    assert_eq!(m.engine.rules_chains.len(), 1);
    assert_eq!(m.engine.rules_expressions.len(), 3);
    assert_eq!(m.engine.rules_restrictions.len(), 5);
    assert_eq!(m.engine.rules_datatypes.len(), 1);
    assert_eq!(m.engine.rules_schema.len(), 5);
}

#[test]
fn deleting_records_one_removal_per_triple() {
    let mut m = DarkstarManager::new();
    m.add_assertion(ex("a"), ex("p"), ex("b")).unwrap();
    m.add_assertion(ex("c"), ex("p"), ex("a")).unwrap();
    m.add_assertion(ex("a"), ex("q"), ex("a")).unwrap();
    m.add_assertion(ex("c"), ex("p"), ex("d")).unwrap();
    let before = m.history.get_undo_stack().len();
    m.delete_entity(&format!("i:{}", ex("a")));
    assert_eq!(m.history.get_undo_stack().len(), before + 3);
}

#[test]
fn a_written_document_reads_back_as_the_same_triples() {
    let mut m = DarkstarManager::new();
    m.add_assertion(ex("a"), ex("p"), ex("b")).unwrap();
    m.add_assertion(ex("a"), ex("name"), "l:Ann \"the\" first\nline".to_string()).unwrap();
    m.add_assertion("b:n1".to_string(), ex("p"), ex("c")).unwrap();
    for format in [OntologyFormat::NTriples, OntologyFormat::Turtle] {
        let text = m.serialize_to_string(format, false).unwrap();
        let mut back = DarkstarManager::new();
        assert_eq!(back.load_from_string(&text, format), Ok(()));
        assert!(holds(&back.memory.asserted_graph, &ex("a"), &ex("p"), &ex("b")));
        assert!(holds(&back.memory.asserted_graph, &ex("a"), &ex("name"), "l:Ann \"the\" first\nline"));
        assert!(holds(&back.memory.asserted_graph, "b:n1", &ex("p"), &ex("c")));
        assert_eq!(back.history.get_undo_stack().len(), 1);
    }
}

#[test]
fn one_undo_reverts_a_whole_load() {
    let mut m = DarkstarManager::new();
    m.add_assertion(ex("x"), ex("p"), ex("y")).unwrap();
    let doc = "<http://example.org/onto#a> <http://example.org/onto#p> <http://example.org/onto#b> .\n<http://example.org/onto#x> <http://example.org/onto#p> <http://example.org/onto#y> .\n";
    m.load_from_string(doc, OntologyFormat::NTriples).unwrap();
    assert!(holds(&m.memory.asserted_graph, &ex("a"), &ex("p"), &ex("b")));
    m.undo().unwrap();
    assert!(!holds(&m.memory.asserted_graph, &ex("a"), &ex("p"), &ex("b")));
    assert!(!holds(&m.memory.main_graph, &ex("a"), &ex("p"), &ex("b")));
    assert!(holds(&m.memory.asserted_graph, &ex("x"), &ex("p"), &ex("y")));
    assert_eq!(m.history.get_redo_stack().len(), 1);
}
