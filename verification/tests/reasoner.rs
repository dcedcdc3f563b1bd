use darkstar::graph::TripleGraph;
use darkstar::manager::{DarkstarManager, OntologyFormat};
use darkstar::memory::EngineMemory;
use darkstar::rules::engine::InferenceEngine;
use darkstar::rules::{OWL_SAME_AS, RDF_TYPE};
use darkstar::settings::ReasonerRules;

const PREFIXES: &str = "@prefix ex: <http://example.org/onto#> .\n\
@prefix rdf: <http://www.w3.org/1999/02/22-rdf-syntax-ns#> .\n\
@prefix rdfs: <http://www.w3.org/2000/01/rdf-schema#> .\n\
@prefix owl: <http://www.w3.org/2002/07/owl#> .\n";

fn ex(name: &str) -> String {
    format!("http://example.org/onto#{}", name)
}

fn holds(g: &TripleGraph, s: &str, p: &str, o: &str) -> bool {
    g.contains(&InferenceEngine::make_term(s), &InferenceEngine::make_term(p), &InferenceEngine::make_term(o))
}

fn load(body: &str) -> DarkstarManager {
    let mut m = DarkstarManager::new();
    let doc = format!("{}{}", PREFIXES, body);
    m.load_from_string(&doc, OntologyFormat::Turtle).unwrap();
    m
}

fn inferred(m: &DarkstarManager, s: &str, p: &str, o: &str) -> bool {
    holds(&m.memory.main_graph, s, p, o) && holds(&m.memory.inferred_graph, s, p, o)
}

#[test]
fn domain_types_the_subject() {
    let m = load("ex:owns rdfs:domain ex:Owner .\nex:alice ex:owns ex:car .\n");
    assert!(inferred(&m, &ex("alice"), RDF_TYPE, &ex("Owner")));
}

#[test]
fn range_types_the_object() {
    let m = load("ex:owns rdfs:range ex:Thing .\nex:alice ex:owns ex:car .\n");
    assert!(inferred(&m, &ex("car"), RDF_TYPE, &ex("Thing")));
}

#[test]
fn inverse_properties_swap_the_ends() {
    let m = load("ex:parentOf owl:inverseOf ex:childOf .\nex:ann ex:parentOf ex:bob .\n");
    assert!(inferred(&m, &ex("bob"), &ex("childOf"), &ex("ann")));
}

#[test]
fn transitive_properties_chain() {
    let m = load("ex:ancestorOf a owl:TransitiveProperty .\nex:a ex:ancestorOf ex:b .\nex:b ex:ancestorOf ex:c .\nex:c ex:ancestorOf ex:d .\n");
    assert!(inferred(&m, &ex("a"), &ex("ancestorOf"), &ex("c")));
    assert!(inferred(&m, &ex("a"), &ex("ancestorOf"), &ex("d")));
}

#[test]
fn subproperties_imply_their_superproperty() {
    let m = load("ex:hasMother rdfs:subPropertyOf ex:hasParent .\nex:bob ex:hasMother ex:ann .\n");
    assert!(inferred(&m, &ex("bob"), &ex("hasParent"), &ex("ann")));
}

#[test]
fn equivalent_classes_share_members() {
    let m = load("ex:Human owl:equivalentClass ex:Person .\nex:bob a ex:Human .\nex:ann a ex:Person .\n");
    assert!(inferred(&m, &ex("bob"), RDF_TYPE, &ex("Person")));
    assert!(inferred(&m, &ex("ann"), RDF_TYPE, &ex("Human")));
}

#[test]
fn same_as_is_symmetric_and_carries_statements() {
    let m = load("ex:bob owl:sameAs ex:robert .\nex:bob ex:likes ex:tea .\nex:sue ex:knows ex:bob .\n");
    assert!(inferred(&m, &ex("robert"), OWL_SAME_AS, &ex("bob")));
    assert!(inferred(&m, &ex("robert"), &ex("likes"), &ex("tea")));
    assert!(inferred(&m, &ex("sue"), &ex("knows"), &ex("robert")));
    assert!(inferred(&m, &ex("bob"), OWL_SAME_AS, &ex("bob")));
}

#[test]
fn property_chains_compose() {
    let m = load("ex:hasUncle owl:propertyChainAxiom ( ex:hasParent ex:hasBrother ) .\nex:tom ex:hasParent ex:ann .\nex:ann ex:hasBrother ex:joe .\n");
    assert!(inferred(&m, &ex("tom"), &ex("hasUncle"), &ex("joe")));
}

#[test]
fn members_of_every_part_belong_to_the_intersection() {
    let m = load("ex:Mother owl:intersectionOf ( ex:Woman ex:Parent ) .\nex:ann a ex:Woman , ex:Parent .\nex:sue a ex:Woman .\n");
    assert!(inferred(&m, &ex("ann"), RDF_TYPE, &ex("Mother")));
    assert!(!holds(&m.memory.main_graph, &ex("sue"), RDF_TYPE, &ex("Mother")));
}

#[test]
fn members_of_an_intersection_belong_to_every_part() {
    let m = load("ex:Mother owl:intersectionOf ( ex:Woman ex:Parent ) .\nex:ann a ex:Mother .\n");
    assert!(inferred(&m, &ex("ann"), RDF_TYPE, &ex("Woman")));
    assert!(inferred(&m, &ex("ann"), RDF_TYPE, &ex("Parent")));
}

#[test]
fn members_of_a_part_belong_to_the_union() {
    let m = load("ex:Pet owl:unionOf ( ex:Cat ex:Dog ) .\nex:rex a ex:Dog .\n");
    assert!(inferred(&m, &ex("rex"), RDF_TYPE, &ex("Pet")));
}

#[test]
fn some_values_from_classifies_the_subject() {
    let m = load("ex:R owl:onProperty ex:hasChild ; owl:someValuesFrom ex:Doctor .\nex:amy a ex:Doctor .\nex:sam ex:hasChild ex:amy .\n");
    assert!(inferred(&m, &ex("sam"), RDF_TYPE, &ex("R")));
}

#[test]
fn all_values_from_classifies_the_objects() {
    let m = load("ex:R owl:onProperty ex:hasPet ; owl:allValuesFrom ex:Cat .\nex:sam a ex:R .\nex:sam ex:hasPet ex:tom .\n");
    assert!(inferred(&m, &ex("tom"), RDF_TYPE, &ex("Cat")));
}

#[test]
fn equal_keys_make_individuals_the_same() {
    let m = load("ex:Person owl:hasKey ( ex:ssn ) .\nex:a a ex:Person ; ex:ssn \"123\" .\nex:b a ex:Person ; ex:ssn \"123\" .\nex:c a ex:Person ; ex:ssn \"456\" .\n");
    assert!(holds(&m.memory.main_graph, &ex("a"), OWL_SAME_AS, &ex("b")));
    assert!(holds(&m.memory.main_graph, &ex("b"), OWL_SAME_AS, &ex("a")));
    assert!(!holds(&m.memory.main_graph, &ex("a"), OWL_SAME_AS, &ex("c")));
}

#[test]
fn subclass_axioms_are_transitive() {
    let m = load("ex:A rdfs:subClassOf ex:B .\nex:B rdfs:subClassOf ex:C .\n");
    assert!(inferred(&m, &ex("A"), "http://www.w3.org/2000/01/rdf-schema#subClassOf", &ex("C")));
}

#[test]
fn subproperty_axioms_are_transitive() {
    let m = load("ex:p rdfs:subPropertyOf ex:q .\nex:q rdfs:subPropertyOf ex:r .\n");
    assert!(inferred(&m, &ex("p"), "http://www.w3.org/2000/01/rdf-schema#subPropertyOf", &ex("r")));
}

fn first_inconsistency(body: &str) -> String {
    let m = load(body);
    assert!(!m.memory.is_consistent);
    m.memory.inconsistencies[0].rule_name.clone()
}

#[test]
fn an_irreflexive_property_on_itself_is_inconsistent() {
    assert_eq!(first_inconsistency("ex:p a owl:IrreflexiveProperty .\nex:a ex:p ex:a .\n"), "prp-irp");
}

#[test]
fn an_asymmetric_property_both_ways_is_inconsistent() {
    assert_eq!(first_inconsistency("ex:p a owl:AsymmetricProperty .\nex:a ex:p ex:b .\nex:b ex:p ex:a .\n"), "prp-asyp");
}

#[test]
fn same_and_different_individuals_are_inconsistent() {
    assert_eq!(first_inconsistency("ex:a owl:differentFrom ex:b .\nex:a owl:sameAs ex:b .\n"), "eq-diff1");
}

#[test]
fn a_member_of_nothing_is_inconsistent() {
    assert_eq!(first_inconsistency("ex:a a owl:Nothing .\n"), "cls-nothing");
}

#[test]
fn an_inconsistency_names_the_triple_found() {
    let m = load("ex:p a owl:IrreflexiveProperty .\nex:a ex:p ex:a .\n");
    let inc = &m.memory.inconsistencies[0];
    assert_eq!(inc.conflicting_triples.len(), 1);
    let f = &inc.conflicting_triples[0];
    assert_eq!((f.s.as_str(), f.p.as_str(), f.o.as_str()), ("i:http://example.org/onto#a", "i:http://example.org/onto#p", "i:http://example.org/onto#a"));
}

#[test]
fn disabled_families_derive_nothing() {
    let mut m = DarkstarManager::new();
    m.add_assertion(ex("bob"), OWL_SAME_AS.to_string(), ex("robert")).unwrap();
    let rules = ReasonerRules { equality: false, property_chains: true, class_expressions: true, restrictions: true, datatypes: true, schema: true };
    m.run_reasoning(&rules).unwrap();
    assert!(!holds(&m.memory.main_graph, &ex("robert"), OWL_SAME_AS, &ex("bob")));
}

#[test]
fn disabled_schema_rules_report_no_inconsistency() {
    let mut m = DarkstarManager::new();
    m.add_assertion(ex("a"), RDF_TYPE.to_string(), "http://www.w3.org/2002/07/owl#Nothing".to_string()).unwrap();
    let rules = ReasonerRules { equality: true, property_chains: true, class_expressions: true, restrictions: true, datatypes: true, schema: false };
    m.run_reasoning(&rules).unwrap();
    assert!(m.memory.is_consistent);
}

#[test]
fn the_engine_runs_on_a_bare_memory() {
    let engine = InferenceEngine::new();
    let mut memory = EngineMemory::new();
    assert_eq!(engine.run_inference(&mut memory, &ReasonerRules::default()), Ok(()));
    assert!(memory.is_consistent);
    assert!(!holds(&memory.main_graph, &ex("a"), OWL_SAME_AS, &ex("a")));
}

#[test]
fn make_term_reads_the_tags() {
    assert_eq!(InferenceEngine::make_term("i:http://x.org/a").key(), "i:http://x.org/a");
    assert_eq!(InferenceEngine::make_term("http://x.org/a").key(), "i:http://x.org/a");
    assert_eq!(InferenceEngine::make_term("l:hello").key(), "l:hello");
    assert_eq!(InferenceEngine::make_term("b:n1").key(), "b:n1");
    assert!(InferenceEngine::make_term("l:hello").is_literal());
}

#[test]
fn a_negative_property_assertion_that_holds_is_inconsistent() {
    assert_eq!(
        first_inconsistency("_:n owl:sourceIndividual ex:a ; owl:assertionProperty ex:p ; owl:targetIndividual ex:b .\nex:a ex:p ex:b .\n"),
        "prp-npa"
    );
    assert_eq!(
        first_inconsistency("_:n owl:sourceIndividual ex:a ; owl:assertionProperty ex:name ; owl:targetValue \"Ann\" .\nex:a ex:name \"Ann\" .\n"),
        "prp-npa"
    );
}

#[test]
fn a_negative_property_assertion_that_does_not_hold_is_consistent() {
    let m = load("_:n owl:sourceIndividual ex:a ; owl:assertionProperty ex:p ; owl:targetIndividual ex:b .\nex:a ex:p ex:c .\n");
    assert!(m.memory.is_consistent);
}

#[test]
fn an_intersection_typed_before_its_definition_is_still_inferred() {
    let mut m = DarkstarManager::new();
    let x = format!("i:{}", ex("x"));
    m.add_assertion(x.clone(), RDF_TYPE.to_string(), ex("A")).unwrap();
    m.add_assertion(x.clone(), RDF_TYPE.to_string(), ex("B")).unwrap();
    m.run_reasoning(&ReasonerRules::default()).unwrap();
    let doc = format!(
        "{}ex:C owl:intersectionOf ( ex:A ex:B ) .\n",
        PREFIXES
    );
    m.load_from_string(&doc, OntologyFormat::Turtle).unwrap();
    assert!(inferred(&m, &x, RDF_TYPE, &ex("C")));
}
