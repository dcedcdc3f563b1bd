use vstd::prelude::*;
use crate::graph::{fact_matches, graph_facts, graph_match, term_valid, triple_key, triple_valid, Key3, TermTriple, TripleGraph};
use crate::manager::{OWL_CLASS, OWL_DATATYPE_PROPERTY, OWL_NAMED_INDIVIDUAL, OWL_OBJECT_PROPERTY};
use crate::memory::EngineMemory;
use crate::rules::lists::{lemma_strings_view_push, string_in, strings_view};
use crate::rules::{iri, iri_key, vocab_valid, RDF_TYPE};
use crate::term::{term_key, RdfTerm};

verus! {

/// The IRI of the label property.
pub const RDFS_LABEL: &'static str = "http://www.w3.org/2000/01/rdf-schema#label";

/// The triples of `main` that give something the type `class`.
pub open spec fn typed_with(main: Set<Key3>, class: Seq<char>) -> Set<Key3> {
    main.filter(|t: Key3| t.1 == iri_key(RDF_TYPE) && t.2 == class)
}

/// Counts of the kinds of entities of an ontology.
pub struct EntityStats {
    pub classes: usize,
    pub object_properties: usize,
    pub data_properties: usize,
    pub individuals: usize,
    pub total_triples: usize,
}

/// The number of triples of a graph that agree with a pattern, which is
/// the size of that set of triples.
fn count_matching(g: &TripleGraph, s: Option<&RdfTerm>, p: Option<&RdfTerm>, o: Option<&RdfTerm>) -> (n: usize)
    requires
        crate::graph::query_valid(s),
        crate::graph::query_valid(p),
        crate::graph::query_valid(o),
    ensures
        graph_facts(*g).filter(|f: Key3| fact_matches(f, s, p, o)).finite(),
        n == graph_facts(*g).filter(|f: Key3| fact_matches(f, s, p, o)).len(),
{
    let r = graph_match(g, s, p, o);
    proof {
        let ks = r@.map_values(|t: TermTriple| triple_key(t));
        let set = graph_facts(*g).filter(|f: Key3| fact_matches(f, s, p, o));
        assert forall|f: Key3| ks.to_set().contains(f) <==> set.contains(f) by {
            if ks.to_set().contains(f) {
                let i = choose|i: int| 0 <= i < ks.len() && ks[i] == f;
                assert(graph_facts(*g).contains(triple_key(r@[i])));
            }
            if set.contains(f) {
                let i = choose|i: int| 0 <= i < r@.len() && triple_key(r@[i]) == f;
                assert(ks[i] == f);
            }
        }
        assert(ks.to_set() =~= set);
        ks.unique_seq_to_set();
    }
    r.len()
}

/// Whether the IRIs of the kinds of entities are accepted as IRIs.
pub open spec fn kinds_valid() -> bool {
    &&& crate::graph::iri_valid(RDF_TYPE@)
    &&& crate::graph::iri_valid(OWL_CLASS@)
    &&& crate::graph::iri_valid(OWL_OBJECT_PROPERTY@)
    &&& crate::graph::iri_valid(OWL_DATATYPE_PROPERTY@)
    &&& crate::graph::iri_valid(OWL_NAMED_INDIVIDUAL@)
}

/// Checks that the IRIs of the kinds of entities are accepted as IRIs.
pub(crate) fn check_kinds() -> (r: bool)
    ensures
        r == kinds_valid(),
{
    crate::graph::check_iri(RDF_TYPE) && crate::graph::check_iri(OWL_CLASS) && crate::graph::check_iri(OWL_OBJECT_PROPERTY)
        && crate::graph::check_iri(OWL_DATATYPE_PROPERTY) && crate::graph::check_iri(OWL_NAMED_INDIVIDUAL)
}

/// The counts of classes, object properties, data properties and named
/// individuals (by their `rdf:type` triples) and of all triples of the
/// main graph; nothing where the IRIs of those kinds are refused.
pub fn entity_stats(memory: &EngineMemory) -> (r: Option<EntityStats>)
    ensures
        r is None <==> !kinds_valid(),
        r matches Some(r) ==> r.classes == typed_with(graph_facts(memory.main_graph), iri_key(OWL_CLASS)).len(),
        r matches Some(r) ==> r.object_properties == typed_with(graph_facts(memory.main_graph), iri_key(OWL_OBJECT_PROPERTY)).len(),
        r matches Some(r) ==> r.data_properties == typed_with(graph_facts(memory.main_graph), iri_key(OWL_DATATYPE_PROPERTY)).len(),
        r matches Some(r) ==> r.individuals == typed_with(graph_facts(memory.main_graph), iri_key(OWL_NAMED_INDIVIDUAL)).len(),
        r is Some ==> graph_facts(memory.main_graph).finite(),
        r matches Some(r) ==> r.total_triples == graph_facts(memory.main_graph).len(),
{
    if !check_kinds() {
        return None;
    }
    let ghost mf = graph_facts(memory.main_graph);
    let ty = iri(RDF_TYPE);
    let class = iri(OWL_CLASS);
    let obj = iri(OWL_OBJECT_PROPERTY);
    let data = iri(OWL_DATATYPE_PROPERTY);
    let ind = iri(OWL_NAMED_INDIVIDUAL);
    let classes = count_matching(&memory.main_graph, None, Some(&ty), Some(&class));
    let object_properties = count_matching(&memory.main_graph, None, Some(&ty), Some(&obj));
    let data_properties = count_matching(&memory.main_graph, None, Some(&ty), Some(&data));
    let individuals = count_matching(&memory.main_graph, None, Some(&ty), Some(&ind));
    let total_triples = count_matching(&memory.main_graph, None, None, None);
    proof {
        assert(mf.filter(|f: Key3| fact_matches(f, None, Some(&ty), Some(&class))) =~= typed_with(mf, iri_key(OWL_CLASS)));
        assert(mf.filter(|f: Key3| fact_matches(f, None, Some(&ty), Some(&obj))) =~= typed_with(mf, iri_key(OWL_OBJECT_PROPERTY)));
        assert(mf.filter(|f: Key3| fact_matches(f, None, Some(&ty), Some(&data))) =~= typed_with(mf, iri_key(OWL_DATATYPE_PROPERTY)));
        assert(mf.filter(|f: Key3| fact_matches(f, None, Some(&ty), Some(&ind))) =~= typed_with(mf, iri_key(OWL_NAMED_INDIVIDUAL)));
        assert(mf.filter(|f: Key3| fact_matches(f, None, None, None)) =~= mf);
    }
    Some(EntityStats { classes, object_properties, data_properties, individuals, total_triples })
}

} // verus!

verus! {

/// Whether a key is that of a literal.
pub open spec fn is_literal_key(k: Seq<char>) -> bool {
    k.len() >= 2 && k[0] == 'l' && k[1] == ':'
}

/// Whether a key starts with `_:`.
pub open spec fn starts_blank_label(k: Seq<char>) -> bool {
    k.len() >= 2 && k[0] == '_' && k[1] == ':'
}

/// Whether `k` is an entity of `main`: the subject or object of a triple,
/// and not a literal.
pub open spec fn is_entity(main: Set<Key3>, k: Seq<char>) -> bool {
    !is_literal_key(k) && exists|t: Key3| #[trigger] main.contains(t) && (t.0 == k || t.2 == k)
}

/// Whether the entity `k` takes part in a triple other than a typing.
pub open spec fn is_connected(main: Set<Key3>, k: Seq<char>) -> bool {
    exists|t: Key3| #[trigger] main.contains(t) && t.1 != iri_key(RDF_TYPE) && (t.0 == k || t.2 == k)
}

/// Whether `k` has a label.
pub open spec fn is_labeled(main: Set<Key3>, k: Seq<char>) -> bool {
    exists|t: Key3| #[trigger] main.contains(t) && t.1 == iri_key(RDFS_LABEL) && t.0 == k
}

/// Whether something has the type `k`.
pub open spec fn has_instances(main: Set<Key3>, k: Seq<char>) -> bool {
    exists|t: Key3| #[trigger] main.contains(t) && t.1 == iri_key(RDF_TYPE) && t.2 == k
}

/// What the health check finds in an ontology.
pub struct HealthReport {
    /// Entities that take part in no triple but typings.
    pub isolated_nodes: Vec<String>,
    /// Entities without a label.
    pub missing_labels: Vec<String>,
    /// Declared classes without members.
    pub empty_classes: Vec<String>,
}

/// Whether some triple of the list has a predicate other than `p`.
fn has_other_predicate(ts: &Vec<TermTriple>, p: &RdfTerm) -> (r: bool)
    ensures
        r == exists|i: int| 0 <= i < ts@.len() && #[trigger] triple_key(ts@[i]).1 != term_key(*p),
{
    let n = ts.len();
    let mut i: usize = 0;
    while i < n
        invariant
            i <= n,
            n == ts@.len(),
            forall|j: int| 0 <= j < i ==> #[trigger] triple_key(ts@[j]).1 == term_key(*p),
        decreases n - i,
    {
        if !ts[i].p.same(p) {
            assert(triple_key(ts@[i as int]).1 != term_key(*p));
            return true;
        }
        i += 1;
    }
    false
}

/// What a sequence holds after a push.
pub proof fn lemma_push_contains<A>(s: Seq<A>, x: A)
    ensures
        forall|k: A| s.push(x).contains(k) <==> s.contains(k) || k == x,
{
    assert forall|k: A| s.push(x).contains(k) <==> s.contains(k) || k == x by {
        if s.contains(k) {
            let i = choose|i: int| 0 <= i < s.len() && s[i] == k;
            assert(s.push(x)[i] == k);
        }
        if k == x {
            assert(s.push(x)[s.len() as int] == k);
        }
        if s.push(x).contains(k) {
            let i = choose|i: int| 0 <= i < s.push(x).len() && s.push(x)[i] == k;
            if i < s.len() {
                assert(s[i] == k);
            }
        }
    }
}

/// Whether a key string starts with `_:`.
pub(crate) fn has_blank_label_prefix(k: &String) -> (r: bool)
    ensures
        r == starts_blank_label(k@),
{
    let s = k.as_str();
    s.unicode_len() >= 2 && s.get_char(0) == '_' && s.get_char(1) == ':'
}

/// A literal term is exactly one whose key is that of a literal.
pub proof fn lemma_literal_key(t: RdfTerm)
    ensures
        is_literal_key(term_key(t)) <==> t is Literal,
{
    let k = term_key(t);
    match t {
        RdfTerm::Iri(_) => assert(k[0] == 'i'),
        RdfTerm::Literal(_) => assert(k[0] == 'l' && k[1] == ':'),
        RdfTerm::Blank(_) => assert(k[0] == 'b'),
        RdfTerm::Other => assert(k[0] == 'b'),
    }
}

/// Whether `k` is the subject or object, and not a literal, of one of the
/// first `i` triples of `ts`.
pub open spec fn entity_in_prefix(ts: Seq<TermTriple>, i: int, k: Seq<char>) -> bool {
    !is_literal_key(k) && exists|j: int| #![trigger ts[j]] 0 <= j < i && (triple_key(ts[j]).0 == k || triple_key(ts[j]).2 == k)
}

/// The entities of the main graph, once each, with their terms.
fn collect_entities(main: &TripleGraph) -> (r: (Vec<RdfTerm>, Vec<String>))
    ensures
        r.0@.len() == r.1@.len(),
        forall|i: int| 0 <= i < r.0@.len() ==> #[trigger] term_key(r.0@[i]) == r.1@[i]@ && term_valid(r.0@[i]),
        strings_view(r.1@).no_duplicates(),
        forall|k: Seq<char>| #[trigger] strings_view(r.1@).contains(k) <==> is_entity(graph_facts(*main), k),
{
    let ghost mf = graph_facts(*main);
    let all = graph_match(main, None, None, None);
    proof {
        assert forall|j: int| 0 <= j < all@.len() implies mf.contains(#[trigger] triple_key(all@[j])) && triple_valid(all@[j]) by {
            assert(graph_facts(*main).contains(triple_key(all@[j])));
        }
    }
    let mut terms: Vec<RdfTerm> = Vec::new();
    let mut keys: Vec<String> = Vec::new();
    let n = all.len();
    let mut i: usize = 0;
    while i < n
        invariant
            i <= n,
            n == all@.len(),
            mf == graph_facts(*main),
            forall|j: int| 0 <= j < all@.len() ==> mf.contains(#[trigger] triple_key(all@[j])) && triple_valid(all@[j]),
            terms@.len() == keys@.len(),
            forall|x: int| 0 <= x < terms@.len() ==> #[trigger] term_key(terms@[x]) == keys@[x]@ && term_valid(terms@[x]),
            strings_view(keys@).no_duplicates(),
            forall|k: Seq<char>| #[trigger] strings_view(keys@).contains(k) <==> entity_in_prefix(all@, i as int, k),
        decreases n - i,
    {
        assert(mf.contains(triple_key(all@[i as int])));
        let t = &all[i];
        let ghost before = strings_view(keys@);
        proof {
            lemma_literal_key(t.s);
            lemma_literal_key(t.o);
        }
        let sk = t.s.key();
        let add_s = !t.s.is_literal() && !string_in(&keys, &sk);
        if add_s {
            let st = t.s.duplicate();
            proof {
                crate::graph::lemma_valid_by_key(st, t.s);
                lemma_strings_view_push(keys@, sk);
            }
            terms.push(st);
            keys.push(sk);
        }
        let ghost mid = strings_view(keys@);
        let ok = t.o.key();
        let add_o = !t.o.is_literal() && !string_in(&keys, &ok);
        if add_o {
            let ot = t.o.duplicate();
            proof {
                crate::graph::lemma_valid_by_key(ot, t.o);
                lemma_strings_view_push(keys@, ok);
            }
            terms.push(ot);
            keys.push(ok);
        }
        proof {
            let tk = triple_key(all@[i as int]);
            assert(add_s ==> mid == before.push(tk.0));
            assert(!add_s ==> mid == before);
            assert(!add_s ==> is_literal_key(tk.0) || before.contains(tk.0));
            assert(add_o ==> strings_view(keys@) == mid.push(tk.2));
            assert(!add_o ==> strings_view(keys@) == mid);
            assert(!add_o ==> is_literal_key(tk.2) || mid.contains(tk.2));
            if add_s {
                lemma_push_contains(before, tk.0);
            }
            if add_o {
                lemma_push_contains(mid, tk.2);
            }
            let fin = strings_view(keys@);
            assert forall|k: Seq<char>| #[trigger] fin.contains(k) <==> entity_in_prefix(all@, i + 1, k) by {
                if entity_in_prefix(all@, i + 1, k) {
                    let j = choose|j: int| #![trigger all@[j]] 0 <= j < i + 1 && (triple_key(all@[j]).0 == k || triple_key(all@[j]).2 == k);
                    if j < i {
                        assert(entity_in_prefix(all@, i as int, k));
                        assert(before.contains(k));
                        assert(mid.contains(k));
                    } else if k == tk.0 {
                        assert(mid.contains(k));
                    } else {
                        assert(k == tk.2);
                    }
                }
                if fin.contains(k) {
                    if mid.contains(k) {
                        if before.contains(k) {
                            assert(entity_in_prefix(all@, i as int, k));
                            let j = choose|j: int| #![trigger all@[j]] 0 <= j < i && (triple_key(all@[j]).0 == k || triple_key(all@[j]).2 == k);
                            assert(triple_key(all@[j]).0 == k || triple_key(all@[j]).2 == k);
                        } else {
                            assert(add_s && k == tk.0);
                            assert(triple_key(all@[i as int]).0 == k);
                        }
                    } else {
                        assert(add_o && k == tk.2);
                        assert(triple_key(all@[i as int]).2 == k);
                    }
                }
            }
        }
        i += 1;
    }
    proof {
        assert forall|k: Seq<char>| strings_view(keys@).contains(k) <==> #[trigger] is_entity(mf, k) by {
            if is_entity(mf, k) {
                let t = choose|t: Key3| #[trigger] mf.contains(t) && (t.0 == k || t.2 == k);
                assert(fact_matches(t, None, None, None));
                let j = choose|j: int| 0 <= j < all@.len() && triple_key(all@[j]) == t;
            }
        }
    }
    (terms, keys)
}

} // verus!

verus! {

/// Whether the IRIs that the health check looks for are accepted as IRIs.
pub open spec fn health_vocab_valid() -> bool {
    kinds_valid() && crate::graph::iri_valid(RDFS_LABEL@)
}

/// Whether the entity `k` is isolated: it takes part in no triple but
/// typings, and its key does not start with `_:`.
pub open spec fn is_isolated(main: Set<Key3>, k: Seq<char>) -> bool {
    is_entity(main, k) && !is_connected(main, k) && !starts_blank_label(k)
}

/// Whether the entity `k` lacks a label, and its key does not start with
/// `_:`.
pub open spec fn lacks_label(main: Set<Key3>, k: Seq<char>) -> bool {
    is_entity(main, k) && !is_labeled(main, k) && !starts_blank_label(k)
}

/// Whether `k` is a declared class without members.
pub open spec fn is_empty_class(main: Set<Key3>, k: Seq<char>) -> bool {
    main.contains((k, iri_key(RDF_TYPE), iri_key(OWL_CLASS))) && !has_instances(main, k)
}

/// The isolated entities, the entities without a label, and the declared
/// classes without members, each once; nothing where the IRIs looked for
/// are refused.
pub fn health_check(memory: &EngineMemory) -> (r: Option<HealthReport>)
    ensures
        r is None <==> !health_vocab_valid(),
        r matches Some(h) ==> strings_view(h.isolated_nodes@).no_duplicates() && forall|k: Seq<char>|
            #[trigger] strings_view(h.isolated_nodes@).contains(k) <==> is_isolated(graph_facts(memory.main_graph), k),
        r matches Some(h) ==> strings_view(h.missing_labels@).no_duplicates() && forall|k: Seq<char>|
            #[trigger] strings_view(h.missing_labels@).contains(k) <==> lacks_label(graph_facts(memory.main_graph), k),
        r matches Some(h) ==> strings_view(h.empty_classes@).no_duplicates() && forall|k: Seq<char>|
            #[trigger] strings_view(h.empty_classes@).contains(k) <==> is_empty_class(graph_facts(memory.main_graph), k),
{
    if !(check_kinds() && crate::graph::check_iri(RDFS_LABEL)) {
        return None;
    }
    let main = &memory.main_graph;
    let ghost mf = graph_facts(*main);
    let ty = iri(RDF_TYPE);
    let label = iri(RDFS_LABEL);
    let (terms, keys) = collect_entities(main);
    let mut isolated: Vec<String> = Vec::new();
    let mut missing: Vec<String> = Vec::new();
    let n = keys.len();
    let mut i: usize = 0;
    while i < n
        invariant
            i <= n,
            n == keys@.len(),
            n == terms@.len(),
            mf == graph_facts(*main),
            term_key(ty) == iri_key(RDF_TYPE),
            term_key(label) == iri_key(RDFS_LABEL),
            term_valid(label),
            forall|x: int| 0 <= x < terms@.len() ==> #[trigger] term_key(terms@[x]) == keys@[x]@ && term_valid(terms@[x]),
            strings_view(keys@).no_duplicates(),
            forall|k: Seq<char>| #[trigger] strings_view(keys@).contains(k) <==> is_entity(mf, k),
            strings_view(isolated@).no_duplicates(),
            strings_view(missing@).no_duplicates(),
            forall|k: Seq<char>| #[trigger] strings_view(isolated@).contains(k) <==> exists|x: int| 0 <= x < i && keys@[x]@ == k && is_isolated(mf, k),
            forall|k: Seq<char>| #[trigger] strings_view(missing@).contains(k) <==> exists|x: int| 0 <= x < i && keys@[x]@ == k && lacks_label(mf, k),
        decreases n - i,
    {
        let e = &terms[i];
        let ghost k = keys@[i as int]@;
        assert(strings_view(keys@)[i as int] == k);
        assert(strings_view(keys@).contains(k));
        assert(is_entity(mf, k));
        let outgoing = graph_match(main, Some(e), None, None);
        let incoming = graph_match(main, None, None, Some(e));
        let connected = has_other_predicate(&outgoing, &ty) || has_other_predicate(&incoming, &ty);
        proof {
            if is_connected(mf, k) {
                let t = choose|t: Key3| #[trigger] mf.contains(t) && t.1 != iri_key(RDF_TYPE) && (t.0 == k || t.2 == k);
                if t.0 == k {
                    assert(fact_matches(t, Some(e), None, None));
                    let j = choose|j: int| 0 <= j < outgoing@.len() && triple_key(outgoing@[j]) == t;
                    assert(triple_key(outgoing@[j]).1 != term_key(ty));
                } else {
                    assert(fact_matches(t, None, None, Some(e)));
                    let j = choose|j: int| 0 <= j < incoming@.len() && triple_key(incoming@[j]) == t;
                    assert(triple_key(incoming@[j]).1 != term_key(ty));
                }
            }
            if connected {
                if exists|j: int| 0 <= j < outgoing@.len() && #[trigger] triple_key(outgoing@[j]).1 != term_key(ty) {
                    let j = choose|j: int| 0 <= j < outgoing@.len() && #[trigger] triple_key(outgoing@[j]).1 != term_key(ty);
                    assert(mf.contains(triple_key(outgoing@[j])));
                } else {
                    let j = choose|j: int| 0 <= j < incoming@.len() && #[trigger] triple_key(incoming@[j]).1 != term_key(ty);
                    assert(mf.contains(triple_key(incoming@[j])));
                }
            }
        }
        let labels = graph_match(main, Some(e), Some(&label), None);
        let labeled = labels.len() > 0;
        proof {
            if is_labeled(mf, k) {
                let t = choose|t: Key3| #[trigger] mf.contains(t) && t.1 == iri_key(RDFS_LABEL) && t.0 == k;
                assert(fact_matches(t, Some(e), Some(&label), None));
            }
            if labeled {
                assert(mf.contains(triple_key(labels@[0])));
            }
        }
        let blank = has_blank_label_prefix(&keys[i]);
        let ghost iso_before = strings_view(isolated@);
        let ghost mis_before = strings_view(missing@);
        proof {
            assert(!iso_before.contains(k)) by {
                if iso_before.contains(k) {
                    let x = choose|x: int| 0 <= x < i && keys@[x]@ == k && is_isolated(mf, k);
                    assert(strings_view(keys@)[x] == strings_view(keys@)[i as int]);
                }
            }
            assert(!mis_before.contains(k)) by {
                if mis_before.contains(k) {
                    let x = choose|x: int| 0 <= x < i && keys@[x]@ == k && lacks_label(mf, k);
                    assert(strings_view(keys@)[x] == strings_view(keys@)[i as int]);
                }
            }
        }
        if !connected && !blank {
            proof {
                lemma_strings_view_push(isolated@, keys@[i as int]);
                lemma_push_contains(iso_before, k);
            }
            isolated.push(keys[i].clone());
        }
        if !labeled && !blank {
            proof {
                lemma_strings_view_push(missing@, keys@[i as int]);
                lemma_push_contains(mis_before, k);
            }
            missing.push(keys[i].clone());
        }
        proof {
            assert(is_isolated(mf, k) == (!connected && !blank));
            assert(lacks_label(mf, k) == (!labeled && !blank));
            assert(!connected && !blank ==> strings_view(isolated@) == iso_before.push(k));
            assert(!(!connected && !blank) ==> strings_view(isolated@) == iso_before);
            assert(!labeled && !blank ==> strings_view(missing@) == mis_before.push(k));
            assert(!(!labeled && !blank) ==> strings_view(missing@) == mis_before);
            assert forall|k2: Seq<char>| #[trigger] strings_view(isolated@).contains(k2) <==> exists|x: int| 0 <= x < i + 1 && keys@[x]@ == k2 && is_isolated(mf, k2) by {
                if exists|x: int| 0 <= x < i + 1 && keys@[x]@ == k2 && is_isolated(mf, k2) {
                    let x = choose|x: int| 0 <= x < i + 1 && keys@[x]@ == k2 && is_isolated(mf, k2);
                    if x < i {
                        assert(iso_before.contains(k2));
                    } else {
                        assert(k2 == k);
                    }
                }
                if strings_view(isolated@).contains(k2) {
                    if iso_before.contains(k2) {
                        let x = choose|x: int| 0 <= x < i && keys@[x]@ == k2 && is_isolated(mf, k2);
                        assert(0 <= x < i + 1);
                    } else {
                        assert(k2 == k);
                        assert(keys@[i as int]@ == k2);
                    }
                }
            }
            assert forall|k2: Seq<char>| #[trigger] strings_view(missing@).contains(k2) <==> exists|x: int| 0 <= x < i + 1 && keys@[x]@ == k2 && lacks_label(mf, k2) by {
                if exists|x: int| 0 <= x < i + 1 && keys@[x]@ == k2 && lacks_label(mf, k2) {
                    let x = choose|x: int| 0 <= x < i + 1 && keys@[x]@ == k2 && lacks_label(mf, k2);
                    if x < i {
                        assert(mis_before.contains(k2));
                    } else {
                        assert(k2 == k);
                    }
                }
                if strings_view(missing@).contains(k2) {
                    if mis_before.contains(k2) {
                        let x = choose|x: int| 0 <= x < i && keys@[x]@ == k2 && lacks_label(mf, k2);
                        assert(0 <= x < i + 1);
                    } else {
                        assert(k2 == k);
                        assert(keys@[i as int]@ == k2);
                    }
                }
            }
        }
        i += 1;
    }
    proof {
        assert forall|k: Seq<char>| #[trigger] strings_view(isolated@).contains(k) <==> is_isolated(mf, k) by {
            if is_isolated(mf, k) {
                assert(strings_view(keys@).contains(k));
                let x = choose|x: int| 0 <= x < strings_view(keys@).len() && strings_view(keys@)[x] == k;
                assert(keys@[x]@ == k);
            }
        }
        assert forall|k: Seq<char>| #[trigger] strings_view(missing@).contains(k) <==> lacks_label(mf, k) by {
            if lacks_label(mf, k) {
                assert(strings_view(keys@).contains(k));
                let x = choose|x: int| 0 <= x < strings_view(keys@).len() && strings_view(keys@)[x] == k;
                assert(keys@[x]@ == k);
            }
        }
    }
    let empty = empty_classes(main);
    Some(HealthReport { isolated_nodes: isolated, missing_labels: missing, empty_classes: empty })
}

/// The declared classes without members, each once.
fn empty_classes(main: &TripleGraph) -> (r: Vec<String>)
    requires
        kinds_valid(),
    ensures
        strings_view(r@).no_duplicates(),
        forall|k: Seq<char>| #[trigger] strings_view(r@).contains(k) <==> is_empty_class(graph_facts(*main), k),
{
    let ghost mf = graph_facts(*main);
    let ty = iri(RDF_TYPE);
    let class = iri(OWL_CLASS);
    let decls = graph_match(main, None, Some(&ty), Some(&class));
    proof {
        assert forall|j: int| 0 <= j < decls@.len() implies {
            &&& mf.contains(#[trigger] triple_key(decls@[j]))
            &&& triple_valid(decls@[j])
            &&& triple_key(decls@[j]).1 == iri_key(RDF_TYPE)
            &&& triple_key(decls@[j]).2 == iri_key(OWL_CLASS)
        } by {
            assert(graph_facts(*main).contains(triple_key(decls@[j])));
        }
        let tks = decls@.map_values(|t: TermTriple| triple_key(t));
        assert forall|a: int, b: int| 0 <= a < decls@.len() && 0 <= b < decls@.len() && a != b
            implies triple_key(decls@[a]).0 != triple_key(decls@[b]).0 by {
            assert(tks[a] != tks[b]);
        }
    }
    let mut out: Vec<String> = Vec::new();
    let n = decls.len();
    let mut i: usize = 0;
    while i < n
        invariant
            i <= n,
            n == decls@.len(),
            mf == graph_facts(*main),
            term_key(ty) == iri_key(RDF_TYPE),
            term_valid(ty),
            forall|j: int| 0 <= j < decls@.len() ==> {
                &&& mf.contains(#[trigger] triple_key(decls@[j]))
                &&& triple_valid(decls@[j])
                &&& triple_key(decls@[j]).1 == iri_key(RDF_TYPE)
                &&& triple_key(decls@[j]).2 == iri_key(OWL_CLASS)
            },
            forall|a: int, b: int| 0 <= a < decls@.len() && 0 <= b < decls@.len() && a != b
                ==> triple_key(#[trigger] decls@[a]).0 != triple_key(#[trigger] decls@[b]).0,
            strings_view(out@).no_duplicates(),
            forall|k: Seq<char>| #[trigger] strings_view(out@).contains(k) <==> exists|x: int| 0 <= x < i
                && triple_key(decls@[x]).0 == k && !has_instances(mf, k),
        decreases n - i,
    {
        assert(mf.contains(triple_key(decls@[i as int])));
        let c = &decls[i].s;
        let ghost k = term_key(*c);
        let members = graph_match(main, None, Some(&ty), Some(c));
        let inhabited = members.len() > 0;
        proof {
            if has_instances(mf, k) {
                let t = choose|t: Key3| #[trigger] mf.contains(t) && t.1 == iri_key(RDF_TYPE) && t.2 == k;
                assert(fact_matches(t, None, Some(&ty), Some(c)));
            }
            if inhabited {
                assert(mf.contains(triple_key(members@[0])));
            }
        }
        let ghost before = strings_view(out@);
        proof {
            assert(!before.contains(k)) by {
                if before.contains(k) {
                    let x = choose|x: int| 0 <= x < i && triple_key(decls@[x]).0 == k && !has_instances(mf, k);
                    assert(triple_key(decls@[x]).0 != triple_key(decls@[i as int]).0);
                }
            }
        }
        if !inhabited {
            let ck = c.key();
            proof {
                lemma_strings_view_push(out@, ck);
                lemma_push_contains(before, k);
            }
            out.push(ck);
        }
        proof {
            assert(k == triple_key(decls@[i as int]).0);
            assert(!inhabited ==> strings_view(out@) == before.push(k));
            assert(inhabited ==> strings_view(out@) == before);
            assert forall|k2: Seq<char>| #[trigger] strings_view(out@).contains(k2) <==> exists|x: int| 0 <= x < i + 1
                && triple_key(decls@[x]).0 == k2 && !has_instances(mf, k2) by {
                if exists|x: int| 0 <= x < i + 1 && triple_key(decls@[x]).0 == k2 && !has_instances(mf, k2) {
                    let x = choose|x: int| 0 <= x < i + 1 && triple_key(decls@[x]).0 == k2 && !has_instances(mf, k2);
                    if x < i {
                        assert(before.contains(k2));
                    } else {
                        assert(k2 == k);
                    }
                }
                if strings_view(out@).contains(k2) {
                    if before.contains(k2) {
                        let x = choose|x: int| 0 <= x < i && triple_key(decls@[x]).0 == k2 && !has_instances(mf, k2);
                        assert(0 <= x < i + 1);
                    } else {
                        assert(k2 == k);
                    }
                }
            }
        }
        i += 1;
    }
    proof {
        assert forall|k: Seq<char>| #[trigger] strings_view(out@).contains(k) <==> is_empty_class(mf, k) by {
            if is_empty_class(mf, k) {
                let t = (k, iri_key(RDF_TYPE), iri_key(OWL_CLASS));
                assert(fact_matches(t, None, Some(&ty), Some(&class)));
                let x = choose|x: int| 0 <= x < decls@.len() && triple_key(decls@[x]) == t;
                assert(triple_key(decls@[x]).0 == k);
            }
            if strings_view(out@).contains(k) {
                let x = choose|x: int| 0 <= x < n && triple_key(decls@[x]).0 == k && !has_instances(mf, k);
                assert(mf.contains(triple_key(decls@[x])));
            }
        }
    }
    out
}

} // verus!
