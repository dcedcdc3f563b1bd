use vstd::prelude::*;
use crate::graph::{graph_facts, graph_insert, graph_new, term_is_valid, term_valid, Key3, TripleGraph};
use crate::term::{term_key, RdfTerm};
use crate::term::canon;

verus! {

/// A triple given by three strings: the key of a term, or the text of an
/// IRI without a tag.
#[derive(Debug, PartialEq, Eq, Hash)]
pub struct Fact {
    pub s: String,
    pub p: String,
    pub o: String,
}

/// The three strings of a fact.
pub open spec fn fact_view(f: Fact) -> Key3 {
    (f.s@, f.p@, f.o@)
}

/// The keys of the triple that a fact denotes.
pub open spec fn fact_key(f: Key3) -> Key3 {
    (canon(f.0), canon(f.1), canon(f.2))
}

impl Fact {
    /// A copy of this fact.
    pub fn duplicate(&self) -> (r: Fact)
        ensures
            fact_view(r) == fact_view(*self),
    {
        Fact { s: self.s.clone(), p: self.p.clone(), o: self.o.clone() }
    }
}

impl Clone for Fact {
    fn clone(&self) -> (r: Self)
        ensures
            fact_view(r) == fact_view(*self),
    {
        self.duplicate()
    }
}

/// A logical contradiction found during reasoning: the rule that found it
/// and the triples that conflict.
#[derive(Debug, PartialEq, Eq)]
pub struct Inconsistency {
    pub rule_name: String,
    pub conflicting_triples: Vec<Fact>,
}

/// The memory of the reasoner: all known triples, the triples that are new
/// since the last round of inference, the asserted triples and the inferred
/// ones, and the contradictions found.
pub struct EngineMemory {
    pub main_graph: TripleGraph,
    pub delta_graph: TripleGraph,
    pub asserted_graph: TripleGraph,
    pub inferred_graph: TripleGraph,
    pub is_consistent: bool,
    pub inconsistencies: Vec<Inconsistency>,
}

/// Whether a memory holds no triple and no contradiction.
pub open spec fn memory_empty(m: EngineMemory) -> bool {
    &&& graph_facts(m.main_graph) == Set::<Key3>::empty()
    &&& graph_facts(m.delta_graph) == Set::<Key3>::empty()
    &&& graph_facts(m.asserted_graph) == Set::<Key3>::empty()
    &&& graph_facts(m.inferred_graph) == Set::<Key3>::empty()
    &&& m.is_consistent
    &&& m.inconsistencies@.len() == 0
}

impl EngineMemory {
    /// An empty, consistent memory.
    pub fn new() -> (m: Self)
        ensures
            memory_empty(m),
    {
        EngineMemory {
            main_graph: graph_new(),
            delta_graph: graph_new(),
            asserted_graph: graph_new(),
            inferred_graph: graph_new(),
            is_consistent: true,
            inconsistencies: Vec::new(),
        }
    }

    /// Forgets every triple and every contradiction.
    pub fn clear(&mut self)
        ensures
            memory_empty(*final(self)),
    {
        self.main_graph = graph_new();
        self.delta_graph = graph_new();
        self.asserted_graph = graph_new();
        self.inferred_graph = graph_new();
        self.is_consistent = true;
        self.inconsistencies.clear();
    }
}

/// Why a triple could not be stored.
#[derive(Debug, Clone, Copy, PartialEq, Eq)]
pub enum StoreError {
    /// A term's text is not a valid IRI or blank node identifier.
    InvalidTerm,
    /// The graph cannot hold more distinct terms.
    TermIndexFull,
}

/// The keys of a triple of terms.
pub open spec fn terms_key(s: RdfTerm, p: RdfTerm, o: RdfTerm) -> Key3 {
    (term_key(s), term_key(p), term_key(o))
}

/// Adds a triple to a graph, after checking its terms; tells whether it was
/// new.
pub fn store_triple(g: &mut TripleGraph, s: &RdfTerm, p: &RdfTerm, o: &RdfTerm) -> (r: Result<bool, StoreError>)
    ensures
        r matches Ok(b) ==> graph_facts(*final(g)) == graph_facts(*old(g)).insert(terms_key(*s, *p, *o))
            && b == !graph_facts(*old(g)).contains(terms_key(*s, *p, *o)),
        r == Err::<bool, StoreError>(StoreError::InvalidTerm) <==> !(term_valid(*s) && term_valid(*p) && term_valid(*o)),
        r is Err ==> graph_facts(*final(g)) == graph_facts(*old(g)),
{
    if !(term_is_valid(s) && term_is_valid(p) && term_is_valid(o)) {
        return Err(StoreError::InvalidTerm);
    }
    match graph_insert(g, s, p, o) {
        Ok(b) => Ok(b),
        Err(_) => Err(StoreError::TermIndexFull),
    }
}

} // verus!
