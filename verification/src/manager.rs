use vstd::prelude::*;
use crate::graph::{
    graph_contains, graph_facts, graph_remove, key_valid, no_generated_blanks, parse_document, parsed_document, serialize_graph, term_is_valid,
    triple_key, Key3, TermTriple,
};
use crate::history::{
    event_view, history_pop_redo, history_pop_undo, history_push, reverse_view, ChangeHistory, DarkstarEvent, EventV,
    HistoryV,
};
use crate::memory::{fact_key, memory_empty, store_triple, EngineMemory, StoreError};
use crate::rules::engine::{active_rules, closed_under, full_engine, inference_ok, memory_view, InferenceEngine, MemoryV};
use crate::rules::{RDFS_SUBCLASS_OF, RDFS_SUBPROPERTY_OF, RDF_TYPE};
use crate::settings::ReasonerRules;
use crate::term::{canon, lemma_term_key_tagged, literal_tag, term_key};
use crate::graph::{fact_matches, graph_match, lemma_key_valid, triple_valid};
use crate::plugins::RDFS_LABEL;
use crate::rules::{iri, iri_key, vocab_valid};

verus! {

/// The IRI of the class of named individuals.
pub const OWL_NAMED_INDIVIDUAL: &'static str = "http://www.w3.org/2002/07/owl#NamedIndividual";

/// The IRI of the class of OWL classes.
pub const OWL_CLASS: &'static str = "http://www.w3.org/2002/07/owl#Class";

/// The IRI of the class of object properties.
pub const OWL_OBJECT_PROPERTY: &'static str = "http://www.w3.org/2002/07/owl#ObjectProperty";

/// The IRI of the class of data properties.
pub const OWL_DATATYPE_PROPERTY: &'static str = "http://www.w3.org/2002/07/owl#DatatypeProperty";

/// What the editing operations change: the asserted, main and delta
/// triples, and whether reasoning is due.
pub struct EditV {
    pub asserted: Set<Key3>,
    pub main: Set<Key3>,
    pub delta: Set<Key3>,
    pub dirty: bool,
}

/// Whether the three strings denote terms that can be stored.
pub open spec fn fact_valid(f: Key3) -> bool {
    key_valid(canon(f.0)) && key_valid(canon(f.1)) && key_valid(canon(f.2))
}

/// Asserting the triple with key `k`: it joins the asserted, main and
/// delta triples, and reasoning is due.
pub open spec fn add_effect(g: EditV, k: Key3) -> EditV {
    EditV { asserted: g.asserted.insert(k), main: g.main.insert(k), delta: g.delta.insert(k), dirty: true }
}

/// Retracting the triple with key `k`: it leaves the asserted and main
/// triples, and reasoning is due.
pub open spec fn remove_effect(g: EditV, k: Key3) -> EditV {
    EditV { asserted: g.asserted.remove(k), main: g.main.remove(k), delta: g.delta, dirty: true }
}

/// The effect of a change: its additions and removals in order.
pub open spec fn event_effect(e: EventV, g: EditV) -> EditV
    decreases e, 0int,
{
    match e {
        EventV::Added(s, p, o) => add_effect(g, fact_key((s, p, o))),
        EventV::Removed(s, p, o) => remove_effect(g, fact_key((s, p, o))),
        EventV::Batch(v) => events_effect(v, v.len() as int, g),
    }
}

/// The effect of the first `n` changes of `v`, in order.
pub open spec fn events_effect(v: Seq<EventV>, n: int, g: EditV) -> EditV
    decreases v, n,
{
    if n <= 0 || n > v.len() {
        g
    } else {
        event_effect(v[n - 1], events_effect(v, n - 1, g))
    }
}

/// Whether every triple of a change can be stored.
pub open spec fn event_valid(e: EventV) -> bool
    decreases e, 0int,
{
    match e {
        EventV::Added(s, p, o) => fact_valid((s, p, o)),
        EventV::Removed(s, p, o) => fact_valid((s, p, o)),
        EventV::Batch(v) => events_valid(v, v.len() as int),
    }
}

/// Whether every triple of the first `n` changes of `v` can be stored.
pub open spec fn events_valid(v: Seq<EventV>, n: int) -> bool
    decreases v, n,
{
    if n <= 0 || n > v.len() {
        true
    } else {
        events_valid(v, n - 1) && event_valid(v[n - 1])
    }
}

/// Whether a change adds a triple anywhere in it.
pub open spec fn event_adds(e: EventV) -> bool
    decreases e, 0int,
{
    match e {
        EventV::Added(_, _, _) => true,
        EventV::Removed(_, _, _) => false,
        EventV::Batch(v) => events_add(v, v.len() as int),
    }
}

/// Whether one of the first `n` changes of `v` adds a triple.
pub open spec fn events_add(v: Seq<EventV>, n: int) -> bool
    decreases v, n,
{
    if n <= 0 || n > v.len() {
        false
    } else {
        events_add(v, n - 1) || event_adds(v[n - 1])
    }
}

/// None of the first `n` changes of `v` adds a triple exactly when each
/// of them adds none.
pub proof fn lemma_events_add_each(v: Seq<EventV>, n: int)
    requires
        0 <= n <= v.len(),
    ensures
        !events_add(v, n) <==> forall|j: int| 0 <= j < n ==> !#[trigger] event_adds(v[j]),
    decreases n,
{
    if n > 0 {
        lemma_events_add_each(v, n - 1);
        if !events_add(v, n) {
            assert forall|j: int| 0 <= j < n implies !#[trigger] event_adds(v[j]) by {
                if j < n - 1 {
                    assert(!event_adds(v[j]));
                }
            }
        }
        if forall|j: int| 0 <= j < n ==> !#[trigger] event_adds(v[j]) {
            assert(!event_adds(v[n - 1]));
            assert forall|j: int| 0 <= j < n - 1 implies !#[trigger] event_adds(v[j]) by {
                assert(!event_adds(v[j]));
            }
        }
    }
}

/// Whether a set is `s` or `s` with `k` added.
pub open spec fn unchanged_or_added(new: Set<Key3>, s: Set<Key3>, k: Key3) -> bool {
    new == s || new == s.insert(k)
}

/// The first `n` changes of `v` can be stored exactly when each of them can.
pub proof fn lemma_events_valid_each(v: Seq<EventV>, n: int)
    requires
        0 <= n <= v.len(),
    ensures
        events_valid(v, n) <==> forall|j: int| 0 <= j < n ==> #[trigger] event_valid(v[j]),
    decreases n,
{
    if n > 0 {
        lemma_events_valid_each(v, n - 1);
        if events_valid(v, n) {
            assert forall|j: int| 0 <= j < n implies #[trigger] event_valid(v[j]) by {
                if j < n - 1 {
                    assert(event_valid(v[j]));
                }
            }
        }
        if forall|j: int| 0 <= j < n ==> #[trigger] event_valid(v[j]) {
            assert(event_valid(v[n - 1]));
            assert forall|j: int| 0 <= j < n - 1 implies #[trigger] event_valid(v[j]) by {
                assert(event_valid(v[j]));
            }
        }
    }
}

/// A change can be stored exactly when the change that undoes it can.
pub proof fn lemma_reverse_valid(e: EventV)
    ensures
        event_valid(reverse_view(e)) == event_valid(e),
    decreases e,
{
    match e {
        EventV::Batch(v) => {
            let rv = reverse_view(e)->Batch_0;
            let n = v.len() as int;
            lemma_events_valid_each(v, n);
            lemma_events_valid_each(rv, n);
            assert forall|i: int| 0 <= i < n implies event_valid(rv[i]) == event_valid(v[n - 1 - i]) by {
                assert(decreases_to!(e => v[n - 1 - i]));
                lemma_reverse_valid(v[n - 1 - i]);
            }
            if events_valid(v, n) {
                assert forall|i: int| 0 <= i < n implies #[trigger] event_valid(rv[i]) by {
                    assert(event_valid(v[n - 1 - i]));
                }
            }
            if events_valid(rv, n) {
                assert forall|j: int| 0 <= j < n implies #[trigger] event_valid(v[j]) by {
                    assert(event_valid(rv[n - 1 - j]));
                    assert(n - 1 - (n - 1 - j) == j);
                }
            }
        },
        _ => {},
    }
}

/// The part of a memory that the editing operations change.
pub open spec fn edit_view(m: EngineMemory, dirty: bool) -> EditV {
    EditV {
        asserted: graph_facts(m.asserted_graph),
        main: graph_facts(m.main_graph),
        delta: graph_facts(m.delta_graph),
        dirty,
    }
}

/// The editor's state: the reasoner's memory, the file being edited, the
/// change history, whether reasoning is due, and the reasoner.
pub struct DarkstarManager {
    pub memory: EngineMemory,
    pub active_file_path: Option<String>,
    pub history: ChangeHistory,
    pub is_dirty: bool,
    pub engine: InferenceEngine,
}

impl DarkstarManager {
    /// The editing state of the manager.
    pub open spec fn edit(&self) -> EditV {
        edit_view(self.memory, self.is_dirty)
    }

    /// Whether two managers agree on everything but the triples, whether
    /// reasoning is due, and the history.
    pub open spec fn same_apart_from_edit(&self, other: &DarkstarManager) -> bool {
        &&& graph_facts(self.memory.inferred_graph) == graph_facts(other.memory.inferred_graph)
        &&& self.memory.is_consistent == other.memory.is_consistent
        &&& self.memory.inconsistencies@ == other.memory.inconsistencies@
        &&& self.active_file_path == other.active_file_path
        &&& self.engine == other.engine
    }

    /// A manager with an empty ontology, no file and no history.
    pub fn new() -> (m: Self)
        ensures
            memory_empty(m.memory),
            m.active_file_path is None,
            m.history@ == (HistoryV { undo: Seq::empty(), redo: Seq::empty() }),
            !m.is_dirty,
            full_engine(m.engine),
    {
        let m = DarkstarManager {
            memory: EngineMemory::new(),
            active_file_path: None,
            history: ChangeHistory::new(),
            is_dirty: false,
            engine: InferenceEngine::new(),
        };
        m
    }

    /// Starts a new, empty ontology: the memory, the file and the history
    /// are forgotten.
    pub fn new_ontology(&mut self)
        ensures
            memory_empty(final(self).memory),
            final(self).active_file_path is None,
            final(self).history@ == (HistoryV { undo: Seq::empty(), redo: Seq::empty() }),
            !final(self).is_dirty,
    {
        self.memory.clear();
        self.active_file_path = None;
        self.history.clear();
        self.is_dirty = false;
    }

    /// Checks that the three strings denote terms that can be stored.
    fn check_fact(s: &String, p: &String, o: &String) -> (r: bool)
        ensures
            r == fact_valid((s@, p@, o@)),
    {
        let st = InferenceEngine::make_term(s.as_str());
        let pt = InferenceEngine::make_term(p.as_str());
        let ot = InferenceEngine::make_term(o.as_str());
        term_is_valid(&st) && term_is_valid(&pt) && term_is_valid(&ot)
    }

    /// Stores an asserted triple in the asserted, main and delta graphs.
    fn add_assertion_internal(&mut self, s: &String, p: &String, o: &String) -> (r: Result<(), StoreError>)
        requires
            fact_valid((s@, p@, o@)),
        ensures
            r is Ok ==> final(self).edit() == add_effect(old(self).edit(), fact_key((s@, p@, o@))),
            r is Err ==> {
                let k = fact_key((s@, p@, o@));
                &&& r == Err::<(), StoreError>(StoreError::TermIndexFull)
                &&& unchanged_or_added(final(self).edit().asserted, old(self).edit().asserted, k)
                &&& unchanged_or_added(final(self).edit().main, old(self).edit().main, k)
                &&& unchanged_or_added(final(self).edit().delta, old(self).edit().delta, k)
                &&& final(self).edit().dirty == old(self).edit().dirty
            },
            final(self).same_apart_from_edit(old(self)),
            final(self).history@ == old(self).history@,
    {
        let st = InferenceEngine::make_term(s.as_str());
        let pt = InferenceEngine::make_term(p.as_str());
        let ot = InferenceEngine::make_term(o.as_str());
        if let Err(e) = store_triple(&mut self.memory.asserted_graph, &st, &pt, &ot) {
            return Err(e);
        }
        if let Err(e) = store_triple(&mut self.memory.main_graph, &st, &pt, &ot) {
            return Err(e);
        }
        if let Err(e) = store_triple(&mut self.memory.delta_graph, &st, &pt, &ot) {
            return Err(e);
        }
        self.is_dirty = true;
        assert(self.edit() =~= add_effect(old(self).edit(), fact_key((s@, p@, o@))));
        Ok(())
    }

    /// Removes an asserted triple from the asserted and main graphs.
    fn remove_assertion_internal(&mut self, s: &String, p: &String, o: &String)
        requires
            fact_valid((s@, p@, o@)),
        ensures
            final(self).edit() == remove_effect(old(self).edit(), fact_key((s@, p@, o@))),
            final(self).same_apart_from_edit(old(self)),
            final(self).history@ == old(self).history@,
    {
        let st = InferenceEngine::make_term(s.as_str());
        let pt = InferenceEngine::make_term(p.as_str());
        let ot = InferenceEngine::make_term(o.as_str());
        graph_remove(&mut self.memory.asserted_graph, &st, &pt, &ot);
        graph_remove(&mut self.memory.main_graph, &st, &pt, &ot);
        self.is_dirty = true;
        assert(self.edit() =~= remove_effect(old(self).edit(), fact_key((s@, p@, o@))));
    }
}

impl DarkstarManager {
    /// Whether every triple of a change can be stored.
    #[verifier::loop_isolation(false)]
    fn check_event(event: &DarkstarEvent) -> (r: bool)
        ensures
            r == event_valid(event@),
        decreases event,
    {
        match event {
            DarkstarEvent::AxiomAdded { s, p, o } => Self::check_fact(s, p, o),
            DarkstarEvent::AxiomRemoved { s, p, o } => Self::check_fact(s, p, o),
            DarkstarEvent::Batch(events) => {
                let ghost v = event@->Batch_0;
                let n = events.len();
                let mut i: usize = 0;
                while i < n
                    invariant
                        i <= n,
                        n == events@.len(),
                        v.len() == n,
                        forall|j: int| 0 <= j < n ==> #[trigger] v[j] == events@[j]@,
                        events_valid(v, i as int),
                    decreases n - i,
                {
                    proof {
                        assert(decreases_to!(*event => events@[i as int]));
                    }
                    if !Self::check_event(&events[i]) {
                        proof {
                            lemma_events_valid_each(v, n as int);
                            assert(!event_valid(v[i as int]));
                        }
                        return false;
                    }
                    i += 1;
                }
                true
            },
        }
    }

    /// Applies a change whose triples can all be stored.
    #[verifier::loop_isolation(false)]
    fn apply_valid_event(&mut self, event: &DarkstarEvent) -> (r: Result<(), StoreError>)
        requires
            event_valid(event@),
        ensures
            r is Ok ==> final(self).edit() == event_effect(event@, old(self).edit()),
            !event_adds(event@) ==> r is Ok,
            r is Err ==> r == Err::<(), StoreError>(StoreError::TermIndexFull),
            final(self).same_apart_from_edit(old(self)),
            final(self).history@ == old(self).history@,
        decreases event,
    {
        match event {
            DarkstarEvent::AxiomAdded { s, p, o } => self.add_assertion_internal(s, p, o),
            DarkstarEvent::AxiomRemoved { s, p, o } => {
                self.remove_assertion_internal(s, p, o);
                Ok(())
            },
            DarkstarEvent::Batch(events) => {
                let ghost v = event@->Batch_0;
                let ghost g0 = self.edit();
                proof {
                    lemma_events_valid_each(v, v.len() as int);
                    lemma_events_add_each(v, v.len() as int);
                }
                let n = events.len();
                let mut i: usize = 0;
                while i < n
                    invariant
                        i <= n,
                        n == events@.len(),
                        v.len() == n,
                        forall|j: int| 0 <= j < n ==> #[trigger] v[j] == events@[j]@,
                        forall|j: int| 0 <= j < n ==> #[trigger] event_valid(v[j]),
                        !event_adds(event@) ==> forall|j: int| 0 <= j < n ==> !#[trigger] event_adds(v[j]),
                        self.edit() == events_effect(v, i as int, g0),
                        self.same_apart_from_edit(old(self)),
                        self.history@ == old(self).history@,
                    decreases n - i,
                {
                    proof {
                        assert(decreases_to!(*event => events@[i as int]));
                        assert(event_valid(v[i as int]));
                    }
                    if let Err(e) = self.apply_valid_event(&events[i]) {
                        return Err(e);
                    }
                    i += 1;
                }
                Ok(())
            },
        }
    }

    /// Applies a change: its additions and removals in order. Nothing
    /// changes where a triple of it cannot be stored.
    fn apply_event(&mut self, event: &DarkstarEvent) -> (r: Result<(), StoreError>)
        ensures
            r == Err::<(), StoreError>(StoreError::InvalidTerm) <==> !event_valid(event@),
            !event_valid(event@) ==> *final(self) == *old(self),
            r is Ok ==> final(self).edit() == event_effect(event@, old(self).edit()),
            event_valid(event@) && !event_adds(event@) ==> r is Ok,
            final(self).same_apart_from_edit(old(self)),
            final(self).history@ == old(self).history@,
    {
        if !Self::check_event(event) {
            return Err(StoreError::InvalidTerm);
        }
        match self.apply_valid_event(event) {
            Ok(()) => Ok(()),
            Err(_) => Err(StoreError::TermIndexFull),
        }
    }

    /// Undoes a change: applies the change that reverses it.
    fn apply_event_reverse(&mut self, event: &DarkstarEvent) -> (r: Result<(), StoreError>)
        ensures
            r == Err::<(), StoreError>(StoreError::InvalidTerm) <==> !event_valid(event@),
            !event_valid(event@) ==> *final(self) == *old(self),
            r is Ok ==> final(self).edit() == event_effect(reverse_view(event@), old(self).edit()),
            event_valid(event@) && !event_adds(reverse_view(event@)) ==> r is Ok,
            final(self).same_apart_from_edit(old(self)),
            final(self).history@ == old(self).history@,
    {
        let reversed = event.reverse();
        proof {
            lemma_reverse_valid(event@);
        }
        self.apply_event(&reversed)
    }
}

impl DarkstarManager {
    /// Asserts a triple and records the change. Nothing changes where a
    /// string does not denote a term that can be stored.
    pub fn add_assertion(&mut self, s: String, p: String, o: String) -> (r: Result<(), StoreError>)
        ensures
            r == Err::<(), StoreError>(StoreError::InvalidTerm) <==> !fact_valid((s@, p@, o@)),
            !fact_valid((s@, p@, o@)) ==> *final(self) == *old(self),
            fact_valid((s@, p@, o@)) ==> final(self).history@ == history_push(old(self).history@, EventV::Added(s@, p@, o@)),
            r is Ok ==> final(self).edit() == add_effect(old(self).edit(), fact_key((s@, p@, o@))),
            final(self).same_apart_from_edit(old(self)),
    {
        if !Self::check_fact(&s, &p, &o) {
            return Err(StoreError::InvalidTerm);
        }
        let event = DarkstarEvent::AxiomAdded { s: s.clone(), p: p.clone(), o: o.clone() };
        self.history.push_change(event);
        match self.add_assertion_internal(&s, &p, &o) {
            Ok(()) => Ok(()),
            Err(_) => Err(StoreError::TermIndexFull),
        }
    }

    /// Retracts a triple and records the change. Nothing changes where a
    /// string does not denote a term that can be stored.
    pub fn remove_assertion(&mut self, s: String, p: String, o: String) -> (r: Result<(), StoreError>)
        ensures
            r is Err <==> !fact_valid((s@, p@, o@)),
            r is Err ==> r == Err::<(), StoreError>(StoreError::InvalidTerm) && *final(self) == *old(self),
            r is Ok ==> final(self).history@ == history_push(old(self).history@, EventV::Removed(s@, p@, o@)),
            r is Ok ==> final(self).edit() == remove_effect(old(self).edit(), fact_key((s@, p@, o@))),
            final(self).same_apart_from_edit(old(self)),
    {
        if !Self::check_fact(&s, &p, &o) {
            return Err(StoreError::InvalidTerm);
        }
        let event = DarkstarEvent::AxiomRemoved { s: s.clone(), p: p.clone(), o: o.clone() };
        self.history.push_change(event);
        self.remove_assertion_internal(&s, &p, &o);
        Ok(())
    }

    /// Undoes the most recent change, if there is one: it moves to the redo
    /// stack and its reverse is applied.
    pub fn undo(&mut self) -> (r: Result<(), StoreError>)
        ensures
            final(self).history@ == history_pop_undo(old(self).history@).0,
            final(self).same_apart_from_edit(old(self)),
            match history_pop_undo(old(self).history@).1 {
                Some(e) => {
                    &&& (r == Err::<(), StoreError>(StoreError::InvalidTerm) <==> !event_valid(e))
                    &&& (!event_valid(e) ==> final(self).edit() == old(self).edit())
                    &&& (r is Ok ==> final(self).edit() == event_effect(reverse_view(e), old(self).edit()))
                    &&& (event_valid(e) && !event_adds(reverse_view(e)) ==> r is Ok)
                },
                None => r is Ok && final(self).edit() == old(self).edit(),
            },
    {
        match self.history.pop_undo() {
            Some(event) => self.apply_event_reverse(&event),
            None => Ok(()),
        }
    }

    /// Redoes the most recently undone change, if there is one: it moves
    /// back to the undo stack and is applied again.
    pub fn redo(&mut self) -> (r: Result<(), StoreError>)
        ensures
            final(self).history@ == history_pop_redo(old(self).history@).0,
            final(self).same_apart_from_edit(old(self)),
            match history_pop_redo(old(self).history@).1 {
                Some(e) => {
                    &&& (r == Err::<(), StoreError>(StoreError::InvalidTerm) <==> !event_valid(e))
                    &&& (!event_valid(e) ==> final(self).edit() == old(self).edit())
                    &&& (r is Ok ==> final(self).edit() == event_effect(e, old(self).edit()))
                    &&& (event_valid(e) && !event_adds(e) ==> r is Ok)
                },
                None => r is Ok && final(self).edit() == old(self).edit(),
            },
    {
        match self.history.pop_redo() {
            Some(event) => self.apply_event(&event),
            None => Ok(()),
        }
    }

    /// Runs the reasoner when a change made it due; afterwards it is no
    /// longer due.
    pub fn run_reasoning(&mut self, rules_settings: &ReasonerRules) -> (r: Result<(), StoreError>)
        ensures
            !old(self).is_dirty ==> r is Ok && *final(self) == *old(self),
            final(self).history@ == old(self).history@,
            final(self).active_file_path == old(self).active_file_path,
            final(self).engine == old(self).engine,
            graph_facts(final(self).memory.asserted_graph) == graph_facts(old(self).memory.asserted_graph),
            old(self).is_dirty && r is Ok ==> !final(self).is_dirty && inference_ok(
                active_rules(old(self).engine, *rules_settings),
                memory_view(old(self).memory),
                memory_view(final(self).memory),
            ),
            old(self).is_dirty && !vocab_valid() ==> r == Err::<(), StoreError>(StoreError::InvalidTerm) && *final(self) == *old(self),
            vocab_valid() ==> (r is Err ==> r == Err::<(), StoreError>(StoreError::TermIndexFull)),
            old(self).is_dirty && r is Ok && final(self).memory.inconsistencies@ == old(self).memory.inconsistencies@
                && graph_facts(final(self).memory.delta_graph) == Set::<Key3>::empty()
                ==> closed_under(active_rules(old(self).engine, *rules_settings), graph_facts(final(self).memory.main_graph)),
    {
        if self.is_dirty {
            match self.engine.run_inference(&mut self.memory, rules_settings) {
                Ok(()) => {},
                Err(e) => {
                    return Err(e);
                },
            }
            self.is_dirty = false;
        }
        Ok(())
    }

    /// Declares a named individual.
    pub fn add_individual(&mut self, uri: String) -> (r: Result<(), StoreError>)
        ensures
            r == Err::<(), StoreError>(StoreError::InvalidTerm) <==> !fact_valid((uri@, RDF_TYPE@, OWL_NAMED_INDIVIDUAL@)),
            !fact_valid((uri@, RDF_TYPE@, OWL_NAMED_INDIVIDUAL@)) ==> *final(self) == *old(self),
            fact_valid((uri@, RDF_TYPE@, OWL_NAMED_INDIVIDUAL@)) ==> final(self).history@
                == history_push(old(self).history@, EventV::Added(uri@, RDF_TYPE@, OWL_NAMED_INDIVIDUAL@)),
            r is Ok ==> final(self).edit() == add_effect(old(self).edit(), fact_key((uri@, RDF_TYPE@, OWL_NAMED_INDIVIDUAL@))),
            final(self).same_apart_from_edit(old(self)),
    {
        self.add_assertion(uri, RDF_TYPE.to_owned(), OWL_NAMED_INDIVIDUAL.to_owned())
    }

    /// Declares a class.
    pub fn add_class(&mut self, uri: String) -> (r: Result<(), StoreError>)
        ensures
            r == Err::<(), StoreError>(StoreError::InvalidTerm) <==> !fact_valid((uri@, RDF_TYPE@, OWL_CLASS@)),
            !fact_valid((uri@, RDF_TYPE@, OWL_CLASS@)) ==> *final(self) == *old(self),
            fact_valid((uri@, RDF_TYPE@, OWL_CLASS@)) ==> final(self).history@
                == history_push(old(self).history@, EventV::Added(uri@, RDF_TYPE@, OWL_CLASS@)),
            r is Ok ==> final(self).edit() == add_effect(old(self).edit(), fact_key((uri@, RDF_TYPE@, OWL_CLASS@))),
            final(self).same_apart_from_edit(old(self)),
    {
        self.add_assertion(uri, RDF_TYPE.to_owned(), OWL_CLASS.to_owned())
    }

    /// Declares `sub` a subclass of `sup`.
    pub fn add_subclass(&mut self, sub: String, sup: String) -> (r: Result<(), StoreError>)
        ensures
            r == Err::<(), StoreError>(StoreError::InvalidTerm) <==> !fact_valid((sub@, RDFS_SUBCLASS_OF@, sup@)),
            !fact_valid((sub@, RDFS_SUBCLASS_OF@, sup@)) ==> *final(self) == *old(self),
            fact_valid((sub@, RDFS_SUBCLASS_OF@, sup@)) ==> final(self).history@
                == history_push(old(self).history@, EventV::Added(sub@, RDFS_SUBCLASS_OF@, sup@)),
            r is Ok ==> final(self).edit() == add_effect(old(self).edit(), fact_key((sub@, RDFS_SUBCLASS_OF@, sup@))),
            final(self).same_apart_from_edit(old(self)),
    {
        self.add_assertion(sub, RDFS_SUBCLASS_OF.to_owned(), sup)
    }

    /// Declares an object property.
    pub fn add_object_property(&mut self, uri: String) -> (r: Result<(), StoreError>)
        ensures
            r == Err::<(), StoreError>(StoreError::InvalidTerm) <==> !fact_valid((uri@, RDF_TYPE@, OWL_OBJECT_PROPERTY@)),
            !fact_valid((uri@, RDF_TYPE@, OWL_OBJECT_PROPERTY@)) ==> *final(self) == *old(self),
            fact_valid((uri@, RDF_TYPE@, OWL_OBJECT_PROPERTY@)) ==> final(self).history@
                == history_push(old(self).history@, EventV::Added(uri@, RDF_TYPE@, OWL_OBJECT_PROPERTY@)),
            r is Ok ==> final(self).edit() == add_effect(old(self).edit(), fact_key((uri@, RDF_TYPE@, OWL_OBJECT_PROPERTY@))),
            final(self).same_apart_from_edit(old(self)),
    {
        self.add_assertion(uri, RDF_TYPE.to_owned(), OWL_OBJECT_PROPERTY.to_owned())
    }

    /// Declares a data property.
    pub fn add_data_property(&mut self, uri: String) -> (r: Result<(), StoreError>)
        ensures
            r == Err::<(), StoreError>(StoreError::InvalidTerm) <==> !fact_valid((uri@, RDF_TYPE@, OWL_DATATYPE_PROPERTY@)),
            !fact_valid((uri@, RDF_TYPE@, OWL_DATATYPE_PROPERTY@)) ==> *final(self) == *old(self),
            fact_valid((uri@, RDF_TYPE@, OWL_DATATYPE_PROPERTY@)) ==> final(self).history@
                == history_push(old(self).history@, EventV::Added(uri@, RDF_TYPE@, OWL_DATATYPE_PROPERTY@)),
            r is Ok ==> final(self).edit() == add_effect(old(self).edit(), fact_key((uri@, RDF_TYPE@, OWL_DATATYPE_PROPERTY@))),
            final(self).same_apart_from_edit(old(self)),
    {
        self.add_assertion(uri, RDF_TYPE.to_owned(), OWL_DATATYPE_PROPERTY.to_owned())
    }

    /// Declares `sub` a subproperty of `sup`.
    pub fn add_subproperty(&mut self, sub: String, sup: String) -> (r: Result<(), StoreError>)
        ensures
            r == Err::<(), StoreError>(StoreError::InvalidTerm) <==> !fact_valid((sub@, RDFS_SUBPROPERTY_OF@, sup@)),
            !fact_valid((sub@, RDFS_SUBPROPERTY_OF@, sup@)) ==> *final(self) == *old(self),
            fact_valid((sub@, RDFS_SUBPROPERTY_OF@, sup@)) ==> final(self).history@
                == history_push(old(self).history@, EventV::Added(sub@, RDFS_SUBPROPERTY_OF@, sup@)),
            r is Ok ==> final(self).edit() == add_effect(old(self).edit(), fact_key((sub@, RDFS_SUBPROPERTY_OF@, sup@))),
            final(self).same_apart_from_edit(old(self)),
    {
        self.add_assertion(sub, RDFS_SUBPROPERTY_OF.to_owned(), sup)
    }
}

/// The format of an ontology document.
#[derive(Clone, Copy, Debug, PartialEq, Eq)]
pub enum OntologyFormat {
    Turtle,
    NTriples,
}

/// Why a document could not be loaded.
#[derive(Debug, PartialEq, Eq)]
pub enum LoadError {
    /// The document is not well formed; the parser's message.
    Parse(String),
    /// A triple of the document could not be stored.
    Store(StoreError),
    /// The reasoner failed on the loaded triples.
    Reasoning(StoreError),
}

/// The keys of a list of triples of terms.
pub open spec fn triples_keys(ts: Seq<TermTriple>) -> Seq<Key3> {
    ts.map_values(|t: TermTriple| triple_key(t))
}

/// The additions that loading the triples `ts` makes: one for each triple
/// whose key is not asserted, in order.
pub open spec fn load_changes(ts: Seq<Key3>, asserted: Set<Key3>) -> Seq<EventV>
    decreases ts.len(),
{
    if ts.len() == 0 {
        Seq::empty()
    } else {
        let rest = load_changes(ts.drop_last(), asserted);
        let t = ts.last();
        if asserted.contains(fact_key(t)) {
            rest
        } else {
            rest.push(EventV::Added(t.0, t.1, t.2))
        }
    }
}

/// The settings with every family of rules switched on.
pub open spec fn all_rules() -> ReasonerRules {
    ReasonerRules {
        equality: true,
        property_chains: true,
        class_expressions: true,
        restrictions: true,
        datatypes: true,
        schema: true,
    }
}

/// Whether two managers hold the same triples, contradictions, history,
/// reasoner, and agree on whether reasoning is due.
pub open spec fn same_model(a: DarkstarManager, b: DarkstarManager) -> bool {
    &&& a.edit() == b.edit()
    &&& graph_facts(a.memory.inferred_graph) == graph_facts(b.memory.inferred_graph)
    &&& a.memory.is_consistent == b.memory.is_consistent
    &&& a.memory.inconsistencies@ == b.memory.inconsistencies@
    &&& a.history@ == b.history@
    &&& a.engine == b.engine
}

/// Whether a loading error is one that no valid document avoids: a graph's
/// term index is full, or the reasoner refuses a vocabulary IRI.
pub open spec fn load_limit_error(e: LoadError) -> bool {
    ||| e == LoadError::Store(StoreError::TermIndexFull)
    ||| e == LoadError::Reasoning(StoreError::TermIndexFull)
    ||| (e == LoadError::Reasoning(StoreError::InvalidTerm) && !vocab_valid())
}

/// Whether `new` is what loading triples with the keys `ks` into `old` may
/// give, with the result `r`: nothing changes where a triple cannot be
/// stored or all are asserted already; otherwise the additions of the new
/// triples are applied as one batch, recorded, and the reasoner runs with
/// every family of rules.
pub open spec fn load_outcome(old: DarkstarManager, new: DarkstarManager, ks: Seq<Key3>, r: Result<(), LoadError>) -> bool {
    let ch = load_changes(ks, old.edit().asserted);
    let g1 = event_effect(EventV::Batch(ch), old.edit());
    let mid = MemoryV {
        main: g1.main,
        delta: g1.delta,
        asserted: g1.asserted,
        inferred: graph_facts(old.memory.inferred_graph),
        consistent: old.memory.is_consistent,
        inconsistencies: old.memory.inconsistencies@,
    };
    &&& (r == Err::<(), LoadError>(LoadError::Store(StoreError::InvalidTerm)) <==> exists|i: int| 0 <= i < ks.len() && !fact_valid(#[trigger] ks[i]))
    &&& (r == Err::<(), LoadError>(LoadError::Store(StoreError::InvalidTerm)) ==> same_model(old, new))
    &&& ((forall|i: int| 0 <= i < ks.len() ==> fact_valid(#[trigger] ks[i])) && ch.len() == 0 ==> r is Ok && same_model(old, new))
    &&& (ch.len() > 0 && r is Ok ==> {
        &&& new.history@ == history_push(old.history@, EventV::Batch(ch))
        &&& !new.is_dirty
        &&& inference_ok(active_rules(old.engine, all_rules()), mid, memory_view(new.memory))
    })
    &&& ((forall|i: int| 0 <= i < ks.len() ==> fact_valid(#[trigger] ks[i])) ==> (r is Err ==> load_limit_error(r->Err_0)))
    &&& (ch.len() > 0 && r == Err::<(), LoadError>(LoadError::Reasoning(StoreError::InvalidTerm)) ==> {
        &&& !vocab_valid()
        &&& new.history@ == history_push(old.history@, EventV::Batch(ch))
        &&& new.edit() == g1
        &&& memory_view(new.memory) == mid
    })
    &&& !(r is Err && r->Err_0 is Parse)
    &&& new.engine == old.engine
}

/// Every change that loading makes is the addition of one of the triples.
pub proof fn lemma_load_changes_added(ts: Seq<Key3>, asserted: Set<Key3>)
    ensures
        forall|i: int| 0 <= i < load_changes(ts, asserted).len() ==> exists|j: int| 0 <= j < ts.len()
            && #[trigger] load_changes(ts, asserted)[i] == EventV::Added(ts[j].0, ts[j].1, ts[j].2),
    decreases ts.len(),
{
    if ts.len() > 0 {
        let rest = ts.drop_last();
        lemma_load_changes_added(rest, asserted);
        let ch = load_changes(ts, asserted);
        let chr = load_changes(rest, asserted);
        assert forall|i: int| 0 <= i < ch.len() implies exists|j: int| 0 <= j < ts.len()
            && #[trigger] ch[i] == EventV::Added(ts[j].0, ts[j].1, ts[j].2) by {
            if i < chr.len() {
                assert(ch[i] == chr[i]);
                let j = choose|j: int| 0 <= j < rest.len() && #[trigger] chr[i] == EventV::Added(rest[j].0, rest[j].1, rest[j].2);
                assert(rest[j] == ts[j]);
            } else {
                assert(ch[i] == EventV::Added(ts[ts.len() - 1].0, ts[ts.len() - 1].1, ts[ts.len() - 1].2));
            }
        }
    }
}

/// `Path::extension` of `std`: whether the extension of the path is `nt`.
pub uninterp spec fn nt_extension(path: Seq<char>) -> bool;

/// `std::path::Path::extension`: whether the file name of the path has the
/// extension `nt`.
#[verifier::external_body]
fn has_nt_extension(path: &str) -> (r: bool)
    ensures
        r == nt_extension(path@),
{
    std::path::Path::new(path).extension().and_then(|e| e.to_str()) == Some("nt")
}

/// Whether a file is read as Turtle: unless its extension is `nt`.
pub open spec fn turtle_path(path: Seq<char>) -> bool {
    !nt_extension(path)
}

/// The format of a file: N-Triples for the extension `nt`, Turtle for any
/// other.
pub fn format_for_path(path: &str) -> (r: OntologyFormat)
    ensures
        r == (if nt_extension(path@) { OntologyFormat::NTriples } else { OntologyFormat::Turtle }),
{
    if has_nt_extension(path) {
        OntologyFormat::NTriples
    } else {
        OntologyFormat::Turtle
    }
}

impl DarkstarManager {
    /// Loads parsed triples: the triples not yet asserted are added as one
    /// recorded batch, and the reasoner runs with every family of rules.
    pub fn load_parsed(&mut self, triples: &Vec<TermTriple>) -> (r: Result<(), LoadError>)
        ensures
            load_outcome(*old(self), *final(self), triples_keys(triples@), r),
            r == Err::<(), LoadError>(LoadError::Store(StoreError::InvalidTerm)) ==> *final(self) == *old(self),
            final(self).active_file_path == old(self).active_file_path,
    {
        let ghost ks = triples_keys(triples@);
        let ghost asserted0 = self.edit().asserted;
        let mut changes: Vec<DarkstarEvent> = Vec::new();
        let n = triples.len();
        let mut i: usize = 0;
        while i < n
            invariant
                i <= n,
                n == triples@.len(),
                ks == triples_keys(triples@),
                asserted0 == graph_facts(self.memory.asserted_graph),
                forall|j: int| 0 <= j < i ==> fact_valid(#[trigger] ks[j]),
                changes@.map_values(|e: DarkstarEvent| e@) == load_changes(ks.subrange(0, i as int), asserted0),
            decreases n - i,
        {
            let t = &triples[i];
            let s = t.s.key();
            let p = t.p.key();
            let o = t.o.key();
            let st = InferenceEngine::make_term(s.as_str());
            let pt = InferenceEngine::make_term(p.as_str());
            let ot = InferenceEngine::make_term(o.as_str());
            assert(ks[i as int] == (s@, p@, o@));
            if !(term_is_valid(&st) && term_is_valid(&pt) && term_is_valid(&ot)) {
                return Err(LoadError::Store(StoreError::InvalidTerm));
            }
            let ghost before = changes@.map_values(|e: DarkstarEvent| e@);
            let present = graph_contains(&self.memory.asserted_graph, &st, &pt, &ot);
            proof {
                let sub = ks.subrange(0, i + 1);
                assert(sub.drop_last() =~= ks.subrange(0, i as int));
                assert(sub.last() == (s@, p@, o@));
            }
            if !present {
                let ghost ev = EventV::Added(s@, p@, o@);
                changes.push(DarkstarEvent::AxiomAdded { s, p, o });
                assert(changes@.map_values(|e: DarkstarEvent| e@) =~= before.push(ev));
            }
            i += 1;
        }
        assert(ks.subrange(0, n as int) =~= ks);
        if changes.len() == 0 {
            return Ok(());
        }
        let batch = DarkstarEvent::Batch(changes);
        let ghost ch = load_changes(ks, asserted0);
        proof {
            assert(batch@ == EventV::Batch(ch)) by {
                let bv = batch@->Batch_0;
                assert(bv =~= ch);
            }
            lemma_load_changes_added(ks, asserted0);
            assert forall|j: int| 0 <= j < ch.len() implies #[trigger] event_valid(ch[j]) by {
                let x = choose|x: int| 0 <= x < ks.len() && #[trigger] ch[j] == EventV::Added(ks[x].0, ks[x].1, ks[x].2);
                assert(fact_valid(ks[x]));
            }
            lemma_events_valid_each(ch, ch.len() as int);
            let l = choose|x: int| 0 <= x < ks.len() && #[trigger] ch[ch.len() - 1] == EventV::Added(ks[x].0, ks[x].1, ks[x].2);
            assert(ch[ch.len() - 1] is Added);
        }
        let ghost g0 = self.edit();
        match self.apply_event(&batch) {
            Ok(()) => {},
            Err(e) => {
                return Err(LoadError::Store(e));
            },
        }
        proof {
            let n = ch.len() as int;
            let prev = events_effect(ch, n - 1, g0);
            assert(events_effect(ch, n, g0) == event_effect(ch[n - 1], prev));
            match ch[n - 1] {
                EventV::Added(a, b, c) => {
                    assert(event_effect(ch[n - 1], prev) == add_effect(prev, fact_key((a, b, c))));
                },
                _ => {},
            }
            assert(event_effect(EventV::Batch(ch), g0) == events_effect(ch, n, g0));
            assert(self.is_dirty);
        }
        let ghost bv = batch@;
        self.history.push_change(batch);
        let settings = ReasonerRules::default();
        assert(settings == all_rules());
        let ghost before_run = memory_view(self.memory);
        let ghost g1 = event_effect(EventV::Batch(ch), g0);
        proof {
            let mid = MemoryV {
                main: g1.main,
                delta: g1.delta,
                asserted: g1.asserted,
                inferred: graph_facts(old(self).memory.inferred_graph),
                consistent: old(self).memory.is_consistent,
                inconsistencies: old(self).memory.inconsistencies@,
            };
            assert(before_run == mid);
            assert(bv == EventV::Batch(ch));
        }
        match self.run_reasoning(&settings) {
            Ok(()) => Ok(()),
            Err(e) => Err(LoadError::Reasoning(e)),
        }
    }
}

impl DarkstarManager {
    /// Parses a document and loads its triples as `load_parsed` does.
    /// Nothing changes where the document is not well formed.
    pub fn load_from_string(&mut self, data: &str, format: OntologyFormat) -> (r: Result<(), LoadError>)
        ensures
            r is Err && r->Err_0 is Parse <==> parsed_document(data@, format == OntologyFormat::Turtle) is None,
            parsed_document(data@, format == OntologyFormat::Turtle) is None ==> *final(self) == *old(self),
            final(self).active_file_path == old(self).active_file_path,
            parsed_document(data@, format == OntologyFormat::Turtle) matches Some(facts) ==> exists|ks: Seq<Key3>| {
                &&& #[trigger] load_outcome(*old(self), *final(self), ks, r)
                &&& forall|f: Key3| facts.contains(f) <==> ks.contains(f)
            },
    {
        let turtle = match format {
            OntologyFormat::Turtle => true,
            OntologyFormat::NTriples => false,
        };
        match parse_document(data, turtle) {
            Err(msg) => Err(LoadError::Parse(msg)),
            Ok(triples) => {
                let r = self.load_parsed(&triples);
                proof {
                    let ks = triples_keys(triples@);
                    let facts = parsed_document(data@, turtle)->0;
                    assert forall|f: Key3| facts.contains(f) <==> ks.contains(f) by {
                        if facts.contains(f) {
                            let i = choose|i: int| 0 <= i < triples@.len() && triple_key(triples@[i]) == f;
                            assert(ks[i] == f);
                        }
                        if ks.contains(f) {
                            let i = choose|i: int| 0 <= i < ks.len() && ks[i] == f;
                            assert(triple_key(triples@[i]) == f);
                        }
                    }
                    assert(load_outcome(*old(self), *self, ks, r));
                }
                r
            },
        }
    }

    /// Loads a file whose contents `data` were read from `path`: the memory
    /// is cleared, the document is loaded in the format that the path's
    /// extension gives, and the path becomes the active file.
    pub fn load_from_file(&mut self, path: String, data: &str) -> (r: Result<(), LoadError>)
        ensures
            r is Ok ==> final(self).active_file_path == Some(path),
            r is Err ==> final(self).active_file_path == old(self).active_file_path,
            r is Err && r->Err_0 is Parse <==> parsed_document(data@, turtle_path(path@)) is None,
            parsed_document(data@, turtle_path(path@)) is None ==> memory_empty(final(self).memory)
                && final(self).history@ == old(self).history@,
            r == Err::<(), LoadError>(LoadError::Store(StoreError::InvalidTerm)) ==> memory_empty(final(self).memory)
                && final(self).history@ == old(self).history@,
            parsed_document(data@, turtle_path(path@)) matches Some(facts) ==> exists|mid: DarkstarManager, ks: Seq<Key3>| {
                &&& memory_empty(mid.memory)
                &&& mid.history@ == old(self).history@
                &&& mid.is_dirty == old(self).is_dirty
                &&& mid.engine == old(self).engine
                &&& forall|f: Key3| facts.contains(f) <==> ks.contains(f)
                &&& #[trigger] load_outcome(mid, *final(self), ks, r)
            },
    {
        self.memory.clear();
        let ghost mid = *self;
        let format = format_for_path(path.as_str());
        let res = self.load_from_string(data, format);
        let ghost s1 = *self;
        assert((format == OntologyFormat::Turtle) == turtle_path(path@));
        match res {
            Ok(()) => {
                self.active_file_path = Some(path);
                proof {
                    let facts = parsed_document(data@, turtle_path(path@))->0;
                    let ks = choose|ks: Seq<Key3>| {
                        &&& #[trigger] load_outcome(mid, s1, ks, res)
                        &&& forall|f: Key3| facts.contains(f) <==> ks.contains(f)
                    };
                    assert(load_outcome(mid, *self, ks, Ok(())));
                }
                Ok(())
            },
            Err(e) => {
                proof {
                    if parsed_document(data@, turtle_path(path@)) is Some {
                        let facts = parsed_document(data@, turtle_path(path@))->0;
                        let ks = choose|ks: Seq<Key3>| {
                            &&& #[trigger] load_outcome(mid, s1, ks, res)
                            &&& forall|f: Key3| facts.contains(f) <==> ks.contains(f)
                        };
                        assert(load_outcome(mid, *self, ks, Err(e)));
                    }
                }
                Err(e)
            },
        }
    }

    /// Writes the asserted triples, or all triples where `include_inferred`,
    /// as a document of the given format. Writing always succeeds; an
    /// N-Triples document is empty exactly when the triples written are none,
    /// a Turtle document is never empty, and a document that parses back
    /// gives back exactly the triples written; for Turtle, where no blank
    /// node has a label of the form the Turtle parser generates.
    pub fn serialize_to_string(&self, format: OntologyFormat, include_inferred: bool) -> (r: Result<String, String>)
        ensures
            r matches Ok(t) && {
                let written = if include_inferred {
                    graph_facts(self.memory.main_graph)
                } else {
                    graph_facts(self.memory.asserted_graph)
                };
                &&& format == OntologyFormat::Turtle ==> t@.len() > 0
                &&& format == OntologyFormat::NTriples ==> (t@.len() == 0 <==> written == Set::<Key3>::empty())
                &&& format == OntologyFormat::NTriples && parsed_document(t@, false) is Some
                    ==> parsed_document(t@, false)->0 == written
                &&& format == OntologyFormat::Turtle && no_generated_blanks(written) && parsed_document(t@, true) is Some
                    ==> parsed_document(t@, true)->0 == written
            },
    {
        let graph = if include_inferred {
            &self.memory.main_graph
        } else {
            &self.memory.asserted_graph
        };
        match format {
            OntologyFormat::Turtle => serialize_graph(graph, true),
            OntologyFormat::NTriples => serialize_graph(graph, false),
        }
    }
}

/// The key of the triple that an addition or a removal is about.
pub open spec fn event_key(e: EventV) -> Key3 {
    match e {
        EventV::Added(s, p, o) => fact_key((s, p, o)),
        EventV::Removed(s, p, o) => fact_key((s, p, o)),
        EventV::Batch(_) => (Seq::empty(), Seq::empty(), Seq::empty()),
    }
}

/// The keys of the first `n` changes of `v`.
pub open spec fn events_keys(v: Seq<EventV>, n: int) -> Set<Key3> {
    Set::new(|k: Key3| exists|j: int| 0 <= j < n && k == event_key(#[trigger] v[j]))
}

/// The keys of the triples `ks` as stored.
pub open spec fn stored_keys(ks: Seq<Key3>) -> Set<Key3> {
    Set::new(|k: Key3| exists|j: int| 0 <= j < ks.len() && k == fact_key(#[trigger] ks[j]))
}

/// A run of additions adds their keys to the asserted, main and delta
/// triples.
proof fn lemma_adds_effect(v: Seq<EventV>, n: int, g: EditV)
    requires
        0 <= n <= v.len(),
        forall|j: int| 0 <= j < n ==> #[trigger] v[j] is Added,
    ensures
        events_effect(v, n, g).asserted == g.asserted.union(events_keys(v, n)),
        events_effect(v, n, g).main == g.main.union(events_keys(v, n)),
    decreases n,
{
    if n > 0 {
        lemma_adds_effect(v, n - 1, g);
        assert(v[n - 1] is Added);
        assert(events_keys(v, n) =~= events_keys(v, n - 1).insert(event_key(v[n - 1])));
        let prev = events_effect(v, n - 1, g);
        match v[n - 1] {
            EventV::Added(a, b, c) => {
                assert(events_effect(v, n, g) == event_effect(v[n - 1], prev));
                assert(event_key(v[n - 1]) == fact_key((a, b, c)));
            },
            _ => {},
        }
        assert(events_effect(v, n, g).asserted =~= g.asserted.union(events_keys(v, n)));
        assert(events_effect(v, n, g).main =~= g.main.union(events_keys(v, n)));
    } else {
        assert(events_keys(v, n) =~= Set::<Key3>::empty());
    }
}

/// A run of removals takes their keys from the asserted and main triples.
proof fn lemma_removes_effect(v: Seq<EventV>, n: int, g: EditV)
    requires
        0 <= n <= v.len(),
        forall|j: int| 0 <= j < n ==> #[trigger] v[j] is Removed,
    ensures
        events_effect(v, n, g).asserted == g.asserted.difference(events_keys(v, n)),
        events_effect(v, n, g).main == g.main.difference(events_keys(v, n)),
    decreases n,
{
    if n > 0 {
        lemma_removes_effect(v, n - 1, g);
        assert(v[n - 1] is Removed);
        assert(events_keys(v, n) =~= events_keys(v, n - 1).insert(event_key(v[n - 1])));
        let prev = events_effect(v, n - 1, g);
        match v[n - 1] {
            EventV::Removed(a, b, c) => {
                assert(events_effect(v, n, g) == event_effect(v[n - 1], prev));
                assert(event_key(v[n - 1]) == fact_key((a, b, c)));
            },
            _ => {},
        }
        assert(events_effect(v, n, g).asserted =~= g.asserted.difference(events_keys(v, n)));
        assert(events_effect(v, n, g).main =~= g.main.difference(events_keys(v, n)));
    } else {
        assert(events_keys(v, n) =~= Set::<Key3>::empty());
    }
}

/// The changes of a load add exactly the keys of the triples that are not
/// asserted yet.
proof fn lemma_load_changes_keys(ts: Seq<Key3>, asserted: Set<Key3>)
    ensures
        events_keys(load_changes(ts, asserted), load_changes(ts, asserted).len() as int) == stored_keys(ts).difference(asserted),
    decreases ts.len(),
{
    let ch = load_changes(ts, asserted);
    if ts.len() > 0 {
        let rest = ts.drop_last();
        let chr = load_changes(rest, asserted);
        lemma_load_changes_keys(rest, asserted);
        assert(stored_keys(ts) =~= stored_keys(rest).insert(fact_key(ts.last()))) by {
            assert forall|k: Key3| stored_keys(ts).contains(k) implies stored_keys(rest).insert(fact_key(ts.last())).contains(k) by {
                let j = choose|j: int| 0 <= j < ts.len() && k == fact_key(#[trigger] ts[j]);
                if j < ts.len() - 1 {
                    assert(rest[j] == ts[j]);
                }
            }
            assert forall|k: Key3| stored_keys(rest).contains(k) implies stored_keys(ts).contains(k) by {
                let j = choose|j: int| 0 <= j < rest.len() && k == fact_key(#[trigger] rest[j]);
                assert(rest[j] == ts[j]);
            }
            assert(stored_keys(ts).contains(fact_key(ts[ts.len() - 1])));
        }
        assert forall|k: Key3| events_keys(ch, ch.len() as int).contains(k) <==> events_keys(chr, chr.len() as int).contains(k)
            || (!asserted.contains(fact_key(ts.last())) && k == fact_key(ts.last())) by {
            if events_keys(ch, ch.len() as int).contains(k) {
                let j = choose|j: int| 0 <= j < ch.len() && k == event_key(#[trigger] ch[j]);
                if j < chr.len() {
                    assert(ch[j] == chr[j]);
                }
            }
            if events_keys(chr, chr.len() as int).contains(k) {
                let j = choose|j: int| 0 <= j < chr.len() && k == event_key(#[trigger] chr[j]);
                assert(ch[j] == chr[j]);
            }
            if !asserted.contains(fact_key(ts.last())) && k == fact_key(ts.last()) {
                assert(event_key(ch[chr.len() as int]) == k);
            }
        }
        assert(events_keys(ch, ch.len() as int) =~= stored_keys(ts).difference(asserted));
    } else {
        assert(events_keys(ch, ch.len() as int) =~= Set::<Key3>::empty());
        assert(stored_keys(ts) =~= Set::<Key3>::empty());
    }
}

/// Asserting a triple that is neither asserted nor derived, then undoing
/// that, gives back the asserted and main triples.
pub proof fn law_add_then_undo(g: EditV, s: Seq<char>, p: Seq<char>, o: Seq<char>)
    requires
        !g.asserted.contains(fact_key((s, p, o))),
        !g.main.contains(fact_key((s, p, o))),
    ensures
        event_effect(reverse_view(EventV::Added(s, p, o)), event_effect(EventV::Added(s, p, o), g)).asserted == g.asserted,
        event_effect(reverse_view(EventV::Added(s, p, o)), event_effect(EventV::Added(s, p, o), g)).main == g.main,
{
    let k = fact_key((s, p, o));
    assert(g.asserted.insert(k).remove(k) =~= g.asserted);
    assert(g.main.insert(k).remove(k) =~= g.main);
}

/// Retracting an asserted triple, then undoing that, gives back the
/// asserted and main triples.
pub proof fn law_remove_then_undo(g: EditV, s: Seq<char>, p: Seq<char>, o: Seq<char>)
    requires
        g.asserted.contains(fact_key((s, p, o))),
        g.main.contains(fact_key((s, p, o))),
    ensures
        event_effect(reverse_view(EventV::Removed(s, p, o)), event_effect(EventV::Removed(s, p, o), g)).asserted == g.asserted,
        event_effect(reverse_view(EventV::Removed(s, p, o)), event_effect(EventV::Removed(s, p, o), g)).main == g.main,
{
    let k = fact_key((s, p, o));
    assert(g.asserted.remove(k).insert(k) =~= g.asserted);
    assert(g.main.remove(k).insert(k) =~= g.main);
}

/// Undoing an assertion and redoing it gives back the asserted and main
/// triples.
pub proof fn law_undo_then_redo_add(g: EditV, s: Seq<char>, p: Seq<char>, o: Seq<char>)
    requires
        g.asserted.contains(fact_key((s, p, o))),
        g.main.contains(fact_key((s, p, o))),
    ensures
        event_effect(EventV::Added(s, p, o), event_effect(reverse_view(EventV::Added(s, p, o)), g)).asserted == g.asserted,
        event_effect(EventV::Added(s, p, o), event_effect(reverse_view(EventV::Added(s, p, o)), g)).main == g.main,
{
    let k = fact_key((s, p, o));
    assert(g.asserted.remove(k).insert(k) =~= g.asserted);
    assert(g.main.remove(k).insert(k) =~= g.main);
}

/// Loading triples asserts every one of them: the asserted triples become
/// those asserted before and those loaded.
pub proof fn law_load_asserts_all(ks: Seq<Key3>, g: EditV)
    ensures
        event_effect(EventV::Batch(load_changes(ks, g.asserted)), g).asserted == g.asserted.union(stored_keys(ks)),
{
    let ch = load_changes(ks, g.asserted);
    lemma_load_changes_added(ks, g.asserted);
    assert forall|j: int| 0 <= j < ch.len() implies #[trigger] ch[j] is Added by {
        let x = choose|x: int| 0 <= x < ks.len() && #[trigger] ch[j] == EventV::Added(ks[x].0, ks[x].1, ks[x].2);
    }
    lemma_adds_effect(ch, ch.len() as int, g);
    lemma_load_changes_keys(ks, g.asserted);
    assert(g.asserted.union(stored_keys(ks).difference(g.asserted)) =~= g.asserted.union(stored_keys(ks)));
}

/// Undoing a load gives back the asserted triples.
pub proof fn law_undo_load(ks: Seq<Key3>, g: EditV)
    ensures
        ({
            let batch = EventV::Batch(load_changes(ks, g.asserted));
            event_effect(reverse_view(batch), event_effect(batch, g)).asserted == g.asserted
        }),
{
    let ch = load_changes(ks, g.asserted);
    let n = ch.len() as int;
    let batch = EventV::Batch(ch);
    lemma_load_changes_added(ks, g.asserted);
    assert forall|j: int| 0 <= j < n implies #[trigger] ch[j] is Added by {
        let x = choose|x: int| 0 <= x < ks.len() && #[trigger] ch[j] == EventV::Added(ks[x].0, ks[x].1, ks[x].2);
    }
    lemma_adds_effect(ch, n, g);
    lemma_load_changes_keys(ks, g.asserted);
    let g1 = event_effect(batch, g);
    let rv = reverse_view(batch)->Batch_0;
    assert(rv.len() == n);
    assert forall|j: int| 0 <= j < n implies #[trigger] rv[j] is Removed && event_key(rv[j]) == event_key(ch[n - 1 - j]) by {
        assert(rv[j] == reverse_view(ch[n - 1 - j]));
        assert(ch[n - 1 - j] is Added);
    }
    lemma_removes_effect(rv, n, g1);
    assert(events_keys(rv, n) =~= events_keys(ch, n)) by {
        assert forall|k: Key3| events_keys(rv, n).contains(k) implies events_keys(ch, n).contains(k) by {
            let j = choose|j: int| 0 <= j < n && k == event_key(#[trigger] rv[j]);
            assert(event_key(rv[j]) == event_key(ch[n - 1 - j]));
        }
        assert forall|k: Key3| events_keys(ch, n).contains(k) implies events_keys(rv, n).contains(k) by {
            let j = choose|j: int| 0 <= j < n && k == event_key(#[trigger] ch[j]);
            assert(event_key(rv[n - 1 - j]) == event_key(ch[n - 1 - (n - 1 - j)]));
        }
    }
    assert(g.asserted.union(stored_keys(ks).difference(g.asserted)).difference(stored_keys(ks).difference(g.asserted)) =~= g.asserted);
}

/// One undo reverts a whole load: after a load that added new triples, an
/// undo whose result `r` and manager `m2` meet what `undo` promises
/// succeeds, the asserted triples are those before the load, none of the
/// loaded triples is left in the main triples, and the load's batch is the
/// one change that can be redone.
pub proof fn law_undo_reverts_load(m0: DarkstarManager, m1: DarkstarManager, m2: DarkstarManager, ks: Seq<Key3>, r: Result<(), StoreError>)
    requires
        load_outcome(m0, m1, ks, Ok(())),
        load_changes(ks, m0.edit().asserted).len() > 0,
        m2.history@ == history_pop_undo(m1.history@).0,
        ({
            let e = history_pop_undo(m1.history@).1->0;
            &&& (r == Err::<(), StoreError>(StoreError::InvalidTerm) <==> !event_valid(e))
            &&& (event_valid(e) && !event_adds(reverse_view(e)) ==> r is Ok)
            &&& (r is Ok ==> m2.edit() == event_effect(reverse_view(e), m1.edit()))
        }),
    ensures
        r is Ok,
        m2.edit().asserted == m0.edit().asserted,
        forall|f: Key3| stored_keys(ks).difference(m0.edit().asserted).contains(f) ==> !#[trigger] m2.edit().main.contains(f),
        m2.history@ == (HistoryV { undo: m0.history@.undo, redo: seq![EventV::Batch(load_changes(ks, m0.edit().asserted))] }),
{
    let g = m0.edit();
    let ch = load_changes(ks, g.asserted);
    let n = ch.len() as int;
    let batch = EventV::Batch(ch);
    assert(m1.history@.undo.last() == batch);
    assert(m1.history@.undo.drop_last() =~= m0.history@.undo);
    assert(history_pop_undo(m1.history@).0.redo =~= seq![batch]);
    lemma_load_changes_added(ks, g.asserted);
    assert forall|j: int| 0 <= j < n implies #[trigger] ch[j] is Added by {
        let x = choose|x: int| 0 <= x < ks.len() && #[trigger] ch[j] == EventV::Added(ks[x].0, ks[x].1, ks[x].2);
    }
    assert forall|j: int| 0 <= j < n implies #[trigger] event_valid(ch[j]) by {
        let x = choose|x: int| 0 <= x < ks.len() && #[trigger] ch[j] == EventV::Added(ks[x].0, ks[x].1, ks[x].2);
        if !fact_valid(ks[x]) {
            assert(exists|i: int| 0 <= i < ks.len() && !fact_valid(#[trigger] ks[i]));
        }
    }
    lemma_events_valid_each(ch, n);
    let rv = reverse_view(batch)->Batch_0;
    assert(rv.len() == n);
    assert forall|j: int| 0 <= j < n implies #[trigger] rv[j] is Removed && event_key(rv[j]) == event_key(ch[n - 1 - j]) by {
        assert(rv[j] == reverse_view(ch[n - 1 - j]));
        assert(ch[n - 1 - j] is Added);
    }
    assert forall|j: int| 0 <= j < n implies !#[trigger] event_adds(rv[j]) by {
        assert(rv[j] is Removed);
    }
    lemma_events_add_each(rv, n);
    assert(!event_adds(reverse_view(batch)));
    lemma_adds_effect(ch, n, g);
    lemma_load_changes_keys(ks, g.asserted);
    let g1 = m1.edit();
    assert(g1.asserted == event_effect(batch, g).asserted);
    lemma_removes_effect(rv, n, g1);
    assert(events_keys(rv, n) =~= events_keys(ch, n)) by {
        assert forall|k: Key3| events_keys(rv, n).contains(k) implies events_keys(ch, n).contains(k) by {
            let j = choose|j: int| 0 <= j < n && k == event_key(#[trigger] rv[j]);
            assert(event_key(rv[j]) == event_key(ch[n - 1 - j]));
        }
        assert forall|k: Key3| events_keys(ch, n).contains(k) implies events_keys(rv, n).contains(k) by {
            let j = choose|j: int| 0 <= j < n && k == event_key(#[trigger] ch[j]);
            assert(event_key(rv[n - 1 - j]) == event_key(ch[n - 1 - (n - 1 - j)]));
        }
    }
    assert(g.asserted.union(stored_keys(ks).difference(g.asserted)).difference(stored_keys(ks).difference(g.asserted)) =~= g.asserted);
}

/// The history after the changes `es` were recorded one after another.
pub open spec fn pushed_all(h: HistoryV, es: Seq<EventV>) -> HistoryV
    decreases es.len(),
{
    if es.len() == 0 {
        h
    } else {
        history_push(pushed_all(h, es.drop_last()), es.last())
    }
}

/// The keys of the triples that the changes `es` are about, in order.
pub open spec fn event_keys(es: Seq<EventV>) -> Seq<Key3> {
    es.map_values(|e: EventV| event_key(e))
}

/// Whether `es` are removals of triples of `r`, each triple of `r` removed
/// by one of them and no triple by two.
pub open spec fn removals_cover(es: Seq<EventV>, r: Set<Key3>) -> bool {
    &&& forall|i: int| 0 <= i < es.len() ==> #[trigger] es[i] is Removed && r.contains(event_key(es[i]))
    &&& forall|f: Key3| #[trigger] r.contains(f) ==> exists|i: int| 0 <= i < es.len() && event_key(es[i]) == f
    &&& event_keys(es).no_duplicates()
}

/// Whether `es` are removals, exactly one for each triple of `r`.
pub open spec fn removals_of(es: Seq<EventV>, r: Set<Key3>) -> bool {
    &&& removals_cover(es, r)
    &&& r.finite()
    &&& es.len() == r.len()
}

/// Removals that cover a set, each triple once, are as many as its triples.
proof fn lemma_removals_count(es: Seq<EventV>, r: Set<Key3>)
    requires
        removals_cover(es, r),
    ensures
        removals_of(es, r),
{
    let ks = event_keys(es);
    assert(ks.to_set() =~= r) by {
        assert forall|f: Key3| ks.to_set().contains(f) implies r.contains(f) by {
            let i = choose|i: int| 0 <= i < ks.len() && ks[i] == f;
            assert(r.contains(event_key(es[i])));
        }
        assert forall|f: Key3| r.contains(f) implies ks.to_set().contains(f) by {
            let i = choose|i: int| 0 <= i < es.len() && event_key(es[i]) == f;
            assert(ks[i] == f);
        }
    }
    ks.unique_seq_to_set();
}

/// The triples of `t` in which `k` is the subject or the object.
pub open spec fn touching(t: Set<Key3>, k: Seq<char>) -> Set<Key3> {
    t.filter(|f: Key3| f.0 == k || f.2 == k)
}

/// The triples of `t` that give the subject `k` a label.
pub open spec fn labels_of(t: Set<Key3>, k: Seq<char>) -> Set<Key3> {
    t.filter(|f: Key3| f.0 == k && f.1 == iri_key(RDFS_LABEL))
}

/// The effect of removing the triples `r`: they leave the asserted and main
/// triples, and reasoning is due where there was one.
pub open spec fn removal_effect(g: EditV, r: Set<Key3>) -> EditV {
    EditV {
        asserted: g.asserted.difference(r),
        main: g.main.difference(r),
        delta: g.delta,
        dirty: g.dirty || exists|f: Key3| r.contains(f),
    }
}

/// Whether the triple of `t` is one the filter selects: it has the key `k`
/// as subject (and, where `label`, the label predicate), or, where not
/// `label`, as object.
pub open spec fn selected(t: TermTriple, k: Seq<char>, label: bool) -> bool {
    if label {
        term_key(t.s) == k && term_key(t.p) == iri_key(RDFS_LABEL)
    } else {
        term_key(t.s) == k || term_key(t.o) == k
    }
}

impl DarkstarManager {
    /// Retracts, as a change of its own each, every listed triple that the
    /// filter selects.
    fn remove_selected(&mut self, ts: &Vec<TermTriple>, k: &String, label: bool) -> (es: Ghost<Seq<EventV>>)
        requires
            forall|i: int| 0 <= i < ts@.len() ==> triple_valid(#[trigger] ts@[i]),
            ts@.map_values(|t: TermTriple| triple_key(t)).no_duplicates(),
        ensures
            final(self).edit() == removal_effect(old(self).edit(),
                Set::new(|f: Key3| exists|i: int| 0 <= i < ts@.len() && selected(ts@[i], k@, label) && #[trigger] triple_key(ts@[i]) == f)),
            final(self).same_apart_from_edit(old(self)),
            final(self).history@ == pushed_all(old(self).history@, es@),
            removals_of(es@, Set::new(|f: Key3| exists|i: int| 0 <= i < ts@.len() && selected(ts@[i], k@, label) && #[trigger] triple_key(ts@[i]) == f)),
    {
        let ghost g0 = self.edit();
        let ghost h0 = self.history@;
        let ghost mut es: Seq<EventV> = Seq::empty();
        let n = ts.len();
        let mut i: usize = 0;
        proof {
            let r0 = Set::new(|f: Key3| exists|j: int| 0 <= j < 0 && selected(ts@[j], k@, label) && #[trigger] triple_key(ts@[j]) == f);
            assert(g0.asserted.difference(r0) =~= g0.asserted);
            assert(g0.main.difference(r0) =~= g0.main);
            assert(removal_effect(g0, r0) == g0);
            assert(event_keys(es) =~= Seq::<Key3>::empty());
            assert(removals_cover(es, r0));
        }
        while i < n
            invariant
                i <= n,
                n == ts@.len(),
                forall|j: int| 0 <= j < ts@.len() ==> triple_valid(#[trigger] ts@[j]),
                ts@.map_values(|t: TermTriple| triple_key(t)).no_duplicates(),
                self.edit() == removal_effect(g0,
                    Set::new(|f: Key3| exists|j: int| 0 <= j < i && selected(ts@[j], k@, label) && #[trigger] triple_key(ts@[j]) == f)),
                self.same_apart_from_edit(old(self)),
                self.history@ == pushed_all(h0, es),
                removals_cover(es, Set::new(|f: Key3| exists|j: int| 0 <= j < i && selected(ts@[j], k@, label) && #[trigger] triple_key(ts@[j]) == f)),
            decreases n - i,
        {
            let ghost ri = Set::new(|f: Key3| exists|j: int| 0 <= j < i && selected(ts@[j], k@, label) && #[trigger] triple_key(ts@[j]) == f);
            let ghost rn = Set::new(|f: Key3| exists|j: int| 0 <= j < i + 1 && selected(ts@[j], k@, label) && #[trigger] triple_key(ts@[j]) == f);
            let t = &ts[i];
            let sk = t.s.key();
            let ok = t.o.key();
            let pick = if label {
                sk == *k && t.p.same(&iri(RDFS_LABEL))
            } else {
                sk == *k || ok == *k
            };
            if pick {
                let pk = t.p.key();
                proof {
                    lemma_term_key_tagged(t.s);
                    lemma_term_key_tagged(t.p);
                    lemma_term_key_tagged(t.o);
                    lemma_key_valid(t.s);
                    lemma_key_valid(t.p);
                    lemma_key_valid(t.o);
                }
                let r = self.remove_assertion(sk, pk, ok);
                proof {
                    let f = triple_key(ts@[i as int]);
                    assert(fact_key((term_key(t.s), term_key(t.p), term_key(t.o))) == f);
                    assert(rn =~= ri.insert(f));
                    let e = EventV::Removed(term_key(t.s), term_key(t.p), term_key(t.o));
                    assert(event_key(e) == f);
                    let prev = es;
                    es = es.push(e);
                    assert(es.drop_last() =~= prev);
                    assert(self.edit().asserted =~= removal_effect(g0, rn).asserted);
                    assert(self.edit().main =~= removal_effect(g0, rn).main);
                    assert(rn.contains(f));
                    assert(self.edit() == removal_effect(g0, rn));
                    assert forall|x: int| 0 <= x < es.len() implies #[trigger] es[x] is Removed && rn.contains(event_key(es[x])) by {
                        if x < es.len() - 1 {
                            assert(ri.contains(event_key(es[x])));
                        }
                    }
                    assert(!ri.contains(f)) by {
                        if ri.contains(f) {
                            let j = choose|j: int| 0 <= j < i && selected(ts@[j], k@, label) && #[trigger] triple_key(ts@[j]) == f;
                            let tk = ts@.map_values(|t: TermTriple| triple_key(t));
                            assert(tk[j] == tk[i as int]);
                        }
                    }
                    assert(event_keys(es) =~= event_keys(prev).push(f));
                    assert forall|p: int, q: int| 0 <= p < q < event_keys(es).len() implies event_keys(es)[p] != event_keys(es)[q] by {
                        if q == es.len() - 1 {
                            assert(event_keys(es)[p] == event_key(prev[p]));
                            assert(ri.contains(event_key(prev[p])));
                        } else {
                            assert(event_keys(es)[p] == event_keys(prev)[p]);
                            assert(event_keys(es)[q] == event_keys(prev)[q]);
                        }
                    }
                    assert forall|g: Key3| #[trigger] rn.contains(g) implies exists|x: int| 0 <= x < es.len() && event_key(es[x]) == g by {
                        if g == f {
                            assert(event_key(es[es.len() - 1]) == g);
                        } else {
                            assert(ri.contains(g));
                            let x = choose|x: int| 0 <= x < es.len() - 1 && event_key(es[x]) == g;
                            assert(event_key(es[x]) == g);
                        }
                    }
                }
            } else {
                proof {
                    assert(rn =~= ri);
                }
            }
            i += 1;
        }
        proof {
            lemma_removals_count(es, Set::new(|f: Key3| exists|j: int| 0 <= j < n && selected(ts@[j], k@, label) && #[trigger] triple_key(ts@[j]) == f));
        }
        Ghost(es)
    }
}

impl DarkstarManager {
    /// Deletes an entity: retracts every asserted triple in which `uri` is
    /// the subject or the object, each as a change of its own.
    pub fn delete_entity(&mut self, uri: &str)
        ensures
            final(self).edit() == removal_effect(old(self).edit(), touching(old(self).edit().asserted, canon(uri@))),
            final(self).same_apart_from_edit(old(self)),
            exists|es: Seq<EventV>| final(self).history@ == pushed_all(old(self).history@, es)
                && removals_of(es, touching(old(self).edit().asserted, canon(uri@))),
    {
        let ghost a0 = self.edit().asserted;
        let k = InferenceEngine::make_term(uri).key();
        let all = graph_match(&self.memory.asserted_graph, None, None, None);
        assert forall|i: int| 0 <= i < all@.len() implies triple_valid(#[trigger] all@[i]) by {
            assert(graph_facts(self.memory.asserted_graph).contains(triple_key(all@[i])));
        }
        let es = self.remove_selected(&all, &k, false);
        proof {
            let sel = Set::new(|f: Key3| exists|i: int| 0 <= i < all@.len() && selected(all@[i], k@, false) && #[trigger] triple_key(all@[i]) == f);
            assert forall|f: Key3| sel.contains(f) <==> #[trigger] touching(a0, k@).contains(f) by {
                if sel.contains(f) {
                    let i = choose|i: int| 0 <= i < all@.len() && selected(all@[i], k@, false) && #[trigger] triple_key(all@[i]) == f;
                    assert(a0.contains(triple_key(all@[i])));
                }
                if touching(a0, k@).contains(f) {
                    assert(fact_matches(f, None, None, None));
                    let i = choose|i: int| 0 <= i < all@.len() && triple_key(all@[i]) == f;
                    assert(selected(all@[i], k@, false));
                }
            }
            assert(sel =~= touching(a0, k@));
        }
    }

    /// Gives `uri` the label `text`: its asserted labels are retracted, each
    /// as a change of its own, and the literal `text` is asserted as its
    /// label. Nothing changes where `uri` does not denote a term that can be
    /// stored.
    pub fn set_label(&mut self, uri: &str, text: &str) -> (r: Result<(), StoreError>)
        ensures
            r == Err::<(), StoreError>(StoreError::InvalidTerm) <==> !fact_valid((uri@, RDFS_LABEL@, literal_tag() + text@)),
            !fact_valid((uri@, RDFS_LABEL@, literal_tag() + text@)) ==> *final(self) == *old(self),
            r is Ok ==> final(self).edit() == add_effect(
                removal_effect(old(self).edit(), labels_of(old(self).edit().asserted, canon(uri@))),
                fact_key((uri@, RDFS_LABEL@, literal_tag() + text@)),
            ),
            fact_valid((uri@, RDFS_LABEL@, literal_tag() + text@)) ==> exists|es: Seq<EventV>| {
                &&& final(self).history@ == history_push(pushed_all(old(self).history@, es), EventV::Added(uri@, RDFS_LABEL@, literal_tag() + text@))
                &&& removals_of(es, labels_of(old(self).edit().asserted, canon(uri@)))
            },
            final(self).same_apart_from_edit(old(self)),
    {
        proof {
            reveal_strlit("l:");
        }
        let mut lit = "l:".to_owned();
        lit.append(text);
        let label = RDFS_LABEL.to_owned();
        let subject = uri.to_owned();
        if !Self::check_fact(&subject, &label, &lit) {
            return Err(StoreError::InvalidTerm);
        }
        let ghost a0 = self.edit().asserted;
        let term = InferenceEngine::make_term(uri);
        let k = term.key();
        let lt = iri(RDFS_LABEL);
        proof {
            reveal_strlit("http://www.w3.org/2000/01/rdf-schema#label");
            assert(RDFS_LABEL@[0] == 'h');
            assert((seq!['i', ':'] + RDFS_LABEL@).subrange(2, RDFS_LABEL@.len() as int + 2) =~= RDFS_LABEL@);
        }
        let found = graph_match(&self.memory.asserted_graph, Some(&term), Some(&lt), None);
        assert forall|i: int| 0 <= i < found@.len() implies triple_valid(#[trigger] found@[i]) by {
            assert(graph_facts(self.memory.asserted_graph).contains(triple_key(found@[i])));
        }
        let es = self.remove_selected(&found, &k, true);
        proof {
            let sel = Set::new(|f: Key3| exists|i: int| 0 <= i < found@.len() && selected(found@[i], k@, true) && #[trigger] triple_key(found@[i]) == f);
            assert forall|f: Key3| sel.contains(f) <==> #[trigger] labels_of(a0, k@).contains(f) by {
                if sel.contains(f) {
                    let i = choose|i: int| 0 <= i < found@.len() && selected(found@[i], k@, true) && #[trigger] triple_key(found@[i]) == f;
                    assert(a0.contains(triple_key(found@[i])));
                }
                if labels_of(a0, k@).contains(f) {
                    assert(fact_matches(f, Some(&term), Some(&lt), None));
                    let i = choose|i: int| 0 <= i < found@.len() && triple_key(found@[i]) == f;
                    assert(selected(found@[i], k@, true));
                }
            }
            assert(sel =~= labels_of(a0, k@));
            assert(lit@ =~= literal_tag() + text@);
        }
        let ghost mid = self.edit();
        let ghost h1 = self.history@;
        let r = self.add_assertion(subject, label, lit);
        proof {
            assert(h1 == pushed_all(old(self).history@, es@));
            assert(self.history@ == history_push(pushed_all(old(self).history@, es@), EventV::Added(uri@, RDFS_LABEL@, literal_tag() + text@)));
        }
        r
    }

    /// Replaces the object of an asserted triple: the triple with `old_o`
    /// is retracted and the one with `new_o` asserted, as two changes.
    /// Nothing changes where a string does not denote a term that can be
    /// stored.
    pub fn modify_assertion(&mut self, s: String, p: String, old_o: String, new_o: String) -> (r: Result<(), StoreError>)
        ensures
            r == Err::<(), StoreError>(StoreError::InvalidTerm) <==> !(fact_valid((s@, p@, old_o@)) && fact_valid((s@, p@, new_o@))),
            !(fact_valid((s@, p@, old_o@)) && fact_valid((s@, p@, new_o@))) ==> *final(self) == *old(self),
            r is Ok ==> final(self).edit() == add_effect(remove_effect(old(self).edit(), fact_key((s@, p@, old_o@))), fact_key((s@, p@, new_o@))),
            fact_valid((s@, p@, old_o@)) && fact_valid((s@, p@, new_o@)) ==> final(self).history@ == history_push(
                history_push(old(self).history@, EventV::Removed(s@, p@, old_o@)),
                EventV::Added(s@, p@, new_o@),
            ),
            final(self).same_apart_from_edit(old(self)),
    {
        if !(Self::check_fact(&s, &p, &old_o) && Self::check_fact(&s, &p, &new_o)) {
            return Err(StoreError::InvalidTerm);
        }
        let removed = self.remove_assertion(s.clone(), p.clone(), old_o);
        self.add_assertion(s, p, new_o)
    }
}

/// Deleting an entity leaves no asserted triple that mentions it, and
/// keeps every other asserted triple.
pub proof fn law_delete_leaves_no_mention(g: EditV, k: Seq<char>)
    ensures
        forall|f: Key3| #[trigger] removal_effect(g, touching(g.asserted, k)).asserted.contains(f)
            <==> g.asserted.contains(f) && f.0 != k && f.2 != k,
{
}

/// Undoing the removals of a deletion, the most recent first, gives back
/// the asserted triples.
pub proof fn law_undo_delete(g: EditV, k: Seq<char>, es: Seq<EventV>)
    requires
        removals_of(es, touching(g.asserted, k)),
    ensures
        ({
            let back = Seq::new(es.len(), |i: int| reverse_view(es[es.len() - 1 - i]));
            events_effect(back, back.len() as int, removal_effect(g, touching(g.asserted, k))).asserted == g.asserted
        }),
{
    let r = touching(g.asserted, k);
    let back = Seq::new(es.len(), |i: int| reverse_view(es[es.len() - 1 - i]));
    let n = back.len() as int;
    assert forall|j: int| 0 <= j < n implies #[trigger] back[j] is Added && event_key(back[j]) == event_key(es[es.len() - 1 - j]) by {
        assert(es[es.len() - 1 - j] is Removed);
    }
    lemma_adds_effect(back, n, removal_effect(g, r));
    assert(events_keys(back, n) =~= r) by {
        assert forall|f: Key3| events_keys(back, n).contains(f) implies r.contains(f) by {
            let j = choose|j: int| 0 <= j < n && f == event_key(#[trigger] back[j]);
            assert(event_key(back[j]) == event_key(es[es.len() - 1 - j]));
        }
        assert forall|f: Key3| r.contains(f) implies events_keys(back, n).contains(f) by {
            let i = choose|i: int| 0 <= i < es.len() && event_key(es[i]) == f;
            assert(event_key(back[es.len() - 1 - i]) == event_key(es[i]));
        }
    }
    assert(g.asserted.difference(r).union(r) =~= g.asserted);
}

/// After a label is set, the entity has that label and no other asserted
/// one.
pub proof fn law_set_label_single(g: EditV, uri: Seq<char>, text: Seq<char>)
    ensures
        ({
            let k = canon(uri);
            let lit = literal_tag() + text;
            let after = add_effect(removal_effect(g, labels_of(g.asserted, k)), fact_key((uri, RDFS_LABEL@, lit)));
            labels_of(after.asserted, k) == set![fact_key((uri, RDFS_LABEL@, lit))]
        }),
{
    reveal_strlit("http://www.w3.org/2000/01/rdf-schema#label");
    let k = canon(uri);
    let lit = literal_tag() + text;
    let f = fact_key((uri, RDFS_LABEL@, lit));
    assert(RDFS_LABEL@[0] == 'h');
    assert(canon(RDFS_LABEL@) == iri_key(RDFS_LABEL));
    let after = add_effect(removal_effect(g, labels_of(g.asserted, k)), f);
    assert(labels_of(after.asserted, k) =~= set![f]);
}

} // verus!
