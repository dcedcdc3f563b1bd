pub mod engine;
pub mod lists;
pub mod compound;

use vstd::prelude::*;
use crate::graph::{
    check_iri, fact_matches, graph_facts, graph_match, query_valid, term_valid, triple_key, Key3,
    TermTriple, TripleGraph,
};
use crate::memory::{fact_view, Fact, Inconsistency};
use crate::term::{term_key, RdfTerm};

verus! {

// Standard ontology URIs
pub const RDF_TYPE: &'static str = "http://www.w3.org/1999/02/22-rdf-syntax-ns#type";
pub const RDFS_SUBCLASS_OF: &'static str = "http://www.w3.org/2000/01/rdf-schema#subClassOf";
pub const RDFS_SUBPROPERTY_OF: &'static str = "http://www.w3.org/2000/01/rdf-schema#subPropertyOf";
pub const OWL_TRANSITIVE_PROPERTY: &'static str = "http://www.w3.org/2002/07/owl#TransitiveProperty";
pub const RDFS_DOMAIN: &'static str = "http://www.w3.org/2000/01/rdf-schema#domain";
pub const RDFS_RANGE: &'static str = "http://www.w3.org/2000/01/rdf-schema#range";
pub const OWL_INVERSE_OF: &'static str = "http://www.w3.org/2002/07/owl#inverseOf";
pub const OWL_SAME_AS: &'static str = "http://www.w3.org/2002/07/owl#sameAs";
pub const OWL_EQUIVALENT_CLASS: &'static str = "http://www.w3.org/2002/07/owl#equivalentClass";
pub const OWL_IRREFLEXIVE_PROPERTY: &'static str = "http://www.w3.org/2002/07/owl#IrreflexiveProperty";
pub const OWL_ASYMMETRIC_PROPERTY: &'static str = "http://www.w3.org/2002/07/owl#AsymmetricProperty";
pub const OWL_DIFFERENT_FROM: &'static str = "http://www.w3.org/2002/07/owl#differentFrom";
pub const OWL_PROPERTY_CHAIN_AXIOM: &'static str = "http://www.w3.org/2002/07/owl#propertyChainAxiom";
pub const RDF_FIRST: &'static str = "http://www.w3.org/1999/02/22-rdf-syntax-ns#first";
pub const RDF_REST: &'static str = "http://www.w3.org/1999/02/22-rdf-syntax-ns#rest";
pub const RDF_NIL: &'static str = "http://www.w3.org/1999/02/22-rdf-syntax-ns#nil";
pub const OWL_INTERSECTION_OF: &'static str = "http://www.w3.org/2002/07/owl#intersectionOf";
pub const OWL_UNION_OF: &'static str = "http://www.w3.org/2002/07/owl#unionOf";
pub const OWL_ON_PROPERTY: &'static str = "http://www.w3.org/2002/07/owl#onProperty";
pub const OWL_SOME_VALUES_FROM: &'static str = "http://www.w3.org/2002/07/owl#someValuesFrom";
pub const OWL_ALL_VALUES_FROM: &'static str = "http://www.w3.org/2002/07/owl#allValuesFrom";
pub const OWL_HAS_KEY: &'static str = "http://www.w3.org/2002/07/owl#hasKey";
pub const OWL_DISJOINT_WITH: &'static str = "http://www.w3.org/2002/07/owl#disjointWith";
pub const OWL_NOTHING: &'static str = "http://www.w3.org/2002/07/owl#Nothing";
pub const OWL_SOURCE_INDIVIDUAL: &'static str = "http://www.w3.org/2002/07/owl#sourceIndividual";
pub const OWL_ASSERTION_PROPERTY: &'static str = "http://www.w3.org/2002/07/owl#assertionProperty";
pub const OWL_TARGET_INDIVIDUAL: &'static str = "http://www.w3.org/2002/07/owl#targetIndividual";
pub const OWL_TARGET_VALUE: &'static str = "http://www.w3.org/2002/07/owl#targetValue";

/// The key of the IRI with the given text.
pub open spec fn iri_key(s: &str) -> Seq<char> {
    crate::term::iri_tag() + s@
}

/// Whether every IRI of the vocabulary above is accepted as an IRI.
pub open spec fn vocab_valid() -> bool {
    &&& crate::graph::iri_valid(RDF_TYPE@)
    &&& crate::graph::iri_valid(RDFS_SUBCLASS_OF@)
    &&& crate::graph::iri_valid(RDFS_SUBPROPERTY_OF@)
    &&& crate::graph::iri_valid(OWL_TRANSITIVE_PROPERTY@)
    &&& crate::graph::iri_valid(RDFS_DOMAIN@)
    &&& crate::graph::iri_valid(RDFS_RANGE@)
    &&& crate::graph::iri_valid(OWL_INVERSE_OF@)
    &&& crate::graph::iri_valid(OWL_SAME_AS@)
    &&& crate::graph::iri_valid(OWL_EQUIVALENT_CLASS@)
    &&& crate::graph::iri_valid(OWL_IRREFLEXIVE_PROPERTY@)
    &&& crate::graph::iri_valid(OWL_ASYMMETRIC_PROPERTY@)
    &&& crate::graph::iri_valid(OWL_DIFFERENT_FROM@)
    &&& crate::graph::iri_valid(OWL_PROPERTY_CHAIN_AXIOM@)
    &&& crate::graph::iri_valid(RDF_FIRST@)
    &&& crate::graph::iri_valid(RDF_REST@)
    &&& crate::graph::iri_valid(OWL_INTERSECTION_OF@)
    &&& crate::graph::iri_valid(OWL_UNION_OF@)
    &&& crate::graph::iri_valid(OWL_ON_PROPERTY@)
    &&& crate::graph::iri_valid(OWL_SOME_VALUES_FROM@)
    &&& crate::graph::iri_valid(OWL_ALL_VALUES_FROM@)
    &&& crate::graph::iri_valid(OWL_HAS_KEY@)
    &&& crate::graph::iri_valid(OWL_DISJOINT_WITH@)
    &&& crate::graph::iri_valid(OWL_NOTHING@)
    &&& crate::graph::iri_valid(OWL_SOURCE_INDIVIDUAL@)
    &&& crate::graph::iri_valid(OWL_ASSERTION_PROPERTY@)
    &&& crate::graph::iri_valid(OWL_TARGET_INDIVIDUAL@)
    &&& crate::graph::iri_valid(OWL_TARGET_VALUE@)
}

/// Checks that every IRI of the vocabulary is accepted as an IRI.
pub fn check_vocabulary() -> (r: bool)
    ensures
        r == vocab_valid(),
{
    check_iri(RDF_TYPE) && check_iri(RDFS_SUBCLASS_OF) && check_iri(RDFS_SUBPROPERTY_OF)
        && check_iri(OWL_TRANSITIVE_PROPERTY) && check_iri(RDFS_DOMAIN) && check_iri(RDFS_RANGE)
        && check_iri(OWL_INVERSE_OF) && check_iri(OWL_SAME_AS) && check_iri(OWL_EQUIVALENT_CLASS)
        && check_iri(OWL_IRREFLEXIVE_PROPERTY) && check_iri(OWL_ASYMMETRIC_PROPERTY)
        && check_iri(OWL_DIFFERENT_FROM) && check_iri(OWL_PROPERTY_CHAIN_AXIOM) && check_iri(RDF_FIRST)
        && check_iri(RDF_REST) && check_iri(OWL_INTERSECTION_OF) && check_iri(OWL_UNION_OF)
        && check_iri(OWL_ON_PROPERTY) && check_iri(OWL_SOME_VALUES_FROM) && check_iri(OWL_ALL_VALUES_FROM)
        && check_iri(OWL_HAS_KEY) && check_iri(OWL_DISJOINT_WITH) && check_iri(OWL_NOTHING)
        && check_iri(OWL_SOURCE_INDIVIDUAL) && check_iri(OWL_ASSERTION_PROPERTY)
        && check_iri(OWL_TARGET_INDIVIDUAL) && check_iri(OWL_TARGET_VALUE)
}

/// The IRI term with the given text.
pub fn iri(s: &str) -> (r: RdfTerm)
    ensures
        term_key(r) == iri_key(s),
        term_valid(r) == crate::graph::iri_valid(s@),
{
    RdfTerm::Iri(s.to_owned())
}

/// Whether a list of facts holds a fact with the given strings.
pub open spec fn facts_have(out: Seq<Fact>, f: Key3) -> bool {
    exists|i: int| 0 <= i < out.len() && #[trigger] fact_view(out[i]) == f
}

/// Whether the facts of `out` from position `from` on hold one with the given
/// strings.
pub open spec fn facts_have_from(out: Seq<Fact>, from: int, f: Key3) -> bool {
    exists|i: int| from <= i < out.len() && #[trigger] fact_view(out[i]) == f
}

/// Where a string of a derived fact comes from: the subject, predicate or
/// object of the triple being considered, of the triple that matched a
/// query, or a fixed text.
pub enum Slot {
    DS,
    DP,
    DO,
    MS,
    MP,
    MO,
    Text(String),
}

/// The string that a slot stands for, given the considered triple `d` and
/// the matched triple `m`.
pub open spec fn slot_value(sl: Slot, d: Key3, m: Key3) -> Seq<char> {
    match sl {
        Slot::DS => d.0,
        Slot::DP => d.1,
        Slot::DO => d.2,
        Slot::MS => m.0,
        Slot::MP => m.1,
        Slot::MO => m.2,
        Slot::Text(s) => s@,
    }
}

/// The fact that three slots build.
pub open spec fn built(ts: Slot, tp: Slot, to: Slot, d: Key3, m: Key3) -> Key3 {
    (slot_value(ts, d, m), slot_value(tp, d, m), slot_value(to, d, m))
}

fn slot_string(sl: &Slot, d: &Fact, m: &Fact) -> (r: String)
    ensures
        r@ == slot_value(*sl, fact_view(*d), fact_view(*m)),
{
    match sl {
        Slot::DS => d.s.clone(),
        Slot::DP => d.p.clone(),
        Slot::DO => d.o.clone(),
        Slot::MS => m.s.clone(),
        Slot::MP => m.p.clone(),
        Slot::MO => m.o.clone(),
        Slot::Text(s) => s.clone(),
    }
}

/// The keys of a triple of terms, as a fact.
pub fn triple_fact(t: &TermTriple) -> (r: Fact)
    ensures
        fact_view(r) == triple_key(*t),
{
    Fact { s: t.s.key(), p: t.p.key(), o: t.o.key() }
}

/// Queries `main` with a pattern and, for every triple `m` that matches,
/// appends the fact that the slots build from `d` and `m`.
pub fn emit_matches(
    main: &TripleGraph,
    qs: Option<&RdfTerm>,
    qp: Option<&RdfTerm>,
    qo: Option<&RdfTerm>,
    d: &Fact,
    ts: &Slot,
    tp: &Slot,
    to: &Slot,
    out: &mut Vec<Fact>,
)
    requires
        query_valid(qs),
        query_valid(qp),
        query_valid(qo),
    ensures
        final(out)@.len() >= old(out)@.len(),
        forall|i: int| 0 <= i < old(out)@.len() ==> #[trigger] final(out)@[i] == old(out)@[i],
        forall|f: Key3| facts_have_from(final(out)@, old(out)@.len() as int, f) <==> exists|m: Key3|
            #[trigger] graph_facts(*main).contains(m) && fact_matches(m, qs, qp, qo) && f == built(*ts, *tp, *to, fact_view(*d), m),
{
    let results = graph_match(main, qs, qp, qo);
    let ghost start = out@.len() as int;
    let ghost dv = fact_view(*d);
    let n = results.len();
    let mut k: usize = 0;
    while k < n
        invariant
            k <= n,
            n == results@.len(),
            out@.len() == start + k,
            forall|i: int| 0 <= i < start ==> #[trigger] out@[i] == old(out)@[i],
            start == old(out)@.len(),
            dv == fact_view(*d),
            forall|j: int| 0 <= j < k ==> #[trigger] fact_view(out@[start + j]) == built(*ts, *tp, *to, dv, triple_key(results@[j])),
        decreases n - k,
    {
        let mf = triple_fact(&results[k]);
        let f = Fact { s: slot_string(ts, d, &mf), p: slot_string(tp, d, &mf), o: slot_string(to, d, &mf) };
        out.push(f);
        proof {
            assert(fact_view(out@[start + k as int]) == built(*ts, *tp, *to, dv, triple_key(results@[k as int])));
        }
        k += 1;
    }
    proof {
        assert forall|f: Key3| facts_have_from(out@, start, f) implies exists|m: Key3|
            #[trigger] graph_facts(*main).contains(m) && fact_matches(m, qs, qp, qo) && f == built(*ts, *tp, *to, dv, m) by {
            let i = choose|i: int| start <= i < out@.len() && #[trigger] fact_view(out@[i]) == f;
            let j = i - start;
            assert(fact_view(out@[start + j]) == built(*ts, *tp, *to, dv, triple_key(results@[j])));
            assert(graph_facts(*main).contains(triple_key(results@[j])));
        }
        assert forall|f: Key3| (exists|m: Key3|
            #[trigger] graph_facts(*main).contains(m) && fact_matches(m, qs, qp, qo) && f == built(*ts, *tp, *to, dv, m))
            implies facts_have_from(out@, start, f) by {
            let m = choose|m: Key3| #[trigger] graph_facts(*main).contains(m) && fact_matches(m, qs, qp, qo) && f == built(*ts, *tp, *to, dv, m);
            let j = choose|j: int| 0 <= j < results@.len() && triple_key(results@[j]) == m;
            assert(fact_view(out@[start + j]) == built(*ts, *tp, *to, dv, triple_key(results@[j])));
        }
    }
}

/// A rule that, for each triple of the delta graph, derives facts from that
/// triple and the triples of the main graph.
pub trait DeltaRule {
    /// Whether the rule derives `f` from the delta triple `d` and the main
    /// graph's facts `main`.
    spec fn derives(&self, main: Set<Key3>, d: Key3, f: Key3) -> bool;

    /// Appends the facts derived from one delta triple.
    fn step(&self, main: &TripleGraph, d: &TermTriple, out: &mut Vec<Fact>)
        requires
            vocab_valid(),
            crate::graph::triple_valid(*d),
        ensures
            final(out)@.len() >= old(out)@.len(),
            forall|i: int| 0 <= i < old(out)@.len() ==> #[trigger] final(out)@[i] == old(out)@[i],
            forall|f: Key3| facts_have_from(final(out)@, old(out)@.len() as int, f)
                <==> self.derives(graph_facts(*main), triple_key(*d), f),
    ;
}

/// Whether the rule derives `f` from some triple of `delta`.
pub open spec fn derived_by<R: DeltaRule>(rule: &R, main: Set<Key3>, delta: Set<Key3>, f: Key3) -> bool {
    exists|d: Key3| #[trigger] delta.contains(d) && rule.derives(main, d, f)
}

/// Applies a delta rule to every triple of the delta graph.
pub fn apply_over_delta<R: DeltaRule>(rule: &R, main: &TripleGraph, delta: &TripleGraph) -> (out: Vec<Fact>)
    requires
        vocab_valid(),
    ensures
        forall|f: Key3| facts_have(out@, f) <==> derived_by(rule, graph_facts(*main), graph_facts(*delta), f),
{
    let ds = graph_match(delta, None, None, None);
    let ghost mf = graph_facts(*main);
    let mut out: Vec<Fact> = Vec::new();
    let n = ds.len();
    let mut i: usize = 0;
    proof {
        assert forall|j: int| 0 <= j < ds@.len() implies crate::graph::triple_valid(#[trigger] ds@[j]) by {
            assert(graph_facts(*delta).contains(triple_key(ds@[j])));
        }
    }
    while i < n
        invariant
            i <= n,
            n == ds@.len(),
            vocab_valid(),
            mf == graph_facts(*main),
            forall|j: int| 0 <= j < ds@.len() ==> crate::graph::triple_valid(#[trigger] ds@[j]),
            forall|f: Key3| facts_have(out@, f) <==> exists|j: int| 0 <= j < i && #[trigger] rule.derives(mf, triple_key(ds@[j]), f),
        decreases n - i,
    {
        let ghost before = out@;
        rule.step(main, &ds[i], &mut out);
        proof {
            assert forall|f: Key3| facts_have(out@, f) <==> exists|j: int| 0 <= j < i + 1 && #[trigger] rule.derives(mf, triple_key(ds@[j]), f) by {
                if facts_have(out@, f) {
                    let k = choose|k: int| 0 <= k < out@.len() && #[trigger] fact_view(out@[k]) == f;
                    if k < before.len() {
                        assert(fact_view(before[k]) == f);
                        assert(facts_have(before, f));
                    } else {
                        assert(facts_have_from(out@, before.len() as int, f));
                        assert(rule.derives(mf, triple_key(ds@[i as int]), f));
                    }
                }
                if exists|j: int| 0 <= j < i + 1 && #[trigger] rule.derives(mf, triple_key(ds@[j]), f) {
                    let j = choose|j: int| 0 <= j < i + 1 && #[trigger] rule.derives(mf, triple_key(ds@[j]), f);
                    if j < i {
                        assert(facts_have(before, f));
                        let k = choose|k: int| 0 <= k < before.len() && #[trigger] fact_view(before[k]) == f;
                        assert(fact_view(out@[k]) == f);
                    } else {
                        assert(facts_have_from(out@, before.len() as int, f));
                    }
                }
            }
        }
        i += 1;
    }
    proof {
        let df = graph_facts(*delta);
        assert forall|f: Key3| facts_have(out@, f) <==> derived_by(rule, mf, df, f) by {
            if facts_have(out@, f) {
                let j = choose|j: int| 0 <= j < n && #[trigger] rule.derives(mf, triple_key(ds@[j]), f);
                assert(df.contains(triple_key(ds@[j])));
            }
            if derived_by(rule, mf, df, f) {
                let d = choose|d: Key3| #[trigger] df.contains(d) && rule.derives(mf, d, f);
                assert(crate::graph::fact_matches(d, None, None, None));
                let j = choose|j: int| 0 <= j < ds@.len() && triple_key(ds@[j]) == d;
                assert(rule.derives(mf, triple_key(ds@[j]), f));
            }
        }
    }
    out
}

/// cax-sco: Class Subsumption
pub struct CaxSco;

impl DeltaRule for CaxSco {
    /// A member of a class is a member of its superclasses.
    open spec fn derives(&self, main: Set<Key3>, d: Key3, f: Key3) -> bool {
        ||| d.1 == iri_key(RDF_TYPE) && exists|m: Key3| #[trigger] main.contains(m) && m.0 == d.2
            && m.1 == iri_key(RDFS_SUBCLASS_OF) && f == (d.0, RDF_TYPE@, m.2)
        ||| d.1 != iri_key(RDF_TYPE) && d.1 == iri_key(RDFS_SUBCLASS_OF) && exists|m: Key3|
            #[trigger] main.contains(m) && m.1 == iri_key(RDF_TYPE) && m.2 == d.0 && f == (m.0, RDF_TYPE@, d.2)
    }

    fn step(&self, main: &TripleGraph, d: &TermTriple, out: &mut Vec<Fact>) {
        let k = triple_fact(d);
        let ty = iri(RDF_TYPE);
        let sc = iri(RDFS_SUBCLASS_OF);
        if d.p.same(&ty) {
            emit_matches(main, Some(&d.o), Some(&sc), None, &k, &Slot::DS, &Slot::Text(RDF_TYPE.to_owned()), &Slot::MO, out);
        } else if d.p.same(&sc) {
            emit_matches(main, None, Some(&ty), Some(&d.s), &k, &Slot::MS, &Slot::Text(RDF_TYPE.to_owned()), &Slot::DO, out);
        }
    }
}

/// The facts appended from position `a` on are those appended before `b` and
/// those appended from `b` on, when the first `b` facts were kept.
pub proof fn lemma_facts_from_split(mid: Seq<Fact>, fin: Seq<Fact>, a: int, b: int)
    requires
        0 <= a <= b,
        b == mid.len(),
        fin.len() >= b,
        forall|i: int| 0 <= i < b ==> #[trigger] fin[i] == mid[i],
    ensures
        forall|f: Key3| facts_have_from(fin, a, f) <==> (facts_have_from(mid, a, f) || facts_have_from(fin, b, f)),
{
    assert forall|f: Key3| facts_have_from(fin, a, f) <==> (facts_have_from(mid, a, f) || facts_have_from(fin, b, f)) by {
        if facts_have_from(fin, a, f) {
            let i = choose|i: int| a <= i < fin.len() && #[trigger] fact_view(fin[i]) == f;
            if i < b {
                assert(fact_view(mid[i]) == f);
            }
        }
        if facts_have_from(mid, a, f) {
            let i = choose|i: int| a <= i < mid.len() && #[trigger] fact_view(mid[i]) == f;
            assert(fact_view(fin[i]) == f);
        }
    }
}

/// prp-spo1: Property Subsumption
pub struct PrpSpo1;

impl DeltaRule for PrpSpo1 {
    /// A triple with a property holds with every superproperty.
    open spec fn derives(&self, main: Set<Key3>, d: Key3, f: Key3) -> bool {
        ||| d.1 == iri_key(RDFS_SUBPROPERTY_OF) && exists|m: Key3| #[trigger] main.contains(m) && m.1 == d.0 && f == (m.0, d.2, m.2)
        ||| d.1 != iri_key(RDFS_SUBPROPERTY_OF) && exists|m: Key3| #[trigger] main.contains(m) && m.0 == d.1 && m.1 == iri_key(RDFS_SUBPROPERTY_OF) && f == (d.0, m.2, d.2)
    }

    fn step(&self, main: &TripleGraph, d: &TermTriple, out: &mut Vec<Fact>) {
        let k = triple_fact(d);
        let spo = iri(RDFS_SUBPROPERTY_OF);
        let ghost start = out@.len() as int;
        if d.p.same(&spo) {
            emit_matches(main, None, Some(&d.s), None, &k, &Slot::MS, &Slot::DO, &Slot::MO, out);
        } else {
            emit_matches(main, Some(&d.p), Some(&spo), None, &k, &Slot::DS, &Slot::MO, &Slot::DO, out);
        }
    }
}

/// prp-trp: Transitive Property
pub struct PrpTrp;

impl DeltaRule for PrpTrp {
    /// A transitive property chains two of its triples, one of them new.
    open spec fn derives(&self, main: Set<Key3>, d: Key3, f: Key3) -> bool {
        ||| main.contains((d.1, iri_key(RDF_TYPE), iri_key(OWL_TRANSITIVE_PROPERTY))) && exists|m: Key3| #[trigger] main.contains(m) && m.0 == d.2 && m.1 == d.1 && f == (d.0, d.1, m.2)
        ||| main.contains((d.1, iri_key(RDF_TYPE), iri_key(OWL_TRANSITIVE_PROPERTY))) && exists|m: Key3| #[trigger] main.contains(m) && m.1 == d.1 && m.2 == d.0 && f == (m.0, d.1, d.2)
    }

    fn step(&self, main: &TripleGraph, d: &TermTriple, out: &mut Vec<Fact>) {
        let k = triple_fact(d);
        let ty = iri(RDF_TYPE);
        let tp = iri(OWL_TRANSITIVE_PROPERTY);
        let ghost start = out@.len() as int;
        if crate::graph::graph_contains(main, &d.p, &ty, &tp) {
            emit_matches(main, Some(&d.o), Some(&d.p), None, &k, &Slot::DS, &Slot::DP, &Slot::MO, out);
            let ghost mid = out@;
            emit_matches(main, None, Some(&d.p), Some(&d.s), &k, &Slot::MS, &Slot::DP, &Slot::DO, out);
            proof { lemma_facts_from_split(mid, out@, start, mid.len() as int); }
        }
    }
}

/// prp-dom: Property Domain
pub struct PrpDom;

impl DeltaRule for PrpDom {
    /// The subject of a property is a member of its domain.
    open spec fn derives(&self, main: Set<Key3>, d: Key3, f: Key3) -> bool {
        ||| d.1 == iri_key(RDFS_DOMAIN) && exists|m: Key3| #[trigger] main.contains(m) && m.1 == d.0 && f == (m.0, RDF_TYPE@, d.2)
        ||| d.1 != iri_key(RDFS_DOMAIN) && exists|m: Key3| #[trigger] main.contains(m) && m.0 == d.1 && m.1 == iri_key(RDFS_DOMAIN) && f == (d.0, RDF_TYPE@, m.2)
    }

    fn step(&self, main: &TripleGraph, d: &TermTriple, out: &mut Vec<Fact>) {
        let k = triple_fact(d);
        let dom = iri(RDFS_DOMAIN);
        let ghost start = out@.len() as int;
        if d.p.same(&dom) {
            emit_matches(main, None, Some(&d.s), None, &k, &Slot::MS, &Slot::Text(RDF_TYPE.to_owned()), &Slot::DO, out);
        } else {
            emit_matches(main, Some(&d.p), Some(&dom), None, &k, &Slot::DS, &Slot::Text(RDF_TYPE.to_owned()), &Slot::MO, out);
        }
    }
}

/// prp-rng: Property Range
pub struct PrpRng;

impl DeltaRule for PrpRng {
    /// The object of a property is a member of its range.
    open spec fn derives(&self, main: Set<Key3>, d: Key3, f: Key3) -> bool {
        ||| d.1 == iri_key(RDFS_RANGE) && exists|m: Key3| #[trigger] main.contains(m) && m.1 == d.0 && f == (m.2, RDF_TYPE@, d.2)
        ||| d.1 != iri_key(RDFS_RANGE) && exists|m: Key3| #[trigger] main.contains(m) && m.0 == d.1 && m.1 == iri_key(RDFS_RANGE) && f == (d.2, RDF_TYPE@, m.2)
    }

    fn step(&self, main: &TripleGraph, d: &TermTriple, out: &mut Vec<Fact>) {
        let k = triple_fact(d);
        let rng = iri(RDFS_RANGE);
        let ghost start = out@.len() as int;
        if d.p.same(&rng) {
            emit_matches(main, None, Some(&d.s), None, &k, &Slot::MO, &Slot::Text(RDF_TYPE.to_owned()), &Slot::DO, out);
        } else {
            emit_matches(main, Some(&d.p), Some(&rng), None, &k, &Slot::DO, &Slot::Text(RDF_TYPE.to_owned()), &Slot::MO, out);
        }
    }
}

/// prp-inv: Inverse Properties
pub struct PrpInv;

impl DeltaRule for PrpInv {
    /// A triple holds reversed with an inverse property.
    open spec fn derives(&self, main: Set<Key3>, d: Key3, f: Key3) -> bool {
        ||| d.1 == iri_key(OWL_INVERSE_OF) && exists|m: Key3| #[trigger] main.contains(m) && m.1 == d.0 && f == (m.2, d.2, m.0)
        ||| d.1 == iri_key(OWL_INVERSE_OF) && exists|m: Key3| #[trigger] main.contains(m) && m.1 == d.2 && f == (m.2, d.0, m.0)
        ||| d.1 != iri_key(OWL_INVERSE_OF) && exists|m: Key3| #[trigger] main.contains(m) && m.0 == d.1 && m.1 == iri_key(OWL_INVERSE_OF) && f == (d.2, m.2, d.0)
        ||| d.1 != iri_key(OWL_INVERSE_OF) && exists|m: Key3| #[trigger] main.contains(m) && m.1 == iri_key(OWL_INVERSE_OF) && m.2 == d.1 && f == (d.2, m.0, d.0)
    }

    fn step(&self, main: &TripleGraph, d: &TermTriple, out: &mut Vec<Fact>) {
        let k = triple_fact(d);
        let inv = iri(OWL_INVERSE_OF);
        let ghost start = out@.len() as int;
        if d.p.same(&inv) {
            emit_matches(main, None, Some(&d.s), None, &k, &Slot::MO, &Slot::DO, &Slot::MS, out);
            let ghost mid = out@;
            emit_matches(main, None, Some(&d.o), None, &k, &Slot::MO, &Slot::DS, &Slot::MS, out);
            proof { lemma_facts_from_split(mid, out@, start, mid.len() as int); }
        } else {
            emit_matches(main, Some(&d.p), Some(&inv), None, &k, &Slot::DO, &Slot::MO, &Slot::DS, out);
            let ghost mid = out@;
            emit_matches(main, None, Some(&inv), Some(&d.p), &k, &Slot::DO, &Slot::MS, &Slot::DS, out);
            proof { lemma_facts_from_split(mid, out@, start, mid.len() as int); }
        }
    }
}

/// `prp-inv` works in both directions of an inverse declaration and from
/// either side of the delta: where `p1` is declared the inverse of `p2`,
/// a triple `x p1 y` gives `y p2 x` and a triple `x p2 y` gives `y p1 x`,
/// whether the declaration is new (in the delta, the triple in the main
/// graph) or the triple is (in the delta, the declaration in the main
/// graph, for properties other than `owl:inverseOf` itself).
pub proof fn law_inverse_both_ways(
    main: Set<Key3>,
    delta: Set<Key3>,
    r: Result<Vec<Fact>, Inconsistency>,
    p1: Seq<char>,
    p2: Seq<char>,
    x: Seq<char>,
    y: Seq<char>,
)
    requires
        PrpInv.outcome(main, delta, r),
    ensures
        r is Ok,
        delta.contains((p1, iri_key(OWL_INVERSE_OF), p2)) && main.contains((x, p1, y))
            ==> facts_have(r->Ok_0@, (y, p2, x)),
        delta.contains((p1, iri_key(OWL_INVERSE_OF), p2)) && main.contains((x, p2, y))
            ==> facts_have(r->Ok_0@, (y, p1, x)),
        main.contains((p1, iri_key(OWL_INVERSE_OF), p2)) && delta.contains((x, p1, y)) && p1 != iri_key(OWL_INVERSE_OF)
            ==> facts_have(r->Ok_0@, (y, p2, x)),
        main.contains((p1, iri_key(OWL_INVERSE_OF), p2)) && delta.contains((x, p2, y)) && p2 != iri_key(OWL_INVERSE_OF)
            ==> facts_have(r->Ok_0@, (y, p1, x)),
{
    let inv = iri_key(OWL_INVERSE_OF);
    let v = r->Ok_0;
    assert(forall|f: Key3| facts_have(v@, f) <==> derived_by(&PrpInv, main, delta, f));
    if delta.contains((p1, inv, p2)) && main.contains((x, p1, y)) {
        assert(PrpInv.derives(main, (p1, inv, p2), (y, p2, x)));
        assert(derived_by(&PrpInv, main, delta, (y, p2, x)));
    }
    if delta.contains((p1, inv, p2)) && main.contains((x, p2, y)) {
        assert(PrpInv.derives(main, (p1, inv, p2), (y, p1, x)));
        assert(derived_by(&PrpInv, main, delta, (y, p1, x)));
    }
    if main.contains((p1, inv, p2)) && delta.contains((x, p1, y)) && p1 != inv {
        assert(PrpInv.derives(main, (x, p1, y), (y, p2, x)));
        assert(derived_by(&PrpInv, main, delta, (y, p2, x)));
    }
    if main.contains((p1, inv, p2)) && delta.contains((x, p2, y)) && p2 != inv {
        assert(PrpInv.derives(main, (x, p2, y), (y, p1, x)));
        assert(derived_by(&PrpInv, main, delta, (y, p1, x)));
    }
}

/// eq-rep-s: Subject Replacement
pub struct EqRepS;

impl DeltaRule for EqRepS {
    /// A triple holds of every subject that is the same as its subject.
    open spec fn derives(&self, main: Set<Key3>, d: Key3, f: Key3) -> bool {
        ||| d.1 == iri_key(OWL_SAME_AS) && exists|m: Key3| #[trigger] main.contains(m) && m.0 == d.0 && f == (d.2, m.1, m.2)
        ||| d.1 != iri_key(OWL_SAME_AS) && exists|m: Key3| #[trigger] main.contains(m) && m.0 == d.0 && m.1 == iri_key(OWL_SAME_AS) && f == (m.2, d.1, d.2)
    }

    fn step(&self, main: &TripleGraph, d: &TermTriple, out: &mut Vec<Fact>) {
        let k = triple_fact(d);
        let same = iri(OWL_SAME_AS);
        let ghost start = out@.len() as int;
        if d.p.same(&same) {
            emit_matches(main, Some(&d.s), None, None, &k, &Slot::DO, &Slot::MP, &Slot::MO, out);
        } else {
            emit_matches(main, Some(&d.s), Some(&same), None, &k, &Slot::MO, &Slot::DP, &Slot::DO, out);
        }
    }
}

/// cax-eqc: Equivalent Classes
pub struct CaxEqc;

impl DeltaRule for CaxEqc {
    /// Equivalent classes have the same members.
    open spec fn derives(&self, main: Set<Key3>, d: Key3, f: Key3) -> bool {
        ||| d.1 == iri_key(OWL_EQUIVALENT_CLASS) && exists|m: Key3| #[trigger] main.contains(m) && m.1 == iri_key(RDF_TYPE) && m.2 == d.0 && f == (m.0, RDF_TYPE@, d.2)
        ||| d.1 == iri_key(OWL_EQUIVALENT_CLASS) && exists|m: Key3| #[trigger] main.contains(m) && m.1 == iri_key(RDF_TYPE) && m.2 == d.2 && f == (m.0, RDF_TYPE@, d.0)
        ||| d.1 != iri_key(OWL_EQUIVALENT_CLASS) && d.1 == iri_key(RDF_TYPE) && exists|m: Key3| #[trigger] main.contains(m) && m.0 == d.2 && m.1 == iri_key(OWL_EQUIVALENT_CLASS) && f == (d.0, RDF_TYPE@, m.2)
        ||| d.1 != iri_key(OWL_EQUIVALENT_CLASS) && d.1 == iri_key(RDF_TYPE) && exists|m: Key3| #[trigger] main.contains(m) && m.1 == iri_key(OWL_EQUIVALENT_CLASS) && m.2 == d.2 && f == (d.0, RDF_TYPE@, m.0)
    }

    fn step(&self, main: &TripleGraph, d: &TermTriple, out: &mut Vec<Fact>) {
        let k = triple_fact(d);
        let eqc = iri(OWL_EQUIVALENT_CLASS);
        let ty = iri(RDF_TYPE);
        let ghost start = out@.len() as int;
        if d.p.same(&eqc) {
            emit_matches(main, None, Some(&ty), Some(&d.s), &k, &Slot::MS, &Slot::Text(RDF_TYPE.to_owned()), &Slot::DO, out);
            let ghost mid = out@;
            emit_matches(main, None, Some(&ty), Some(&d.o), &k, &Slot::MS, &Slot::Text(RDF_TYPE.to_owned()), &Slot::DS, out);
            proof { lemma_facts_from_split(mid, out@, start, mid.len() as int); }
        } else if d.p.same(&ty) {
            emit_matches(main, Some(&d.o), Some(&eqc), None, &k, &Slot::DS, &Slot::Text(RDF_TYPE.to_owned()), &Slot::MO, out);
            let ghost mid = out@;
            emit_matches(main, None, Some(&eqc), Some(&d.o), &k, &Slot::DS, &Slot::Text(RDF_TYPE.to_owned()), &Slot::MS, out);
            proof { lemma_facts_from_split(mid, out@, start, mid.len() as int); }
        }
    }
}

/// eq-trans: Transitivity of Sameness
pub struct EqTrans;

impl DeltaRule for EqTrans {
    /// Sameness is transitive.
    open spec fn derives(&self, main: Set<Key3>, d: Key3, f: Key3) -> bool {
        ||| d.1 == iri_key(OWL_SAME_AS) && exists|m: Key3| #[trigger] main.contains(m) && m.0 == d.2 && m.1 == iri_key(OWL_SAME_AS) && f == (d.0, OWL_SAME_AS@, m.2)
        ||| d.1 == iri_key(OWL_SAME_AS) && exists|m: Key3| #[trigger] main.contains(m) && m.1 == iri_key(OWL_SAME_AS) && m.2 == d.0 && f == (m.0, OWL_SAME_AS@, d.2)
    }

    fn step(&self, main: &TripleGraph, d: &TermTriple, out: &mut Vec<Fact>) {
        let k = triple_fact(d);
        let same = iri(OWL_SAME_AS);
        let ghost start = out@.len() as int;
        if d.p.same(&same) {
            emit_matches(main, Some(&d.o), Some(&same), None, &k, &Slot::DS, &Slot::Text(OWL_SAME_AS.to_owned()), &Slot::MO, out);
            let ghost mid = out@;
            emit_matches(main, None, Some(&same), Some(&d.s), &k, &Slot::MS, &Slot::Text(OWL_SAME_AS.to_owned()), &Slot::DO, out);
            proof { lemma_facts_from_split(mid, out@, start, mid.len() as int); }
        }
    }
}

/// eq-rep-p: Property Replacement
pub struct EqRepP;

impl DeltaRule for EqRepP {
    /// A triple holds with every property that is the same as its property.
    open spec fn derives(&self, main: Set<Key3>, d: Key3, f: Key3) -> bool {
        ||| d.1 == iri_key(OWL_SAME_AS) && exists|m: Key3| #[trigger] main.contains(m) && m.1 == d.0 && f == (m.0, d.2, m.2)
        ||| d.1 != iri_key(OWL_SAME_AS) && exists|m: Key3| #[trigger] main.contains(m) && m.0 == d.1 && m.1 == iri_key(OWL_SAME_AS) && f == (d.0, m.2, d.2)
    }

    fn step(&self, main: &TripleGraph, d: &TermTriple, out: &mut Vec<Fact>) {
        let k = triple_fact(d);
        let same = iri(OWL_SAME_AS);
        let ghost start = out@.len() as int;
        if d.p.same(&same) {
            emit_matches(main, None, Some(&d.s), None, &k, &Slot::MS, &Slot::DO, &Slot::MO, out);
        } else {
            emit_matches(main, Some(&d.p), Some(&same), None, &k, &Slot::DS, &Slot::MO, &Slot::DO, out);
        }
    }
}

/// eq-rep-o: Object Replacement
pub struct EqRepO;

impl DeltaRule for EqRepO {
    /// A triple holds of every object that is the same as its object.
    open spec fn derives(&self, main: Set<Key3>, d: Key3, f: Key3) -> bool {
        ||| d.1 == iri_key(OWL_SAME_AS) && exists|m: Key3| #[trigger] main.contains(m) && m.2 == d.0 && f == (m.0, m.1, d.2)
        ||| d.1 != iri_key(OWL_SAME_AS) && exists|m: Key3| #[trigger] main.contains(m) && m.0 == d.2 && m.1 == iri_key(OWL_SAME_AS) && f == (d.0, d.1, m.2)
    }

    fn step(&self, main: &TripleGraph, d: &TermTriple, out: &mut Vec<Fact>) {
        let k = triple_fact(d);
        let same = iri(OWL_SAME_AS);
        let ghost start = out@.len() as int;
        if d.p.same(&same) {
            emit_matches(main, None, None, Some(&d.s), &k, &Slot::MS, &Slot::MP, &Slot::DO, out);
        } else {
            emit_matches(main, Some(&d.o), Some(&same), None, &k, &Slot::DS, &Slot::DP, &Slot::MO, out);
        }
    }
}

/// scm-sco: Subclass Transitivity
pub struct ScmSco;

impl DeltaRule for ScmSco {
    /// Subclass is transitive.
    open spec fn derives(&self, main: Set<Key3>, d: Key3, f: Key3) -> bool {
        ||| d.1 == iri_key(RDFS_SUBCLASS_OF) && exists|m: Key3| #[trigger] main.contains(m) && m.0 == d.2 && m.1 == iri_key(RDFS_SUBCLASS_OF) && f == (d.0, RDFS_SUBCLASS_OF@, m.2)
        ||| d.1 == iri_key(RDFS_SUBCLASS_OF) && exists|m: Key3| #[trigger] main.contains(m) && m.1 == iri_key(RDFS_SUBCLASS_OF) && m.2 == d.0 && f == (m.0, RDFS_SUBCLASS_OF@, d.2)
    }

    fn step(&self, main: &TripleGraph, d: &TermTriple, out: &mut Vec<Fact>) {
        let k = triple_fact(d);
        let sc = iri(RDFS_SUBCLASS_OF);
        let ghost start = out@.len() as int;
        if d.p.same(&sc) {
            emit_matches(main, Some(&d.o), Some(&sc), None, &k, &Slot::DS, &Slot::Text(RDFS_SUBCLASS_OF.to_owned()), &Slot::MO, out);
            let ghost mid = out@;
            emit_matches(main, None, Some(&sc), Some(&d.s), &k, &Slot::MS, &Slot::Text(RDFS_SUBCLASS_OF.to_owned()), &Slot::DO, out);
            proof { lemma_facts_from_split(mid, out@, start, mid.len() as int); }
        }
    }
}

/// scm-spo: Subproperty Transitivity
pub struct ScmSpo;

impl DeltaRule for ScmSpo {
    /// Subproperty is transitive.
    open spec fn derives(&self, main: Set<Key3>, d: Key3, f: Key3) -> bool {
        ||| d.1 == iri_key(RDFS_SUBPROPERTY_OF) && exists|m: Key3| #[trigger] main.contains(m) && m.0 == d.2 && m.1 == iri_key(RDFS_SUBPROPERTY_OF) && f == (d.0, RDFS_SUBPROPERTY_OF@, m.2)
        ||| d.1 == iri_key(RDFS_SUBPROPERTY_OF) && exists|m: Key3| #[trigger] main.contains(m) && m.1 == iri_key(RDFS_SUBPROPERTY_OF) && m.2 == d.0 && f == (m.0, RDFS_SUBPROPERTY_OF@, d.2)
    }

    fn step(&self, main: &TripleGraph, d: &TermTriple, out: &mut Vec<Fact>) {
        let k = triple_fact(d);
        let spo = iri(RDFS_SUBPROPERTY_OF);
        let ghost start = out@.len() as int;
        if d.p.same(&spo) {
            emit_matches(main, Some(&d.o), Some(&spo), None, &k, &Slot::DS, &Slot::Text(RDFS_SUBPROPERTY_OF.to_owned()), &Slot::MO, out);
            let ghost mid = out@;
            emit_matches(main, None, Some(&spo), Some(&d.s), &k, &Slot::MS, &Slot::Text(RDFS_SUBPROPERTY_OF.to_owned()), &Slot::DO, out);
            proof { lemma_facts_from_split(mid, out@, start, mid.len() as int); }
        }
    }
}

/// eq-ref: Reflexivity of Sameness
pub struct EqRef;

impl DeltaRule for EqRef {
    /// Every term of a new triple is the same as itself.
    open spec fn derives(&self, main: Set<Key3>, d: Key3, f: Key3) -> bool {
        ||| f == (d.0, OWL_SAME_AS@, d.0)
        ||| f == (d.1, OWL_SAME_AS@, d.1)
        ||| f == (d.2, OWL_SAME_AS@, d.2)
    }

    fn step(&self, main: &TripleGraph, d: &TermTriple, out: &mut Vec<Fact>) {
        let s = d.s.key();
        let p = d.p.key();
        let o = d.o.key();
        out.push(Fact { s: s.clone(), p: OWL_SAME_AS.to_owned(), o: s });
        out.push(Fact { s: p.clone(), p: OWL_SAME_AS.to_owned(), o: p });
        out.push(Fact { s: o.clone(), p: OWL_SAME_AS.to_owned(), o: o });
        proof {
            let start = old(out)@.len() as int;
            let dk = triple_key(*d);
            assert(fact_view(out@[start]) == (dk.0, OWL_SAME_AS@, dk.0));
            assert(fact_view(out@[start + 1]) == (dk.1, OWL_SAME_AS@, dk.1));
            assert(fact_view(out@[start + 2]) == (dk.2, OWL_SAME_AS@, dk.2));
        }
    }
}

/// eq-sym: Symmetry of Sameness
pub struct EqSym;

impl DeltaRule for EqSym {
    /// Sameness is symmetric.
    open spec fn derives(&self, main: Set<Key3>, d: Key3, f: Key3) -> bool {
        d.1 == iri_key(OWL_SAME_AS) && f == (d.2, OWL_SAME_AS@, d.0)
    }

    fn step(&self, main: &TripleGraph, d: &TermTriple, out: &mut Vec<Fact>) {
        let same = iri(OWL_SAME_AS);
        if d.p.same(&same) {
            out.push(Fact { s: d.o.key(), p: OWL_SAME_AS.to_owned(), o: d.s.key() });
            proof {
                let start = old(out)@.len() as int;
                assert(fact_view(out@[start]) == (triple_key(*d).2, OWL_SAME_AS@, triple_key(*d).0));
            }
        }
    }
}

/// A rule that checks every triple of the delta graph against the main
/// graph and reports the first contradiction it finds.
pub trait DeltaCheck {
    /// Whether the delta triple `d` contradicts the main graph's facts.
    spec fn violates(&self, main: Set<Key3>, d: Key3) -> bool;

    /// Whether `inc` reports the contradiction of the delta triple `d`.
    spec fn reports(&self, d: Key3, inc: Inconsistency) -> bool;

    /// The contradiction of one delta triple, if there is one.
    fn check(&self, main: &TripleGraph, d: &TermTriple) -> (r: Option<Inconsistency>)
        requires
            vocab_valid(),
            crate::graph::triple_valid(*d),
        ensures
            r is Some <==> self.violates(graph_facts(*main), triple_key(*d)),
            r matches Some(inc) ==> self.reports(triple_key(*d), inc),
    ;
}

/// Whether some triple of `delta` contradicts `main`.
pub open spec fn violated_by<C: DeltaCheck>(rule: &C, main: Set<Key3>, delta: Set<Key3>) -> bool {
    exists|d: Key3| #[trigger] delta.contains(d) && rule.violates(main, d)
}

/// What a checking rule returns: no fact, or the report of a contradiction,
/// exactly when some delta triple contradicts the main graph.
pub open spec fn check_outcome<C: DeltaCheck>(rule: &C, main: Set<Key3>, delta: Set<Key3>, r: Result<Vec<Fact>, Inconsistency>) -> bool {
    match r {
        Ok(v) => v@.len() == 0 && !violated_by(rule, main, delta),
        Err(inc) => exists|d: Key3| #[trigger] delta.contains(d) && rule.violates(main, d) && rule.reports(d, inc),
    }
}

/// Checks every triple of the delta graph and stops at the first
/// contradiction.
pub fn check_over_delta<C: DeltaCheck>(rule: &C, main: &TripleGraph, delta: &TripleGraph) -> (r: Result<Vec<Fact>, Inconsistency>)
    requires
        vocab_valid(),
    ensures
        check_outcome(rule, graph_facts(*main), graph_facts(*delta), r),
{
    let ds = graph_match(delta, None, None, None);
    let ghost mf = graph_facts(*main);
    let ghost df = graph_facts(*delta);
    let n = ds.len();
    let mut i: usize = 0;
    proof {
        assert forall|j: int| 0 <= j < ds@.len() implies crate::graph::triple_valid(#[trigger] ds@[j]) by {
            assert(df.contains(triple_key(ds@[j])));
        }
    }
    while i < n
        invariant
            i <= n,
            n == ds@.len(),
            vocab_valid(),
            mf == graph_facts(*main),
            df == graph_facts(*delta),
            forall|j: int| 0 <= j < ds@.len() ==> crate::graph::triple_valid(#[trigger] ds@[j]),
            forall|j: int| 0 <= j < ds@.len() ==> df.contains(#[trigger] triple_key(ds@[j])),
            forall|j: int| 0 <= j < i ==> !rule.violates(mf, #[trigger] triple_key(ds@[j])),
        decreases n - i,
    {
        match rule.check(main, &ds[i]) {
            Some(inc) => {
                proof {
                    assert(df.contains(triple_key(ds@[i as int])));
                }
                return Err(inc);
            },
            None => {},
        }
        i += 1;
    }
    proof {
        assert forall|d: Key3| #[trigger] df.contains(d) implies !rule.violates(mf, d) by {
            assert(crate::graph::fact_matches(d, None, None, None));
            let j = choose|j: int| 0 <= j < ds@.len() && triple_key(ds@[j]) == d;
            assert(!rule.violates(mf, triple_key(ds@[j])));
        }
    }
    Ok(Vec::new())
}

/// Whether `inc` is the report of the named rule about the single fact `f`.
pub open spec fn single_report(inc: Inconsistency, name: Seq<char>, f: Key3) -> bool {
    &&& inc.rule_name@ == name
    &&& inc.conflicting_triples@.len() == 1
    &&& fact_view(inc.conflicting_triples@[0]) == f
}

fn report(name: &str, f: Fact) -> (inc: Inconsistency)
    ensures
        single_report(inc, name@, fact_view(f)),
{
    let mut v: Vec<Fact> = Vec::new();
    v.push(f);
    Inconsistency { rule_name: name.to_owned(), conflicting_triples: v }
}

/// prp-irp: Irreflexive Property
pub struct PrpIrp;

impl DeltaCheck for PrpIrp {
    /// An irreflexive property must not relate a term to itself.
    open spec fn violates(&self, main: Set<Key3>, d: Key3) -> bool {
        main.contains((d.1, iri_key(RDF_TYPE), iri_key(OWL_IRREFLEXIVE_PROPERTY))) && d.0 == d.2
    }

    open spec fn reports(&self, d: Key3, inc: Inconsistency) -> bool {
        single_report(inc, "prp-irp"@, d)
    }

    fn check(&self, main: &TripleGraph, d: &TermTriple) -> (r: Option<Inconsistency>) {
        let ty = iri(RDF_TYPE);
        let irp = iri(OWL_IRREFLEXIVE_PROPERTY);
        if crate::graph::graph_contains(main, &d.p, &ty, &irp) && d.s.same(&d.o) {
            Some(report("prp-irp", triple_fact(d)))
        } else {
            None
        }
    }
}

/// prp-asyp: Asymmetric Property
pub struct PrpAsyp;

impl DeltaCheck for PrpAsyp {
    /// An asymmetric property must not hold in both directions.
    open spec fn violates(&self, main: Set<Key3>, d: Key3) -> bool {
        main.contains((d.1, iri_key(RDF_TYPE), iri_key(OWL_ASYMMETRIC_PROPERTY))) && main.contains((d.2, d.1, d.0))
    }

    open spec fn reports(&self, d: Key3, inc: Inconsistency) -> bool {
        single_report(inc, "prp-asyp"@, d)
    }

    fn check(&self, main: &TripleGraph, d: &TermTriple) -> (r: Option<Inconsistency>) {
        let ty = iri(RDF_TYPE);
        let asyp = iri(OWL_ASYMMETRIC_PROPERTY);
        if crate::graph::graph_contains(main, &d.p, &ty, &asyp) && crate::graph::graph_contains(main, &d.o, &d.p, &d.s) {
            Some(report("prp-asyp", triple_fact(d)))
        } else {
            None
        }
    }
}

/// eq-diff1: Sameness and Difference
pub struct EqDiff1;

impl DeltaCheck for EqDiff1 {
    /// Two terms must not be both the same and different.
    open spec fn violates(&self, main: Set<Key3>, d: Key3) -> bool {
        d.1 == iri_key(OWL_SAME_AS) && main.contains((d.0, iri_key(OWL_DIFFERENT_FROM), d.2))
    }

    open spec fn reports(&self, d: Key3, inc: Inconsistency) -> bool {
        single_report(inc, "eq-diff1"@, d)
    }

    fn check(&self, main: &TripleGraph, d: &TermTriple) -> (r: Option<Inconsistency>) {
        let same = iri(OWL_SAME_AS);
        let diff = iri(OWL_DIFFERENT_FROM);
        if d.p.same(&same) && crate::graph::graph_contains(main, &d.s, &diff, &d.o) {
            Some(report("eq-diff1", triple_fact(d)))
        } else {
            None
        }
    }
}

/// cls-dj: Disjoint Classes
pub struct ClsDj;

impl DeltaCheck for ClsDj {
    /// Nothing is a member of two disjoint classes.
    open spec fn violates(&self, main: Set<Key3>, d: Key3) -> bool {
        d.1 == iri_key(RDF_TYPE) && exists|m: Key3| #[trigger] main.contains(m) && m.0 == d.2
            && m.1 == iri_key(OWL_DISJOINT_WITH) && main.contains((d.0, iri_key(RDF_TYPE), m.2))
    }

    open spec fn reports(&self, d: Key3, inc: Inconsistency) -> bool {
        single_report(inc, "cls-dj"@, (d.0, RDF_TYPE@, d.2))
    }

    fn check(&self, main: &TripleGraph, d: &TermTriple) -> (r: Option<Inconsistency>) {
        let ty = iri(RDF_TYPE);
        let dj = iri(OWL_DISJOINT_WITH);
        if !d.p.same(&ty) {
            return None;
        }
        let ms = graph_match(main, Some(&d.o), Some(&dj), None);
        proof {
            assert forall|j: int| 0 <= j < ms@.len() implies {
                &&& graph_facts(*main).contains(#[trigger] triple_key(ms@[j]))
                &&& crate::graph::triple_valid(ms@[j])
                &&& triple_key(ms@[j]).0 == term_key(d.o)
                &&& triple_key(ms@[j]).1 == iri_key(OWL_DISJOINT_WITH)
            } by {
                assert(graph_facts(*main).contains(triple_key(ms@[j])));
            }
        }
        let n = ms.len();
        let mut i: usize = 0;
        while i < n
            invariant
                i <= n,
                n == ms@.len(),
                vocab_valid(),
                crate::graph::triple_valid(*d),
                term_key(ty) == iri_key(RDF_TYPE),
                term_key(d.p) == iri_key(RDF_TYPE),
                term_valid(ty),
                forall|j: int| 0 <= j < ms@.len() ==> {
                    &&& graph_facts(*main).contains(#[trigger] triple_key(ms@[j]))
                    &&& crate::graph::triple_valid(ms@[j])
                    &&& triple_key(ms@[j]).0 == term_key(d.o)
                    &&& triple_key(ms@[j]).1 == iri_key(OWL_DISJOINT_WITH)
                },
                forall|j: int| 0 <= j < i ==> !graph_facts(*main).contains((term_key(d.s), iri_key(RDF_TYPE), #[trigger] triple_key(ms@[j]).2)),
            decreases n - i,
        {
            assert(graph_facts(*main).contains(triple_key(ms@[i as int])));
            if crate::graph::graph_contains(main, &d.s, &ty, &ms[i].o) {
                proof {
                    let m = triple_key(ms@[i as int]);
                    assert(graph_facts(*main).contains(m));
                    assert(self.violates(graph_facts(*main), triple_key(*d)));
                }
                return Some(report("cls-dj", Fact { s: d.s.key(), p: RDF_TYPE.to_owned(), o: d.o.key() }));
            }
            i += 1;
        }
        proof {
            let mf = graph_facts(*main);
            let dk = triple_key(*d);
            assert forall|m: Key3| #[trigger] mf.contains(m) && m.0 == dk.2 && m.1 == iri_key(OWL_DISJOINT_WITH)
                implies !mf.contains((dk.0, iri_key(RDF_TYPE), m.2)) by {
                assert(crate::graph::fact_matches(m, Some(&d.o), Some(&dj), None));
                let j = choose|j: int| 0 <= j < ms@.len() && triple_key(ms@[j]) == m;
                assert(!mf.contains((term_key(d.s), iri_key(RDF_TYPE), triple_key(ms@[j]).2)));
            }
        }
        None
    }
}

/// cls-nothing: Empty Class
pub struct ClsNothing;

impl DeltaCheck for ClsNothing {
    /// Nothing is a member of `owl:Nothing`.
    open spec fn violates(&self, main: Set<Key3>, d: Key3) -> bool {
        d.1 == iri_key(RDF_TYPE) && d.2 == iri_key(OWL_NOTHING)
    }

    open spec fn reports(&self, d: Key3, inc: Inconsistency) -> bool {
        single_report(inc, "cls-nothing"@, (d.0, RDF_TYPE@, OWL_NOTHING@))
    }

    fn check(&self, main: &TripleGraph, d: &TermTriple) -> (r: Option<Inconsistency>) {
        let ty = iri(RDF_TYPE);
        let nothing = iri(OWL_NOTHING);
        if d.p.same(&ty) && d.o.same(&nothing) {
            Some(report("cls-nothing", Fact { s: d.s.key(), p: RDF_TYPE.to_owned(), o: OWL_NOTHING.to_owned() }))
        } else {
            None
        }
    }
}

/// A rule of the reasoner: from the main graph and the delta graph of new
/// triples it derives facts, or reports a contradiction.
pub trait InferenceRule {
    /// Whether `r` is a result that the rule may give on the main graph's
    /// facts `main` and the delta graph's facts `delta`.
    spec fn outcome(&self, main: Set<Key3>, delta: Set<Key3>, r: Result<Vec<Fact>, Inconsistency>) -> bool;

    /// Applies the rule.
    fn apply(&self, main: &TripleGraph, delta: &TripleGraph) -> (r: Result<Vec<Fact>, Inconsistency>)
        requires
            vocab_valid(),
        ensures
            self.outcome(graph_facts(*main), graph_facts(*delta), r),
    ;
}

/// The result of a delta rule: the facts it derives from some delta triple,
/// and no others.
pub open spec fn delta_outcome<R: DeltaRule>(rule: &R, main: Set<Key3>, delta: Set<Key3>, r: Result<Vec<Fact>, Inconsistency>) -> bool {
    r matches Ok(v) && forall|f: Key3| facts_have(v@, f) <==> derived_by(rule, main, delta, f)
}

impl InferenceRule for CaxSco {
    open spec fn outcome(&self, main: Set<Key3>, delta: Set<Key3>, r: Result<Vec<Fact>, Inconsistency>) -> bool {
        delta_outcome(self, main, delta, r)
    }

    fn apply(&self, main: &TripleGraph, delta: &TripleGraph) -> (r: Result<Vec<Fact>, Inconsistency>) {
        Ok(apply_over_delta(self, main, delta))
    }
}

impl InferenceRule for PrpSpo1 {
    open spec fn outcome(&self, main: Set<Key3>, delta: Set<Key3>, r: Result<Vec<Fact>, Inconsistency>) -> bool {
        delta_outcome(self, main, delta, r)
    }

    fn apply(&self, main: &TripleGraph, delta: &TripleGraph) -> (r: Result<Vec<Fact>, Inconsistency>) {
        Ok(apply_over_delta(self, main, delta))
    }
}

impl InferenceRule for PrpTrp {
    open spec fn outcome(&self, main: Set<Key3>, delta: Set<Key3>, r: Result<Vec<Fact>, Inconsistency>) -> bool {
        delta_outcome(self, main, delta, r)
    }

    fn apply(&self, main: &TripleGraph, delta: &TripleGraph) -> (r: Result<Vec<Fact>, Inconsistency>) {
        Ok(apply_over_delta(self, main, delta))
    }
}

impl InferenceRule for PrpDom {
    open spec fn outcome(&self, main: Set<Key3>, delta: Set<Key3>, r: Result<Vec<Fact>, Inconsistency>) -> bool {
        delta_outcome(self, main, delta, r)
    }

    fn apply(&self, main: &TripleGraph, delta: &TripleGraph) -> (r: Result<Vec<Fact>, Inconsistency>) {
        Ok(apply_over_delta(self, main, delta))
    }
}

impl InferenceRule for PrpRng {
    open spec fn outcome(&self, main: Set<Key3>, delta: Set<Key3>, r: Result<Vec<Fact>, Inconsistency>) -> bool {
        delta_outcome(self, main, delta, r)
    }

    fn apply(&self, main: &TripleGraph, delta: &TripleGraph) -> (r: Result<Vec<Fact>, Inconsistency>) {
        Ok(apply_over_delta(self, main, delta))
    }
}

impl InferenceRule for PrpInv {
    open spec fn outcome(&self, main: Set<Key3>, delta: Set<Key3>, r: Result<Vec<Fact>, Inconsistency>) -> bool {
        delta_outcome(self, main, delta, r)
    }

    fn apply(&self, main: &TripleGraph, delta: &TripleGraph) -> (r: Result<Vec<Fact>, Inconsistency>) {
        Ok(apply_over_delta(self, main, delta))
    }
}

impl InferenceRule for EqRepS {
    open spec fn outcome(&self, main: Set<Key3>, delta: Set<Key3>, r: Result<Vec<Fact>, Inconsistency>) -> bool {
        delta_outcome(self, main, delta, r)
    }

    fn apply(&self, main: &TripleGraph, delta: &TripleGraph) -> (r: Result<Vec<Fact>, Inconsistency>) {
        Ok(apply_over_delta(self, main, delta))
    }
}

impl InferenceRule for CaxEqc {
    open spec fn outcome(&self, main: Set<Key3>, delta: Set<Key3>, r: Result<Vec<Fact>, Inconsistency>) -> bool {
        delta_outcome(self, main, delta, r)
    }

    fn apply(&self, main: &TripleGraph, delta: &TripleGraph) -> (r: Result<Vec<Fact>, Inconsistency>) {
        Ok(apply_over_delta(self, main, delta))
    }
}

impl InferenceRule for EqRef {
    open spec fn outcome(&self, main: Set<Key3>, delta: Set<Key3>, r: Result<Vec<Fact>, Inconsistency>) -> bool {
        delta_outcome(self, main, delta, r)
    }

    fn apply(&self, main: &TripleGraph, delta: &TripleGraph) -> (r: Result<Vec<Fact>, Inconsistency>) {
        Ok(apply_over_delta(self, main, delta))
    }
}

impl InferenceRule for EqSym {
    open spec fn outcome(&self, main: Set<Key3>, delta: Set<Key3>, r: Result<Vec<Fact>, Inconsistency>) -> bool {
        delta_outcome(self, main, delta, r)
    }

    fn apply(&self, main: &TripleGraph, delta: &TripleGraph) -> (r: Result<Vec<Fact>, Inconsistency>) {
        Ok(apply_over_delta(self, main, delta))
    }
}

impl InferenceRule for EqTrans {
    open spec fn outcome(&self, main: Set<Key3>, delta: Set<Key3>, r: Result<Vec<Fact>, Inconsistency>) -> bool {
        delta_outcome(self, main, delta, r)
    }

    fn apply(&self, main: &TripleGraph, delta: &TripleGraph) -> (r: Result<Vec<Fact>, Inconsistency>) {
        Ok(apply_over_delta(self, main, delta))
    }
}

impl InferenceRule for EqRepP {
    open spec fn outcome(&self, main: Set<Key3>, delta: Set<Key3>, r: Result<Vec<Fact>, Inconsistency>) -> bool {
        delta_outcome(self, main, delta, r)
    }

    fn apply(&self, main: &TripleGraph, delta: &TripleGraph) -> (r: Result<Vec<Fact>, Inconsistency>) {
        Ok(apply_over_delta(self, main, delta))
    }
}

impl InferenceRule for EqRepO {
    open spec fn outcome(&self, main: Set<Key3>, delta: Set<Key3>, r: Result<Vec<Fact>, Inconsistency>) -> bool {
        delta_outcome(self, main, delta, r)
    }

    fn apply(&self, main: &TripleGraph, delta: &TripleGraph) -> (r: Result<Vec<Fact>, Inconsistency>) {
        Ok(apply_over_delta(self, main, delta))
    }
}

impl InferenceRule for ScmSco {
    open spec fn outcome(&self, main: Set<Key3>, delta: Set<Key3>, r: Result<Vec<Fact>, Inconsistency>) -> bool {
        delta_outcome(self, main, delta, r)
    }

    fn apply(&self, main: &TripleGraph, delta: &TripleGraph) -> (r: Result<Vec<Fact>, Inconsistency>) {
        Ok(apply_over_delta(self, main, delta))
    }
}

impl InferenceRule for ScmSpo {
    open spec fn outcome(&self, main: Set<Key3>, delta: Set<Key3>, r: Result<Vec<Fact>, Inconsistency>) -> bool {
        delta_outcome(self, main, delta, r)
    }

    fn apply(&self, main: &TripleGraph, delta: &TripleGraph) -> (r: Result<Vec<Fact>, Inconsistency>) {
        Ok(apply_over_delta(self, main, delta))
    }
}

impl InferenceRule for PrpIrp {
    open spec fn outcome(&self, main: Set<Key3>, delta: Set<Key3>, r: Result<Vec<Fact>, Inconsistency>) -> bool {
        check_outcome(self, main, delta, r)
    }

    fn apply(&self, main: &TripleGraph, delta: &TripleGraph) -> (r: Result<Vec<Fact>, Inconsistency>) {
        check_over_delta(self, main, delta)
    }
}

impl InferenceRule for PrpAsyp {
    open spec fn outcome(&self, main: Set<Key3>, delta: Set<Key3>, r: Result<Vec<Fact>, Inconsistency>) -> bool {
        check_outcome(self, main, delta, r)
    }

    fn apply(&self, main: &TripleGraph, delta: &TripleGraph) -> (r: Result<Vec<Fact>, Inconsistency>) {
        check_over_delta(self, main, delta)
    }
}

impl InferenceRule for EqDiff1 {
    open spec fn outcome(&self, main: Set<Key3>, delta: Set<Key3>, r: Result<Vec<Fact>, Inconsistency>) -> bool {
        check_outcome(self, main, delta, r)
    }

    fn apply(&self, main: &TripleGraph, delta: &TripleGraph) -> (r: Result<Vec<Fact>, Inconsistency>) {
        check_over_delta(self, main, delta)
    }
}

impl InferenceRule for ClsDj {
    open spec fn outcome(&self, main: Set<Key3>, delta: Set<Key3>, r: Result<Vec<Fact>, Inconsistency>) -> bool {
        check_outcome(self, main, delta, r)
    }

    fn apply(&self, main: &TripleGraph, delta: &TripleGraph) -> (r: Result<Vec<Fact>, Inconsistency>) {
        check_over_delta(self, main, delta)
    }
}

impl InferenceRule for ClsNothing {
    open spec fn outcome(&self, main: Set<Key3>, delta: Set<Key3>, r: Result<Vec<Fact>, Inconsistency>) -> bool {
        check_outcome(self, main, delta, r)
    }

    fn apply(&self, main: &TripleGraph, delta: &TripleGraph) -> (r: Result<Vec<Fact>, Inconsistency>) {
        check_over_delta(self, main, delta)
    }
}

/// dt-diff: Different Datatype Values (derives nothing)
pub struct DtDiff;

impl InferenceRule for DtDiff {
    open spec fn outcome(&self, main: Set<Key3>, delta: Set<Key3>, r: Result<Vec<Fact>, Inconsistency>) -> bool {
        r matches Ok(v) && v@.len() == 0
    }

    fn apply(&self, main: &TripleGraph, delta: &TripleGraph) -> (r: Result<Vec<Fact>, Inconsistency>) {
        Ok(Vec::new())
    }
}

/// prp-npa1, prp-npa2: Negative Property Assertions
pub struct PrpNpa;

/// Whether `x` is a negative property assertion whose property holds, in
/// the main facts, from `i1` to its target individual or target value.
pub open spec fn negated_pair_asserted(main: Set<Key3>, x: Seq<char>, i1: Seq<char>) -> bool {
    exists|a: Key3, t: Key3| #![trigger main.contains(a), main.contains(t)] {
        &&& main.contains(a)
        &&& main.contains(t)
        &&& a.0 == x && a.1 == iri_key(OWL_ASSERTION_PROPERTY)
        &&& t.0 == x && (t.1 == iri_key(OWL_TARGET_INDIVIDUAL) || t.1 == iri_key(OWL_TARGET_VALUE))
        &&& main.contains((i1, a.2, t.2))
    }
}

/// Whether the main facts hold a triple with subject `s`, the object of one
/// of `ps` as predicate and the object of one of `ts` as object.
pub open spec fn some_pair_held(main: Set<Key3>, s: Seq<char>, ps: Seq<TermTriple>, ts: Seq<TermTriple>) -> bool {
    exists|i: int, j: int| 0 <= i < ps.len() && 0 <= j < ts.len()
        && #[trigger] main.contains((s, triple_key(ps[i]).2, triple_key(ts[j]).2))
}

/// Whether the main graph holds a triple from `s` by the object of one of
/// `ps` to the object of one of `ts`.
fn pair_held(main: &TripleGraph, s: &RdfTerm, ps: &Vec<TermTriple>, ts: &Vec<TermTriple>) -> (r: bool)
    requires
        term_valid(*s),
        forall|i: int| 0 <= i < ps@.len() ==> crate::graph::triple_valid(#[trigger] ps@[i]),
        forall|j: int| 0 <= j < ts@.len() ==> crate::graph::triple_valid(#[trigger] ts@[j]),
    ensures
        r == some_pair_held(graph_facts(*main), term_key(*s), ps@, ts@),
{
    let ghost mf = graph_facts(*main);
    let np = ps.len();
    let nt = ts.len();
    let mut i: usize = 0;
    while i < np
        invariant
            i <= np,
            np == ps@.len(),
            nt == ts@.len(),
            mf == graph_facts(*main),
            term_valid(*s),
            forall|x: int| 0 <= x < ps@.len() ==> crate::graph::triple_valid(#[trigger] ps@[x]),
            forall|y: int| 0 <= y < ts@.len() ==> crate::graph::triple_valid(#[trigger] ts@[y]),
            forall|x: int, y: int| 0 <= x < i && 0 <= y < nt
                ==> !#[trigger] mf.contains((term_key(*s), triple_key(ps@[x]).2, triple_key(ts@[y]).2)),
        decreases np - i,
    {
        let mut j: usize = 0;
        while j < nt
            invariant
                j <= nt,
                i < np,
                np == ps@.len(),
                nt == ts@.len(),
                mf == graph_facts(*main),
                term_valid(*s),
                forall|x: int| 0 <= x < ps@.len() ==> crate::graph::triple_valid(#[trigger] ps@[x]),
                forall|y: int| 0 <= y < ts@.len() ==> crate::graph::triple_valid(#[trigger] ts@[y]),
                forall|y: int| 0 <= y < j ==> !#[trigger] mf.contains((term_key(*s), triple_key(ps@[i as int]).2, triple_key(ts@[y]).2)),
            decreases nt - j,
        {
            assert(crate::graph::triple_valid(ps@[i as int]));
            assert(crate::graph::triple_valid(ts@[j as int]));
            if crate::graph::graph_contains(main, s, &ps[i].o, &ts[j].o) {
                assert(mf.contains((term_key(*s), triple_key(ps@[i as int]).2, triple_key(ts@[j as int]).2)));
                return true;
            }
            j += 1;
        }
        proof {
            assert forall|x: int, y: int| 0 <= x < i + 1 && 0 <= y < nt
                implies !#[trigger] mf.contains((term_key(*s), triple_key(ps@[x]).2, triple_key(ts@[y]).2)) by {
                if x < i {
                } else {
                    assert(!mf.contains((term_key(*s), triple_key(ps@[i as int]).2, triple_key(ts@[y]).2)));
                }
            }
        }
        i += 1;
    }
    false
}

impl DeltaCheck for PrpNpa {
    /// A negative property assertion, whose source individual is the
    /// subject of the delta triple, must not be contradicted by an asserted
    /// triple with its property and its target individual or value.
    open spec fn violates(&self, main: Set<Key3>, d: Key3) -> bool {
        d.1 == iri_key(OWL_SOURCE_INDIVIDUAL) && negated_pair_asserted(main, d.0, d.2)
    }

    open spec fn reports(&self, d: Key3, inc: Inconsistency) -> bool {
        single_report(inc, "prp-npa"@, d)
    }

    fn check(&self, main: &TripleGraph, d: &TermTriple) -> (r: Option<Inconsistency>) {
        let src = iri(OWL_SOURCE_INDIVIDUAL);
        if !d.p.same(&src) {
            return None;
        }
        let ap = iri(OWL_ASSERTION_PROPERTY);
        let ti = iri(OWL_TARGET_INDIVIDUAL);
        let tv = iri(OWL_TARGET_VALUE);
        let props = graph_match(main, Some(&d.s), Some(&ap), None);
        let tis = graph_match(main, Some(&d.s), Some(&ti), None);
        let tvs = graph_match(main, Some(&d.s), Some(&tv), None);
        let ghost mf = graph_facts(*main);
        let ghost dk = triple_key(*d);
        proof {
            assert forall|i: int| 0 <= i < props@.len() implies crate::graph::triple_valid(#[trigger] props@[i]) by {
                assert(mf.contains(triple_key(props@[i])));
            }
            assert forall|i: int| 0 <= i < tis@.len() implies crate::graph::triple_valid(#[trigger] tis@[i]) by {
                assert(mf.contains(triple_key(tis@[i])));
            }
            assert forall|i: int| 0 <= i < tvs@.len() implies crate::graph::triple_valid(#[trigger] tvs@[i]) by {
                assert(mf.contains(triple_key(tvs@[i])));
            }
        }
        let held = pair_held(main, &d.o, &props, &tis) || pair_held(main, &d.o, &props, &tvs);
        proof {
            if held {
                if some_pair_held(mf, dk.2, props@, tis@) {
                    let (i, j) = choose|i: int, j: int| 0 <= i < props@.len() && 0 <= j < tis@.len()
                        && #[trigger] mf.contains((dk.2, triple_key(props@[i]).2, triple_key(tis@[j]).2));
                    let a = triple_key(props@[i]);
                    let t = triple_key(tis@[j]);
                    assert(mf.contains(a) && mf.contains(t));
                } else {
                    let (i, j) = choose|i: int, j: int| 0 <= i < props@.len() && 0 <= j < tvs@.len()
                        && #[trigger] mf.contains((dk.2, triple_key(props@[i]).2, triple_key(tvs@[j]).2));
                    let a = triple_key(props@[i]);
                    let t = triple_key(tvs@[j]);
                    assert(mf.contains(a) && mf.contains(t));
                }
                assert(negated_pair_asserted(mf, dk.0, dk.2));
            }
            if negated_pair_asserted(mf, dk.0, dk.2) {
                let (a, t) = choose|a: Key3, t: Key3| #![trigger mf.contains(a), mf.contains(t)] {
                    &&& mf.contains(a)
                    &&& mf.contains(t)
                    &&& a.0 == dk.0 && a.1 == iri_key(OWL_ASSERTION_PROPERTY)
                    &&& t.0 == dk.0 && (t.1 == iri_key(OWL_TARGET_INDIVIDUAL) || t.1 == iri_key(OWL_TARGET_VALUE))
                    &&& mf.contains((dk.2, a.2, t.2))
                };
                assert(crate::graph::fact_matches(a, Some(&d.s), Some(&ap), None));
                let i = choose|i: int| 0 <= i < props@.len() && triple_key(props@[i]) == a;
                if t.1 == iri_key(OWL_TARGET_INDIVIDUAL) {
                    assert(crate::graph::fact_matches(t, Some(&d.s), Some(&ti), None));
                    let j = choose|j: int| 0 <= j < tis@.len() && triple_key(tis@[j]) == t;
                    assert(mf.contains((dk.2, triple_key(props@[i]).2, triple_key(tis@[j]).2)));
                } else {
                    assert(crate::graph::fact_matches(t, Some(&d.s), Some(&tv), None));
                    let j = choose|j: int| 0 <= j < tvs@.len() && triple_key(tvs@[j]) == t;
                    assert(mf.contains((dk.2, triple_key(props@[i]).2, triple_key(tvs@[j]).2)));
                }
            }
        }
        if held {
            Some(report("prp-npa", triple_fact(d)))
        } else {
            None
        }
    }
}

impl InferenceRule for PrpNpa {
    open spec fn outcome(&self, main: Set<Key3>, delta: Set<Key3>, r: Result<Vec<Fact>, Inconsistency>) -> bool {
        check_outcome(self, main, delta, r)
    }

    fn apply(&self, main: &TripleGraph, delta: &TripleGraph) -> (r: Result<Vec<Fact>, Inconsistency>) {
        check_over_delta(self, main, delta)
    }
}

/// The rules of the reasoner, by name.
#[derive(Clone, Copy, Debug, PartialEq, Eq)]
pub enum RuleKind {
    CaxSco,
    PrpSpo1,
    PrpTrp,
    PrpDom,
    PrpRng,
    PrpInv,
    CaxEqc,
    EqRef,
    EqSym,
    EqTrans,
    EqRepS,
    EqRepP,
    EqRepO,
    EqDiff1,
    PrpIrp,
    PrpAsyp,
    DtDiff,
    ScmSco,
    ScmSpo,
    ClsDj,
    PrpNpa,
    ClsNothing,
    PrpSpo2,
    ClsInt1,
    ClsInt2,
    ClsUni,
    ClsSvf1,
    ClsAvf,
    PrpKey,
}

impl InferenceRule for RuleKind {
    open spec fn outcome(&self, main: Set<Key3>, delta: Set<Key3>, r: Result<Vec<Fact>, Inconsistency>) -> bool {
        match *self {
            RuleKind::CaxSco => CaxSco.outcome(main, delta, r),
            RuleKind::PrpSpo1 => PrpSpo1.outcome(main, delta, r),
            RuleKind::PrpTrp => PrpTrp.outcome(main, delta, r),
            RuleKind::PrpDom => PrpDom.outcome(main, delta, r),
            RuleKind::PrpRng => PrpRng.outcome(main, delta, r),
            RuleKind::PrpInv => PrpInv.outcome(main, delta, r),
            RuleKind::CaxEqc => CaxEqc.outcome(main, delta, r),
            RuleKind::EqRef => EqRef.outcome(main, delta, r),
            RuleKind::EqSym => EqSym.outcome(main, delta, r),
            RuleKind::EqTrans => EqTrans.outcome(main, delta, r),
            RuleKind::EqRepS => EqRepS.outcome(main, delta, r),
            RuleKind::EqRepP => EqRepP.outcome(main, delta, r),
            RuleKind::EqRepO => EqRepO.outcome(main, delta, r),
            RuleKind::EqDiff1 => EqDiff1.outcome(main, delta, r),
            RuleKind::PrpIrp => PrpIrp.outcome(main, delta, r),
            RuleKind::PrpAsyp => PrpAsyp.outcome(main, delta, r),
            RuleKind::DtDiff => DtDiff.outcome(main, delta, r),
            RuleKind::ScmSco => ScmSco.outcome(main, delta, r),
            RuleKind::ScmSpo => ScmSpo.outcome(main, delta, r),
            RuleKind::ClsDj => ClsDj.outcome(main, delta, r),
            RuleKind::PrpNpa => PrpNpa.outcome(main, delta, r),
            RuleKind::ClsNothing => ClsNothing.outcome(main, delta, r),
            RuleKind::PrpSpo2 => compound::PrpSpo2.outcome(main, delta, r),
            RuleKind::ClsInt1 => compound::ClsInt1.outcome(main, delta, r),
            RuleKind::ClsInt2 => compound::ClsInt2.outcome(main, delta, r),
            RuleKind::ClsUni => compound::ClsUni.outcome(main, delta, r),
            RuleKind::ClsSvf1 => compound::ClsSvf1.outcome(main, delta, r),
            RuleKind::ClsAvf => compound::ClsAvf.outcome(main, delta, r),
            RuleKind::PrpKey => compound::PrpKey.outcome(main, delta, r),
        }
    }

    fn apply(&self, main: &TripleGraph, delta: &TripleGraph) -> (r: Result<Vec<Fact>, Inconsistency>) {
        match self {
            RuleKind::CaxSco => CaxSco.apply(main, delta),
            RuleKind::PrpSpo1 => PrpSpo1.apply(main, delta),
            RuleKind::PrpTrp => PrpTrp.apply(main, delta),
            RuleKind::PrpDom => PrpDom.apply(main, delta),
            RuleKind::PrpRng => PrpRng.apply(main, delta),
            RuleKind::PrpInv => PrpInv.apply(main, delta),
            RuleKind::CaxEqc => CaxEqc.apply(main, delta),
            RuleKind::EqRef => EqRef.apply(main, delta),
            RuleKind::EqSym => EqSym.apply(main, delta),
            RuleKind::EqTrans => EqTrans.apply(main, delta),
            RuleKind::EqRepS => EqRepS.apply(main, delta),
            RuleKind::EqRepP => EqRepP.apply(main, delta),
            RuleKind::EqRepO => EqRepO.apply(main, delta),
            RuleKind::EqDiff1 => EqDiff1.apply(main, delta),
            RuleKind::PrpIrp => PrpIrp.apply(main, delta),
            RuleKind::PrpAsyp => PrpAsyp.apply(main, delta),
            RuleKind::DtDiff => DtDiff.apply(main, delta),
            RuleKind::ScmSco => ScmSco.apply(main, delta),
            RuleKind::ScmSpo => ScmSpo.apply(main, delta),
            RuleKind::ClsDj => ClsDj.apply(main, delta),
            RuleKind::PrpNpa => PrpNpa.apply(main, delta),
            RuleKind::ClsNothing => ClsNothing.apply(main, delta),
            RuleKind::PrpSpo2 => compound::PrpSpo2.apply(main, delta),
            RuleKind::ClsInt1 => compound::ClsInt1.apply(main, delta),
            RuleKind::ClsInt2 => compound::ClsInt2.apply(main, delta),
            RuleKind::ClsUni => compound::ClsUni.apply(main, delta),
            RuleKind::ClsSvf1 => compound::ClsSvf1.apply(main, delta),
            RuleKind::ClsAvf => compound::ClsAvf.apply(main, delta),
            RuleKind::PrpKey => compound::PrpKey.apply(main, delta),
        }
    }
}

} // verus!
