use vstd::prelude::*;
use rayon::iter::{IntoParallelRefIterator, ParallelIterator, IndexedParallelIterator};
use crate::graph::{graph_facts, graph_new, Key3, TripleGraph};
use crate::memory::{fact_key, fact_view, store_triple, EngineMemory, Fact, Inconsistency, StoreError};
use crate::rules::{check_vocabulary, vocab_valid, DeltaRule, InferenceRule, RuleKind};
use crate::rules::compound::MainJobRule;
use crate::settings::ReasonerRules;
use crate::term::{canon, storable, term_key, RdfTerm};
use crate::manager::fact_valid;

verus! {

/// The forward chaining reasoner over the OWL 2 RL rules, grouped in
/// families that can be switched on and off.
pub struct InferenceEngine {
    pub rules_core: Vec<RuleKind>,
    pub rules_equality: Vec<RuleKind>,
    pub rules_chains: Vec<RuleKind>,
    pub rules_expressions: Vec<RuleKind>,
    pub rules_restrictions: Vec<RuleKind>,
    pub rules_datatypes: Vec<RuleKind>,
    pub rules_schema: Vec<RuleKind>,
}

/// Whether every family of the engine holds all of its rules, in the order
/// the engine is built with.
pub open spec fn full_engine(e: InferenceEngine) -> bool {
    &&& e.rules_core@ == seq![RuleKind::CaxSco, RuleKind::PrpSpo1, RuleKind::PrpTrp, RuleKind::PrpDom, RuleKind::PrpRng, RuleKind::PrpInv, RuleKind::CaxEqc]
    &&& e.rules_equality@ == seq![RuleKind::EqRef, RuleKind::EqSym, RuleKind::EqTrans, RuleKind::EqRepS, RuleKind::EqRepP, RuleKind::EqRepO, RuleKind::EqDiff1]
    &&& e.rules_chains@ == seq![RuleKind::PrpSpo2]
    &&& e.rules_expressions@ == seq![RuleKind::ClsInt1, RuleKind::ClsInt2, RuleKind::ClsUni]
    &&& e.rules_restrictions@ == seq![RuleKind::ClsSvf1, RuleKind::ClsAvf, RuleKind::PrpIrp, RuleKind::PrpAsyp, RuleKind::PrpKey]
    &&& e.rules_datatypes@ == seq![RuleKind::DtDiff]
    &&& e.rules_schema@ == seq![RuleKind::ScmSco, RuleKind::ScmSpo, RuleKind::ClsDj, RuleKind::PrpNpa, RuleKind::ClsNothing]
}

/// The rules applied under the given settings: the core rules, then each
/// enabled family in a fixed order.
pub open spec fn active_rules(e: InferenceEngine, s: ReasonerRules) -> Seq<RuleKind> {
    e.rules_core@
        + (if s.equality { e.rules_equality@ } else { Seq::empty() })
        + (if s.property_chains { e.rules_chains@ } else { Seq::empty() })
        + (if s.class_expressions { e.rules_expressions@ } else { Seq::empty() })
        + (if s.restrictions { e.rules_restrictions@ } else { Seq::empty() })
        + (if s.datatypes { e.rules_datatypes@ } else { Seq::empty() })
        + (if s.schema { e.rules_schema@ } else { Seq::empty() })
}

/// Whether `facts` are the strings of a list of facts that `rule` may derive
/// from the main facts `m` and the delta facts `d`.
pub open spec fn rule_yields(rule: RuleKind, m: Set<Key3>, d: Set<Key3>, facts: Seq<Key3>) -> bool {
    exists|v: Vec<Fact>| #[trigger] rule.outcome(m, d, Ok(v)) && facts_view(v@) == facts
}

/// Whether every rule succeeds and `outs[i]` is what rule `i` derives.
pub open spec fn round_yields(rules: Seq<RuleKind>, m: Set<Key3>, d: Set<Key3>, outs: Seq<Seq<Key3>>) -> bool {
    &&& outs.len() == rules.len()
    &&& forall|i: int| 0 <= i < rules.len() ==> rule_yields(rules[i], m, d, #[trigger] outs[i])
}

/// The keys of the triples that a list of facts denotes, leaving out the
/// facts with a term that cannot be stored.
pub open spec fn keys_of(facts: Seq<Key3>) -> Set<Key3> {
    Set::new(|k: Key3| exists|i: int| 0 <= i < facts.len() && k == fact_key(#[trigger] facts[i]) && fact_valid(facts[i]))
}

/// Whether the rule may succeed on the main facts `m` and delta facts `d`.
pub open spec fn rule_succeeds(rule: RuleKind, m: Set<Key3>, d: Set<Key3>) -> bool {
    exists|v: Vec<Fact>| #[trigger] rule.outcome(m, d, Ok(v))
}

/// Whether rule `i` reports `inc` and the rules before it succeed.
pub open spec fn round_fails(rules: Seq<RuleKind>, m: Set<Key3>, d: Set<Key3>, inc: Inconsistency) -> bool {
    exists|i: int| 0 <= i < rules.len() && #[trigger] rules[i].outcome(m, d, Err(inc))
        && forall|j: int| 0 <= j < i ==> #[trigger] rule_succeeds(rules[j], m, d)
}

/// Whether a run of at most `fuel` rounds from main facts `m` and delta facts
/// `d` may end with main facts `end_m`, delta facts `end_d`, and the reported
/// contradiction `found`. A round applies every rule to all the main facts;
/// a contradiction stops the run; otherwise the keys of the derived facts
/// join the main facts, the new ones become the delta, and the run stops
/// when nothing was new or the rounds are used up.
pub open spec fn run_ok(
    rules: Seq<RuleKind>,
    m: Set<Key3>,
    d: Set<Key3>,
    fuel: nat,
    end_m: Set<Key3>,
    end_d: Set<Key3>,
    found: Option<Inconsistency>,
) -> bool
    decreases fuel,
{
    if fuel == 0 {
        end_m == m && end_d == d && found is None
    } else {
        ||| found matches Some(inc) && round_fails(rules, m, m, inc) && end_m == m && end_d == d
        ||| exists|outs: Seq<Seq<Key3>>| #[trigger] round_yields(rules, m, m, outs) && {
            let k = keys_of(outs.flatten());
            if k.subset_of(m) || fuel == 1 {
                end_m == m.union(k) && end_d == k.difference(m) && found is None
            } else {
                run_ok(rules, m.union(k), k.difference(m), (fuel - 1) as nat, end_m, end_d, found)
            }
        }
    }
}

/// Whether the main facts `m` are closed under the rules: applied to all of
/// them, every rule succeeds, and what they derive is already among them.
pub open spec fn closed_under(rules: Seq<RuleKind>, m: Set<Key3>) -> bool {
    exists|outs: Seq<Seq<Key3>>| #[trigger] round_yields(rules, m, m, outs) && keys_of(outs.flatten()).subset_of(m)
}

/// A run that reports no contradiction and ends with nothing new has
/// reached main facts closed under the rules.
proof fn lemma_run_closed(
    rules: Seq<RuleKind>,
    m: Set<Key3>,
    d: Set<Key3>,
    fuel: nat,
    end_m: Set<Key3>,
    end_d: Set<Key3>,
)
    requires
        fuel >= 1,
        run_ok(rules, m, d, fuel, end_m, end_d, None),
        end_d == Set::<Key3>::empty(),
    ensures
        closed_under(rules, end_m),
    decreases fuel,
{
    let outs = choose|outs: Seq<Seq<Key3>>| #[trigger] round_yields(rules, m, m, outs) && {
        let k = keys_of(outs.flatten());
        if k.subset_of(m) || fuel == 1 {
            end_m == m.union(k) && end_d == k.difference(m)
        } else {
            run_ok(rules, m.union(k), k.difference(m), (fuel - 1) as nat, end_m, end_d, None)
        }
    };
    let k = keys_of(outs.flatten());
    if k.subset_of(m) || fuel == 1 {
        assert(k.subset_of(m)) by {
            assert forall|f: Key3| k.contains(f) implies m.contains(f) by {
                if !m.contains(f) {
                    assert(k.difference(m).contains(f));
                }
            }
        }
        assert(end_m =~= m);
    } else {
        lemma_run_closed(rules, m.union(k), k.difference(m), (fuel - 1) as nat, end_m, end_d);
    }
}

/// The reasoner's memory as sets of triple keys.
pub struct MemoryV {
    pub main: Set<Key3>,
    pub delta: Set<Key3>,
    pub asserted: Set<Key3>,
    pub inferred: Set<Key3>,
    pub consistent: bool,
    pub inconsistencies: Seq<Inconsistency>,
}

/// The model of a memory.
pub open spec fn memory_view(m: EngineMemory) -> MemoryV {
    MemoryV {
        main: graph_facts(m.main_graph),
        delta: graph_facts(m.delta_graph),
        asserted: graph_facts(m.asserted_graph),
        inferred: graph_facts(m.inferred_graph),
        consistent: m.is_consistent,
        inconsistencies: m.inconsistencies@,
    }
}

/// Whether `after` is a memory that a run of the reasoner with `rules` may
/// leave from `before`: a run of at most `MAX_ROUNDS` rounds took the main
/// and delta triples to those of `after`, possibly ending with a reported
/// contradiction, which is then recorded; the asserted triples stay; the
/// inferred triples gain the triples that the main triples gained.
pub open spec fn inference_ok(rules: Seq<RuleKind>, before: MemoryV, after: MemoryV) -> bool {
    &&& after.asserted == before.asserted
    &&& before.main.subset_of(after.main)
    &&& after.inferred == before.inferred.union(after.main.difference(before.main))
    &&& exists|found: Option<Inconsistency>| {
        &&& #[trigger] run_ok(rules, before.main, before.delta, MAX_ROUNDS as nat, after.main, after.delta, found)
        &&& match found {
            Some(inc) => !after.consistent && after.inconsistencies == before.inconsistencies.push(inc),
            None => after.consistent == before.consistent && after.inconsistencies == before.inconsistencies,
        }
    }
}

/// A run that ends as `found` says gives a memory that `inference_ok`
/// admits.
proof fn lemma_inference_ok(rules: Seq<RuleKind>, before: MemoryV, after: MemoryV, found: Option<Inconsistency>)
    requires
        after.asserted == before.asserted,
        before.main.subset_of(after.main),
        after.inferred == before.inferred.union(after.main.difference(before.main)),
        run_ok(rules, before.main, before.delta, MAX_ROUNDS as nat, after.main, after.delta, found),
        match found {
            Some(inc) => !after.consistent && after.inconsistencies == before.inconsistencies.push(inc),
            None => after.consistent == before.consistent && after.inconsistencies == before.inconsistencies,
        },
    ensures
        inference_ok(rules, before, after),
        found is None && after.delta == Set::<Key3>::empty() ==> closed_under(rules, after.main),
{
    if found is None && after.delta == Set::<Key3>::empty() {
        lemma_run_closed(rules, before.main, before.delta, MAX_ROUNDS as nat, after.main, after.delta);
    }
}

/// The reasoner reaches a fixpoint: where a run recorded no contradiction
/// and ended with nothing new to pass on, the main facts are closed under
/// the rules it ran. A run that still derived new facts in its last
/// allowed round ends with a non-empty delta.
pub proof fn law_reasoning_closed(rules: Seq<RuleKind>, before: MemoryV, after: MemoryV)
    requires
        inference_ok(rules, before, after),
        after.inconsistencies == before.inconsistencies,
        after.delta == Set::<Key3>::empty(),
    ensures
        closed_under(rules, after.main),
{
    let found = choose|found: Option<Inconsistency>| {
        &&& #[trigger] run_ok(rules, before.main, before.delta, MAX_ROUNDS as nat, after.main, after.delta, found)
        &&& match found {
            Some(inc) => !after.consistent && after.inconsistencies == before.inconsistencies.push(inc),
            None => after.consistent == before.consistent && after.inconsistencies == before.inconsistencies,
        }
    };
    if let Some(inc) = found {
        assert(after.inconsistencies.len() == before.inconsistencies.len() + 1);
    }
    lemma_run_closed(rules, before.main, before.delta, MAX_ROUNDS as nat, after.main, after.delta);
}

/// An item of one of the lists is an item of the lists joined.
proof fn lemma_flatten_has(outs: Seq<Seq<Key3>>, i: int, k: int)
    requires
        0 <= i < outs.len(),
        0 <= k < outs[i].len(),
    ensures
        outs.flatten().contains(outs[i][k]),
    decreases outs.len(),
{
    let rest = outs.drop_first().flatten();
    assert(outs.flatten() == outs.first() + rest);
    if i == 0 {
        assert((outs.first() + rest)[k] == outs[0][k]);
    } else {
        assert(outs.drop_first()[i - 1] == outs[i]);
        lemma_flatten_has(outs.drop_first(), i - 1, k);
        let j = choose|j: int| 0 <= j < rest.len() && rest[j] == outs[i][k];
        assert((outs.first() + rest)[outs.first().len() + j] == rest[j]);
    }
}

/// Inverse properties hold both ways once the reasoner is done: where main
/// facts closed under rules that include `prp-inv` state that `p1` is the
/// inverse of `p2`, every `x p1 y` comes with `y p2 x`, and every `x p2 y`
/// with `y p1 x`.
pub proof fn law_inverse_closed(
    rules: Seq<RuleKind>,
    m: Set<Key3>,
    p1: Seq<char>,
    p2: Seq<char>,
    x: Seq<char>,
    y: Seq<char>,
)
    requires
        closed_under(rules, m),
        rules.contains(RuleKind::PrpInv),
        m.contains((p1, crate::rules::iri_key(crate::rules::OWL_INVERSE_OF), p2)),
        crate::graph::key_valid(p1),
        crate::graph::key_valid(p2),
        crate::graph::key_valid(x),
        crate::graph::key_valid(y),
    ensures
        m.contains((x, p1, y)) ==> m.contains((y, p2, x)),
        m.contains((x, p2, y)) ==> m.contains((y, p1, x)),
{
    let inv = crate::rules::iri_key(crate::rules::OWL_INVERSE_OF);
    let d = (p1, inv, p2);
    if m.contains((x, p1, y)) {
        let f = (y, p2, x);
        assert(crate::rules::PrpInv.derives(m, d, f));
        lemma_closed_keeps(rules, m, RuleKind::PrpInv, crate::rules::PrpInv, f);
    }
    if m.contains((x, p2, y)) {
        let f = (y, p1, x);
        assert(crate::rules::PrpInv.derives(m, d, f));
        lemma_closed_keeps(rules, m, RuleKind::PrpInv, crate::rules::PrpInv, f);
    }
}

/// A fact that every successful outcome of the rule `k` on all of main
/// facts closed under rules that include `k` holds is already among them.
proof fn lemma_closed_has(rules: Seq<RuleKind>, m: Set<Key3>, k: RuleKind, f: Key3)
    requires
        closed_under(rules, m),
        rules.contains(k),
        forall|v: Vec<Fact>| #[trigger] k.outcome(m, m, Ok(v)) ==> crate::rules::facts_have(v@, f),
        fact_valid(f),
    ensures
        m.contains(fact_key(f)),
{
    let outs = choose|outs: Seq<Seq<Key3>>| #[trigger] round_yields(rules, m, m, outs) && keys_of(outs.flatten()).subset_of(m);
    let i = choose|i: int| 0 <= i < rules.len() && rules[i] == k;
    assert(rule_yields(rules[i], m, m, outs[i]));
    let v = choose|v: Vec<Fact>| #[trigger] rules[i].outcome(m, m, Ok(v)) && facts_view(v@) == outs[i];
    assert(crate::rules::facts_have(v@, f));
    let x = choose|x: int| 0 <= x < v@.len() && #[trigger] fact_view(v@[x]) == f;
    assert(outs[i][x] == f);
    lemma_flatten_has(outs, i, x);
    let j = choose|j: int| 0 <= j < outs.flatten().len() && outs.flatten()[j] == f;
    assert(keys_of(outs.flatten()).contains(fact_key(outs.flatten()[j])));
}

/// A fact that the rule `k` derives from all of main facts closed under
/// rules that include `k` is already among them.
proof fn lemma_closed_keeps<R: DeltaRule>(rules: Seq<RuleKind>, m: Set<Key3>, k: RuleKind, rule: R, f: Key3)
    requires
        closed_under(rules, m),
        rules.contains(k),
        forall|v: Vec<Fact>| #[trigger] k.outcome(m, m, Ok(v)) ==> crate::rules::delta_outcome(&rule, m, m, Ok(v)),
        crate::rules::derived_by(&rule, m, m, f),
        fact_valid(f),
    ensures
        m.contains(fact_key(f)),
{
    assert forall|v: Vec<Fact>| #[trigger] k.outcome(m, m, Ok(v)) implies crate::rules::facts_have(v@, f) by {
        let r: Result<Vec<Fact>, crate::memory::Inconsistency> = Ok(v);
        assert(crate::rules::delta_outcome(&rule, m, m, r));
        assert(forall|g: Key3| crate::rules::facts_have(r->Ok_0@, g) <==> crate::rules::derived_by(&rule, m, m, g));
        assert(r->Ok_0 == v);
        assert(crate::rules::facts_have(r->Ok_0@, f));
    }
    lemma_closed_has(rules, m, k, f);
}

/// A derived fact whose predicate is written as the bare text `t` of an
/// accepted IRI denotes the storable triple with the key of that IRI.
proof fn lemma_text_fact(x: Seq<char>, t: Seq<char>, c: Seq<char>)
    requires
        crate::graph::iri_valid(t),
        !crate::term::has_tag(t),
        crate::graph::key_valid(x),
        crate::graph::key_valid(c),
    ensures
        fact_valid((x, t, c)),
        fact_key((x, t, c)) == (x, crate::term::iri_tag() + t, c),
{
    assert((crate::term::iri_tag() + t).subrange(2, (crate::term::iri_tag() + t).len() as int) =~= t);
}

/// The IRIs that derived facts write as bare text carry no tag.
proof fn lemma_vocab_untagged()
    ensures
        !crate::term::has_tag(crate::rules::RDF_TYPE@),
        !crate::term::has_tag(crate::rules::OWL_SAME_AS@),
        !crate::term::has_tag(crate::rules::RDFS_SUBCLASS_OF@),
        !crate::term::has_tag(crate::rules::RDFS_SUBPROPERTY_OF@),
{
    reveal_strlit("http://www.w3.org/1999/02/22-rdf-syntax-ns#type");
    reveal_strlit("http://www.w3.org/2002/07/owl#sameAs");
    reveal_strlit("http://www.w3.org/2000/01/rdf-schema#subClassOf");
    reveal_strlit("http://www.w3.org/2000/01/rdf-schema#subPropertyOf");
}

/// A derived membership `x rdf:type c`, written with the text of
/// `rdf:type`, denotes a storable triple with the key of `rdf:type`.
proof fn lemma_type_fact(x: Seq<char>, c: Seq<char>)
    requires
        crate::rules::vocab_valid(),
        crate::graph::key_valid(x),
        crate::graph::key_valid(c),
    ensures
        fact_valid((x, crate::rules::RDF_TYPE@, c)),
        fact_key((x, crate::rules::RDF_TYPE@, c)) == (x, crate::rules::iri_key(crate::rules::RDF_TYPE), c),
{
    lemma_vocab_untagged();
    lemma_text_fact(x, crate::rules::RDF_TYPE@, c);
}

/// No triple of main facts closed under rules that include the checking
/// rule `k` contradicts them.
proof fn lemma_closed_checks<C: crate::rules::DeltaCheck>(rules: Seq<RuleKind>, m: Set<Key3>, k: RuleKind, rule: C, d: Key3)
    requires
        closed_under(rules, m),
        rules.contains(k),
        forall|v: Vec<Fact>| #[trigger] k.outcome(m, m, Ok(v)) ==> crate::rules::check_outcome(&rule, m, m, Ok(v)),
        m.contains(d),
    ensures
        !rule.violates(m, d),
{
    let outs = choose|outs: Seq<Seq<Key3>>| #[trigger] round_yields(rules, m, m, outs) && keys_of(outs.flatten()).subset_of(m);
    let i = choose|i: int| 0 <= i < rules.len() && rules[i] == k;
    assert(rule_yields(rules[i], m, m, outs[i]));
    let v = choose|v: Vec<Fact>| #[trigger] rules[i].outcome(m, m, Ok(v)) && facts_view(v@) == outs[i];
    assert(crate::rules::check_outcome(&rule, m, m, Ok(v)));
    assert(!crate::rules::violated_by(&rule, m, m));
}

/// Main facts that the reasoner has closed hold no contradiction that its
/// checking rules look for: no irreflexive property relates a node to
/// itself, no asymmetric property holds both ways, nothing is both the
/// same as and different from a node, nothing is a member of two disjoint
/// classes, and nothing is a member of `owl:Nothing`.
pub proof fn law_closed_consistent(
    rules: Seq<RuleKind>,
    m: Set<Key3>,
    p: Seq<char>,
    x: Seq<char>,
    y: Seq<char>,
    c1: Seq<char>,
    c2: Seq<char>,
)
    requires
        closed_under(rules, m),
    ensures
        rules.contains(RuleKind::PrpIrp) ==> !(m.contains((p, crate::rules::iri_key(crate::rules::RDF_TYPE),
            crate::rules::iri_key(crate::rules::OWL_IRREFLEXIVE_PROPERTY))) && m.contains((x, p, x))),
        rules.contains(RuleKind::PrpAsyp) ==> !(m.contains((p, crate::rules::iri_key(crate::rules::RDF_TYPE),
            crate::rules::iri_key(crate::rules::OWL_ASYMMETRIC_PROPERTY))) && m.contains((x, p, y)) && m.contains((y, p, x))),
        rules.contains(RuleKind::EqDiff1) ==> !(m.contains((x, crate::rules::iri_key(crate::rules::OWL_SAME_AS), y))
            && m.contains((x, crate::rules::iri_key(crate::rules::OWL_DIFFERENT_FROM), y))),
        rules.contains(RuleKind::ClsDj) ==> !(m.contains((c1, crate::rules::iri_key(crate::rules::OWL_DISJOINT_WITH), c2))
            && m.contains((x, crate::rules::iri_key(crate::rules::RDF_TYPE), c1))
            && m.contains((x, crate::rules::iri_key(crate::rules::RDF_TYPE), c2))),
        rules.contains(RuleKind::ClsNothing) ==> !m.contains((x, crate::rules::iri_key(crate::rules::RDF_TYPE),
            crate::rules::iri_key(crate::rules::OWL_NOTHING))),
{
    let ty = crate::rules::iri_key(crate::rules::RDF_TYPE);
    if rules.contains(RuleKind::PrpIrp) && m.contains((x, p, x)) {
        lemma_closed_checks(rules, m, RuleKind::PrpIrp, crate::rules::PrpIrp, (x, p, x));
    }
    if rules.contains(RuleKind::PrpAsyp) && m.contains((x, p, y)) {
        lemma_closed_checks(rules, m, RuleKind::PrpAsyp, crate::rules::PrpAsyp, (x, p, y));
    }
    if rules.contains(RuleKind::EqDiff1) && m.contains((x, crate::rules::iri_key(crate::rules::OWL_SAME_AS), y)) {
        lemma_closed_checks(rules, m, RuleKind::EqDiff1, crate::rules::EqDiff1, (x, crate::rules::iri_key(crate::rules::OWL_SAME_AS), y));
    }
    if rules.contains(RuleKind::ClsDj) && m.contains((x, ty, c1)) {
        lemma_closed_checks(rules, m, RuleKind::ClsDj, crate::rules::ClsDj, (x, ty, c1));
        if m.contains((c1, crate::rules::iri_key(crate::rules::OWL_DISJOINT_WITH), c2)) && m.contains((x, ty, c2)) {
            let mm = (c1, crate::rules::iri_key(crate::rules::OWL_DISJOINT_WITH), c2);
            assert(m.contains(mm) && mm.0 == c1 && m.contains((x, ty, mm.2)));
        }
    }
    if rules.contains(RuleKind::ClsNothing) && m.contains((x, ty, crate::rules::iri_key(crate::rules::OWL_NOTHING))) {
        lemma_closed_checks(rules, m, RuleKind::ClsNothing, crate::rules::ClsNothing, (x, ty, crate::rules::iri_key(crate::rules::OWL_NOTHING)));
    }
}

/// Equality holds as an equivalence once the reasoner is done: in main
/// facts closed under rules that include eq-ref, eq-sym and eq-trans, each
/// term of a triple is the same as itself, and `owl:sameAs` is symmetric
/// and transitive.
pub proof fn law_same_as_closed(rules: Seq<RuleKind>, m: Set<Key3>, x: Seq<char>, y: Seq<char>, z: Seq<char>, p: Seq<char>)
    requires
        closed_under(rules, m),
        crate::rules::vocab_valid(),
        crate::graph::key_valid(x),
        crate::graph::key_valid(y),
        crate::graph::key_valid(z),
    ensures
        rules.contains(RuleKind::EqRef) && m.contains((x, p, y))
            ==> m.contains((x, crate::rules::iri_key(crate::rules::OWL_SAME_AS), x))
            && m.contains((y, crate::rules::iri_key(crate::rules::OWL_SAME_AS), y)),
        rules.contains(RuleKind::EqSym) && m.contains((x, crate::rules::iri_key(crate::rules::OWL_SAME_AS), y))
            ==> m.contains((y, crate::rules::iri_key(crate::rules::OWL_SAME_AS), x)),
        rules.contains(RuleKind::EqTrans) && m.contains((x, crate::rules::iri_key(crate::rules::OWL_SAME_AS), y))
            && m.contains((y, crate::rules::iri_key(crate::rules::OWL_SAME_AS), z))
            ==> m.contains((x, crate::rules::iri_key(crate::rules::OWL_SAME_AS), z)),
{
    let same = crate::rules::iri_key(crate::rules::OWL_SAME_AS);
    lemma_vocab_untagged();
    lemma_text_fact(x, crate::rules::OWL_SAME_AS@, x);
    lemma_text_fact(y, crate::rules::OWL_SAME_AS@, y);
    lemma_text_fact(y, crate::rules::OWL_SAME_AS@, x);
    lemma_text_fact(x, crate::rules::OWL_SAME_AS@, z);
    if rules.contains(RuleKind::EqRef) && m.contains((x, p, y)) {
        let fx = (x, crate::rules::OWL_SAME_AS@, x);
        assert(crate::rules::EqRef.derives(m, (x, p, y), fx));
        lemma_closed_keeps(rules, m, RuleKind::EqRef, crate::rules::EqRef, fx);
        let fy = (y, crate::rules::OWL_SAME_AS@, y);
        assert(crate::rules::EqRef.derives(m, (x, p, y), fy));
        lemma_closed_keeps(rules, m, RuleKind::EqRef, crate::rules::EqRef, fy);
    }
    if rules.contains(RuleKind::EqSym) && m.contains((x, same, y)) {
        let f = (y, crate::rules::OWL_SAME_AS@, x);
        assert(crate::rules::EqSym.derives(m, (x, same, y), f));
        lemma_closed_keeps(rules, m, RuleKind::EqSym, crate::rules::EqSym, f);
    }
    if rules.contains(RuleKind::EqTrans) && m.contains((x, same, y)) && m.contains((y, same, z)) {
        let f = (x, crate::rules::OWL_SAME_AS@, z);
        assert(crate::rules::EqTrans.derives(m, (x, same, y), f));
        lemma_closed_keeps(rules, m, RuleKind::EqTrans, crate::rules::EqTrans, f);
    }
}

/// Equal nodes stand for each other once the reasoner is done: in main
/// facts closed under rules that include eq-rep-s, eq-rep-p and eq-rep-o,
/// where `x` is the same as `y`, a triple with `x` as subject, predicate or
/// object holds with `y` in its place.
pub proof fn law_replacement_closed(rules: Seq<RuleKind>, m: Set<Key3>, x: Seq<char>, y: Seq<char>, a: Seq<char>, b: Seq<char>)
    requires
        closed_under(rules, m),
        m.contains((x, crate::rules::iri_key(crate::rules::OWL_SAME_AS), y)),
        crate::graph::key_valid(y),
        crate::graph::key_valid(a),
        crate::graph::key_valid(b),
    ensures
        rules.contains(RuleKind::EqRepS) && m.contains((x, a, b)) ==> m.contains((y, a, b)),
        rules.contains(RuleKind::EqRepP) && m.contains((a, x, b)) ==> m.contains((a, y, b)),
        rules.contains(RuleKind::EqRepO) && m.contains((a, b, x)) ==> m.contains((a, b, y)),
{
    let d = (x, crate::rules::iri_key(crate::rules::OWL_SAME_AS), y);
    if rules.contains(RuleKind::EqRepS) && m.contains((x, a, b)) {
        let f = (y, a, b);
        assert(crate::rules::EqRepS.derives(m, d, f));
        lemma_closed_keeps(rules, m, RuleKind::EqRepS, crate::rules::EqRepS, f);
    }
    if rules.contains(RuleKind::EqRepP) && m.contains((a, x, b)) {
        let f = (a, y, b);
        assert(crate::rules::EqRepP.derives(m, d, f));
        lemma_closed_keeps(rules, m, RuleKind::EqRepP, crate::rules::EqRepP, f);
    }
    if rules.contains(RuleKind::EqRepO) && m.contains((a, b, x)) {
        let f = (a, b, y);
        assert(crate::rules::EqRepO.derives(m, d, f));
        lemma_closed_keeps(rules, m, RuleKind::EqRepO, crate::rules::EqRepO, f);
    }
}

/// Subsumption is transitive once the reasoner is done: in main facts
/// closed under rules that include scm-sco and scm-spo, `rdfs:subClassOf`
/// and `rdfs:subPropertyOf` chain.
pub proof fn law_schema_closed(rules: Seq<RuleKind>, m: Set<Key3>, a: Seq<char>, b: Seq<char>, c: Seq<char>)
    requires
        closed_under(rules, m),
        crate::rules::vocab_valid(),
        crate::graph::key_valid(a),
        crate::graph::key_valid(c),
    ensures
        rules.contains(RuleKind::ScmSco) && m.contains((a, crate::rules::iri_key(crate::rules::RDFS_SUBCLASS_OF), b))
            && m.contains((b, crate::rules::iri_key(crate::rules::RDFS_SUBCLASS_OF), c))
            ==> m.contains((a, crate::rules::iri_key(crate::rules::RDFS_SUBCLASS_OF), c)),
        rules.contains(RuleKind::ScmSpo) && m.contains((a, crate::rules::iri_key(crate::rules::RDFS_SUBPROPERTY_OF), b))
            && m.contains((b, crate::rules::iri_key(crate::rules::RDFS_SUBPROPERTY_OF), c))
            ==> m.contains((a, crate::rules::iri_key(crate::rules::RDFS_SUBPROPERTY_OF), c)),
{
    let sc = crate::rules::iri_key(crate::rules::RDFS_SUBCLASS_OF);
    let sp = crate::rules::iri_key(crate::rules::RDFS_SUBPROPERTY_OF);
    lemma_vocab_untagged();
    lemma_text_fact(a, crate::rules::RDFS_SUBCLASS_OF@, c);
    lemma_text_fact(a, crate::rules::RDFS_SUBPROPERTY_OF@, c);
    if rules.contains(RuleKind::ScmSco) && m.contains((a, sc, b)) && m.contains((b, sc, c)) {
        let f = (a, crate::rules::RDFS_SUBCLASS_OF@, c);
        assert(crate::rules::ScmSco.derives(m, (a, sc, b), f));
        lemma_closed_keeps(rules, m, RuleKind::ScmSco, crate::rules::ScmSco, f);
    }
    if rules.contains(RuleKind::ScmSpo) && m.contains((a, sp, b)) && m.contains((b, sp, c)) {
        let f = (a, crate::rules::RDFS_SUBPROPERTY_OF@, c);
        assert(crate::rules::ScmSpo.derives(m, (a, sp, b), f));
        lemma_closed_keeps(rules, m, RuleKind::ScmSpo, crate::rules::ScmSpo, f);
    }
}

/// cax-sco holds once the reasoner is done: in main facts closed under
/// rules that include it, a member of a class is a member of each of its
/// superclasses.
pub proof fn law_subclass_closed(rules: Seq<RuleKind>, m: Set<Key3>, x: Seq<char>, c1: Seq<char>, c2: Seq<char>)
    requires
        closed_under(rules, m),
        rules.contains(RuleKind::CaxSco),
        crate::rules::vocab_valid(),
        crate::graph::key_valid(x),
        crate::graph::key_valid(c2),
        m.contains((x, crate::rules::iri_key(crate::rules::RDF_TYPE), c1)),
        m.contains((c1, crate::rules::iri_key(crate::rules::RDFS_SUBCLASS_OF), c2)),
    ensures
        m.contains((x, crate::rules::iri_key(crate::rules::RDF_TYPE), c2)),
{
    let f = (x, crate::rules::RDF_TYPE@, c2);
    lemma_type_fact(x, c2);
    assert(crate::rules::CaxSco.derives(m, (x, crate::rules::iri_key(crate::rules::RDF_TYPE), c1), f));
    lemma_closed_keeps(rules, m, RuleKind::CaxSco, crate::rules::CaxSco, f);
}

/// prp-spo1 holds once the reasoner is done: in main facts closed under
/// rules that include it, a triple with a property holds with each of its
/// superproperties.
pub proof fn law_subproperty_closed(rules: Seq<RuleKind>, m: Set<Key3>, x: Seq<char>, p1: Seq<char>, p2: Seq<char>, y: Seq<char>)
    requires
        closed_under(rules, m),
        rules.contains(RuleKind::PrpSpo1),
        crate::graph::key_valid(x),
        crate::graph::key_valid(p2),
        crate::graph::key_valid(y),
        m.contains((x, p1, y)),
        m.contains((p1, crate::rules::iri_key(crate::rules::RDFS_SUBPROPERTY_OF), p2)),
    ensures
        m.contains((x, p2, y)),
{
    let f = (x, p2, y);
    assert(crate::rules::PrpSpo1.derives(m, (p1, crate::rules::iri_key(crate::rules::RDFS_SUBPROPERTY_OF), p2), f));
    lemma_closed_keeps(rules, m, RuleKind::PrpSpo1, crate::rules::PrpSpo1, f);
}

/// prp-trp holds once the reasoner is done: in main facts closed under
/// rules that include it, a transitive property chains its triples.
pub proof fn law_transitive_closed(rules: Seq<RuleKind>, m: Set<Key3>, p: Seq<char>, x: Seq<char>, y: Seq<char>, z: Seq<char>)
    requires
        closed_under(rules, m),
        rules.contains(RuleKind::PrpTrp),
        crate::graph::key_valid(x),
        crate::graph::key_valid(p),
        crate::graph::key_valid(z),
        m.contains((p, crate::rules::iri_key(crate::rules::RDF_TYPE), crate::rules::iri_key(crate::rules::OWL_TRANSITIVE_PROPERTY))),
        m.contains((x, p, y)),
        m.contains((y, p, z)),
    ensures
        m.contains((x, p, z)),
{
    let f = (x, p, z);
    assert(crate::rules::PrpTrp.derives(m, (x, p, y), f));
    lemma_closed_keeps(rules, m, RuleKind::PrpTrp, crate::rules::PrpTrp, f);
}

/// prp-dom and prp-rng hold once the reasoner is done: in main facts closed
/// under rules that include them, the subject of a property is a member of
/// its domain and the object a member of its range.
pub proof fn law_domain_range_closed(rules: Seq<RuleKind>, m: Set<Key3>, p: Seq<char>, c: Seq<char>, x: Seq<char>, y: Seq<char>)
    requires
        closed_under(rules, m),
        crate::rules::vocab_valid(),
        crate::graph::key_valid(x),
        crate::graph::key_valid(y),
        crate::graph::key_valid(c),
        m.contains((x, p, y)),
    ensures
        rules.contains(RuleKind::PrpDom) && m.contains((p, crate::rules::iri_key(crate::rules::RDFS_DOMAIN), c))
            ==> m.contains((x, crate::rules::iri_key(crate::rules::RDF_TYPE), c)),
        rules.contains(RuleKind::PrpRng) && m.contains((p, crate::rules::iri_key(crate::rules::RDFS_RANGE), c))
            ==> m.contains((y, crate::rules::iri_key(crate::rules::RDF_TYPE), c)),
{
    lemma_type_fact(x, c);
    lemma_type_fact(y, c);
    if rules.contains(RuleKind::PrpDom) && m.contains((p, crate::rules::iri_key(crate::rules::RDFS_DOMAIN), c)) {
        let f = (x, crate::rules::RDF_TYPE@, c);
        assert(crate::rules::PrpDom.derives(m, (p, crate::rules::iri_key(crate::rules::RDFS_DOMAIN), c), f));
        lemma_closed_keeps(rules, m, RuleKind::PrpDom, crate::rules::PrpDom, f);
    }
    if rules.contains(RuleKind::PrpRng) && m.contains((p, crate::rules::iri_key(crate::rules::RDFS_RANGE), c)) {
        let f = (y, crate::rules::RDF_TYPE@, c);
        assert(crate::rules::PrpRng.derives(m, (p, crate::rules::iri_key(crate::rules::RDFS_RANGE), c), f));
        lemma_closed_keeps(rules, m, RuleKind::PrpRng, crate::rules::PrpRng, f);
    }
}

/// cax-eqc holds once the reasoner is done: in main facts closed under
/// rules that include it, equivalent classes have the same members.
pub proof fn law_equivalent_class_closed(rules: Seq<RuleKind>, m: Set<Key3>, x: Seq<char>, c1: Seq<char>, c2: Seq<char>)
    requires
        closed_under(rules, m),
        rules.contains(RuleKind::CaxEqc),
        crate::rules::vocab_valid(),
        crate::graph::key_valid(x),
        crate::graph::key_valid(c1),
        crate::graph::key_valid(c2),
        m.contains((c1, crate::rules::iri_key(crate::rules::OWL_EQUIVALENT_CLASS), c2)),
    ensures
        m.contains((x, crate::rules::iri_key(crate::rules::RDF_TYPE), c1)) ==> m.contains((x, crate::rules::iri_key(crate::rules::RDF_TYPE), c2)),
        m.contains((x, crate::rules::iri_key(crate::rules::RDF_TYPE), c2)) ==> m.contains((x, crate::rules::iri_key(crate::rules::RDF_TYPE), c1)),
{
    let d = (c1, crate::rules::iri_key(crate::rules::OWL_EQUIVALENT_CLASS), c2);
    lemma_type_fact(x, c1);
    lemma_type_fact(x, c2);
    if m.contains((x, crate::rules::iri_key(crate::rules::RDF_TYPE), c1)) {
        let f = (x, crate::rules::RDF_TYPE@, c2);
        assert(crate::rules::CaxEqc.derives(m, d, f));
        lemma_closed_keeps(rules, m, RuleKind::CaxEqc, crate::rules::CaxEqc, f);
    }
    if m.contains((x, crate::rules::iri_key(crate::rules::RDF_TYPE), c2)) {
        let f = (x, crate::rules::RDF_TYPE@, c1);
        assert(crate::rules::CaxEqc.derives(m, d, f));
        lemma_closed_keeps(rules, m, RuleKind::CaxEqc, crate::rules::CaxEqc, f);
    }
}

/// The facts that a restriction rule gives on a job with the only property
/// its restriction has are among those of each of its successful outcomes.
proof fn lemma_restriction_job<R: MainJobRule<Option<Seq<char>>>>(
    rule: R,
    m: Set<Key3>,
    t: Key3,
    p: Seq<char>,
    f: Key3,
    v: Vec<Fact>,
)
    requires
        crate::rules::compound::main_job_outcome(rule, m, Ok(v)),
        m.contains(t),
        t.1 == rule.job_key(),
        forall|c: Option<Seq<char>>| rule.allowed(m, t, c) ==> c == Some(p),
        rule.gives(m, t, Some(p), f),
    ensures
        crate::rules::facts_have(v@, f),
{
    let (jobs, choices) = choose|jobs: Seq<Key3>, choices: Seq<Option<Seq<char>>>|
        #[trigger] crate::rules::compound::jobs_outcome(v@, jobs, choices, crate::rules::compound::main_jobs(m, rule.job_key()),
            crate::rules::compound::rule_allowed(rule, m), crate::rules::compound::rule_gives(rule, m));
    let is_job = crate::rules::compound::main_jobs(m, rule.job_key());
    let allowed = crate::rules::compound::rule_allowed(rule, m);
    let gives = crate::rules::compound::rule_gives(rule, m);
    assert(is_job(t));
    let x = choose|x: int| 0 <= x < jobs.len() && jobs[x] == t;
    assert(allowed(jobs[x], choices[x]));
    assert(rule.allowed(m, t, choices[x]));
    assert(choices[x] == Some(p));
    assert(gives(jobs[x], choices[x], f));
    assert(crate::rules::compound::yields(jobs, choices, gives, f));
}

/// The restriction rules hold once the reasoner is done, for a restriction
/// `r` on the single property `p`: with cls-svf1, whatever is related by `p`
/// to a member of `y` is a member of `r` where `r` is `owl:someValuesFrom`
/// `y`; with cls-avf, whatever a member of `r` is related to by `p` is a
/// member of `y` where `r` is `owl:allValuesFrom` `y`.
pub proof fn law_restrictions_closed(
    rules: Seq<RuleKind>,
    m: Set<Key3>,
    r: Seq<char>,
    y: Seq<char>,
    p: Seq<char>,
    u: Seq<char>,
    v: Seq<char>,
)
    requires
        closed_under(rules, m),
        crate::rules::vocab_valid(),
        crate::graph::key_valid(r),
        crate::graph::key_valid(y),
        crate::graph::key_valid(u),
        crate::graph::key_valid(v),
        m.contains((r, crate::rules::iri_key(crate::rules::OWL_ON_PROPERTY), p)),
        forall|q: Seq<char>| #[trigger] m.contains((r, crate::rules::iri_key(crate::rules::OWL_ON_PROPERTY), q)) ==> q == p,
        m.contains((u, p, v)),
    ensures
        rules.contains(RuleKind::ClsSvf1) && m.contains((r, crate::rules::iri_key(crate::rules::OWL_SOME_VALUES_FROM), y))
            && m.contains((v, crate::rules::iri_key(crate::rules::RDF_TYPE), y))
            ==> m.contains((u, crate::rules::iri_key(crate::rules::RDF_TYPE), r)),
        rules.contains(RuleKind::ClsAvf) && m.contains((r, crate::rules::iri_key(crate::rules::OWL_ALL_VALUES_FROM), y))
            && m.contains((u, crate::rules::iri_key(crate::rules::RDF_TYPE), r))
            ==> m.contains((v, crate::rules::iri_key(crate::rules::RDF_TYPE), y)),
{
    let ty = crate::rules::iri_key(crate::rules::RDF_TYPE);
    let onp = crate::rules::iri_key(crate::rules::OWL_ON_PROPERTY);
    lemma_type_fact(u, r);
    lemma_type_fact(v, y);
    if rules.contains(RuleKind::ClsSvf1) && m.contains((r, crate::rules::iri_key(crate::rules::OWL_SOME_VALUES_FROM), y))
        && m.contains((v, ty, y)) {
        let t = (r, crate::rules::iri_key(crate::rules::OWL_SOME_VALUES_FROM), y);
        let f = (u, crate::rules::RDF_TYPE@, r);
        let rule = crate::rules::compound::ClsSvf1;
        assert forall|c: Option<Seq<char>>| rule.allowed(m, t, c) implies c == Some(p) by {
            if c is None {
                assert(m.contains((r, onp, p)));
            }
        }
        let mm = (u, p, v);
        assert(m.contains((v, ty, t.2)) && m.contains(mm) && mm.1 == p && mm.2 == v && f == (mm.0, crate::rules::RDF_TYPE@, t.0));
        assert(rule.gives(m, t, Some(p), f));
        assert forall|w: Vec<Fact>| #[trigger] RuleKind::ClsSvf1.outcome(m, m, Ok(w)) implies crate::rules::facts_have(w@, f) by {
            lemma_restriction_job(rule, m, t, p, f, w);
        }
        lemma_closed_has(rules, m, RuleKind::ClsSvf1, f);
    }
    if rules.contains(RuleKind::ClsAvf) && m.contains((r, crate::rules::iri_key(crate::rules::OWL_ALL_VALUES_FROM), y))
        && m.contains((u, ty, r)) {
        let t = (r, crate::rules::iri_key(crate::rules::OWL_ALL_VALUES_FROM), y);
        let f = (v, crate::rules::RDF_TYPE@, y);
        let rule = crate::rules::compound::ClsAvf;
        assert forall|c: Option<Seq<char>>| rule.allowed(m, t, c) implies c == Some(p) by {
            if c is None {
                assert(m.contains((r, onp, p)));
            }
        }
        let mm = (u, p, v);
        assert(m.contains((u, ty, t.0)) && m.contains(mm) && mm.0 == u && mm.1 == p && f == (mm.2, crate::rules::RDF_TYPE@, t.2));
        assert(rule.gives(m, t, Some(p), f));
        assert forall|w: Vec<Fact>| #[trigger] RuleKind::ClsAvf.outcome(m, m, Ok(w)) implies crate::rules::facts_have(w@, f) by {
            lemma_restriction_job(rule, m, t, p, f, w);
        }
        lemma_closed_has(rules, m, RuleKind::ClsAvf, f);
    }
}

/// The largest number of rounds of one run of the reasoner.
pub const MAX_ROUNDS: usize = 50;

fn extend_rules(dst: &mut Vec<RuleKind>, src: &Vec<RuleKind>)
    ensures
        final(dst)@ == old(dst)@ + src@,
{
    let n = src.len();
    let mut i: usize = 0;
    while i < n
        invariant
            i <= n,
            n == src@.len(),
            dst@ == old(dst)@ + src@.subrange(0, i as int),
        decreases n - i,
    {
        dst.push(src[i]);
        i += 1;
        assert(dst@ =~= old(dst)@ + src@.subrange(0, i as int));
    }
    assert(src@.subrange(0, n as int) =~= src@);
}

/// The strings of a list of facts.
pub open spec fn facts_view(v: Seq<Fact>) -> Seq<Key3> {
    v.map_values(|f: Fact| fact_view(f))
}

/// Appending a fact appends its strings.
proof fn lemma_facts_view_push(s: Seq<Fact>, x: Fact)
    ensures
        facts_view(s.push(x)) == facts_view(s).push(fact_view(x)),
{
    assert(facts_view(s.push(x)) =~= facts_view(s).push(fact_view(x)));
}

/// `rayon`'s `par_iter` over the rules, each mapped through
/// `InferenceRule::apply` and gathered with `collect_into_vec`: the rules
/// run in parallel on the same graphs and their results come back in the
/// order of the rules.
#[verifier::external_body]
fn apply_each_parallel(rules: &Vec<RuleKind>, main: &TripleGraph, delta: &TripleGraph) -> (r: Vec<Result<Vec<Fact>, Inconsistency>>)
    requires
        vocab_valid(),
    ensures
        r@.len() == rules@.len(),
        forall|i: int| 0 <= i < rules@.len() ==> rules@[i].outcome(graph_facts(*main), graph_facts(*delta), #[trigger] r@[i]),
{
    let mut out = Vec::new();
    rules.par_iter().map(|rule| rule.apply(main, delta)).collect_into_vec(&mut out);
    out
}

/// Applies the rules to the same main and delta graphs and gathers what
/// they derive; where some report a contradiction, the first of them in the
/// order of the rules is returned.
fn apply_rules(rules: &Vec<RuleKind>, main: &TripleGraph, delta: &TripleGraph) -> (r: Result<Vec<Fact>, Inconsistency>)
    requires
        vocab_valid(),
    ensures
        r matches Ok(all) ==> exists|outs: Seq<Seq<Key3>>| #[trigger] round_yields(rules@, graph_facts(*main), graph_facts(*delta), outs)
            && facts_view(all@) == outs.flatten(),
        r matches Err(inc) ==> round_fails(rules@, graph_facts(*main), graph_facts(*delta), inc),
{
    let ghost mc = graph_facts(*main);
    let ghost dc = graph_facts(*delta);
    let mut results = apply_each_parallel(rules, main, delta);
    let ghost res0 = results@;
    let n = results.len();
    let mut e: usize = 0;
    while e < n && !results[e].is_err()
        invariant
            e <= n,
            n == results@.len(),
            forall|j: int| 0 <= j < e ==> #[trigger] results@[j] is Ok,
        decreases n - e,
    {
        e += 1;
    }
    if e < n {
        proof {
            assert forall|j: int| 0 <= j < e implies #[trigger] rule_succeeds(rules@[j], mc, dc) by {
                assert(res0[j] is Ok);
                assert(rules@[j].outcome(mc, dc, res0[j]));
                match res0[j] {
                    Ok(v) => {
                        assert(rules@[j].outcome(mc, dc, Ok(v)));
                    },
                    Err(_) => {},
                }
            }
            assert(rules@[e as int].outcome(mc, dc, res0[e as int]));
        }
        let first = results.remove(e);
        match first {
            Err(inc) => {
                return Err(inc);
            },
            Ok(_) => {
                assert(false);
                return Err(Inconsistency { rule_name: String::new(), conflicting_triples: Vec::new() });
            },
        }
    }
    let mut all: Vec<Fact> = Vec::new();
    let ghost mut outs: Seq<Seq<Key3>> = Seq::empty();
    let mut i: usize = 0;
    while i < n
        invariant
            i <= n,
            n == results@.len(),
            n == rules@.len(),
            forall|j: int| 0 <= j < n ==> #[trigger] results@[j] is Ok,
            forall|j: int| 0 <= j < n ==> rules@[j].outcome(mc, dc, #[trigger] results@[j]),
            outs.len() == i,
            forall|j: int| 0 <= j < i ==> rule_yields(rules@[j], mc, dc, #[trigger] outs[j]),
            facts_view(all@) == outs.flatten(),
        decreases n - i,
    {
        assert(results@[i as int] is Ok);
        assert(rules@[i as int].outcome(mc, dc, results@[i as int]));
        match &results[i] {
            Err(_) => {
                assert(false);
            },
            Ok(v) => {
                let ghost vv = facts_view(v@);
                proof {
                    assert(rule_yields(rules@[i as int], mc, dc, vv));
                    outs.lemma_flatten_push(vv);
                    outs = outs.push(vv);
                }
                let ghost before = facts_view(all@);
                let vn = v.len();
                let mut k: usize = 0;
                while k < vn
                    invariant
                        k <= vn,
                        vn == v@.len(),
                        vv == facts_view(v@),
                        facts_view(all@) == before + vv.subrange(0, k as int),
                    decreases vn - k,
                {
                    let fk = v[k].duplicate();
                    proof {
                        lemma_facts_view_push(all@, fk);
                    }
                    all.push(fk);
                    k += 1;
                    assert(facts_view(all@) =~= before + vv.subrange(0, k as int));
                }
                assert(vv.subrange(0, vn as int) =~= vv);
            },
        }
        i += 1;
    }
    assert(round_yields(rules@, mc, dc, outs));
    Ok(all)
}

/// The keys of the facts up to and including the one at `x` are among the
/// keys of all of them, and those not in `mc` among the new ones.
proof fn lemma_merge_failed(flat: Seq<Key3>, x: int)
    requires
        0 <= x < flat.len(),
    ensures
        keys_of(flat.subrange(0, x + 1)).subset_of(keys_of(flat)),
        keys_of(flat.subrange(0, x)).subset_of(keys_of(flat)),
        fact_valid(flat[x]) ==> keys_of(flat).contains(fact_key(flat[x])),
{
    let a = flat.subrange(0, x + 1);
    let b = flat.subrange(0, x);
    assert forall|kk: Key3| keys_of(a).contains(kk) implies keys_of(flat).contains(kk) by {
        let j = choose|j: int| 0 <= j < a.len() && kk == fact_key(#[trigger] a[j]) && fact_valid(a[j]);
        assert(flat[j] == a[j]);
    }
    assert forall|kk: Key3| keys_of(b).contains(kk) implies keys_of(flat).contains(kk) by {
        let j = choose|j: int| 0 <= j < b.len() && kk == fact_key(#[trigger] b[j]) && fact_valid(b[j]);
        assert(flat[j] == b[j]);
    }
}

/// Adds the triples that the facts denote to the main graph and to the
/// inferred graph; returns the graph of those that were new, and how many
/// they are.
fn merge_facts(memory: &mut EngineMemory, all: &Vec<Fact>) -> (r: Result<(TripleGraph, usize), StoreError>)
    ensures
        graph_facts(final(memory).asserted_graph) == graph_facts(old(memory).asserted_graph),
        final(memory).is_consistent == old(memory).is_consistent,
        final(memory).inconsistencies@ == old(memory).inconsistencies@,
        r matches Ok((g, n)) ==> {
            let mc = graph_facts(old(memory).main_graph);
            let k = keys_of(facts_view(all@));
            &&& graph_facts(final(memory).main_graph) == mc.union(k)
            &&& graph_facts(g) == k.difference(mc)
            &&& graph_facts(final(memory).inferred_graph) == graph_facts(old(memory).inferred_graph).union(k.difference(mc))
            &&& (n == 0) == k.subset_of(mc)
        },
        all@.len() == 0 ==> r is Ok,
        r is Err ==> r == Err::<(TripleGraph, usize), StoreError>(StoreError::TermIndexFull),
        r is Err ==> {
            let mc = graph_facts(old(memory).main_graph);
            let ic = graph_facts(old(memory).inferred_graph);
            let k = keys_of(facts_view(all@));
            &&& mc.subset_of(graph_facts(final(memory).main_graph))
            &&& graph_facts(final(memory).main_graph).subset_of(mc.union(k))
            &&& ic.subset_of(graph_facts(final(memory).inferred_graph))
            &&& graph_facts(final(memory).inferred_graph).subset_of(ic.union(k.difference(mc)))
        },
{
    let ghost mc = graph_facts(memory.main_graph);
    let ghost ic = graph_facts(memory.inferred_graph);
    let ghost flat = facts_view(all@);
    let mut next_delta = graph_new();
    let mut new_count: usize = 0;
    let an = all.len();
    let mut x: usize = 0;
    while x < an
        invariant
            x <= an,
            an == all@.len(),
            flat == facts_view(all@),
            mc == graph_facts(old(memory).main_graph),
            ic == graph_facts(old(memory).inferred_graph),
            graph_facts(memory.main_graph) == mc.union(keys_of(flat.subrange(0, x as int))),
            graph_facts(next_delta) == keys_of(flat.subrange(0, x as int)).difference(mc),
            graph_facts(memory.inferred_graph) == ic.union(keys_of(flat.subrange(0, x as int)).difference(mc)),
            graph_facts(memory.asserted_graph) == graph_facts(old(memory).asserted_graph),
            memory.is_consistent == old(memory).is_consistent,
            memory.inconsistencies@ == old(memory).inconsistencies@,
            new_count <= x,
            (new_count == 0) == keys_of(flat.subrange(0, x as int)).subset_of(mc),
        decreases an - x,
    {
        let f = &all[x];
        let s = InferenceEngine::make_term(f.s.as_str());
        let p = InferenceEngine::make_term(f.p.as_str());
        let o = InferenceEngine::make_term(f.o.as_str());
        let ghost key = fact_key(flat[x as int]);
        proof {
            let a = flat.subrange(0, x + 1 as int);
            let b = flat.subrange(0, x as int);
            let valid = fact_valid(flat[x as int]);
            assert forall|kk: Key3| keys_of(a).contains(kk) <==> (if valid { keys_of(b).insert(key) } else { keys_of(b) }).contains(kk) by {
                if keys_of(a).contains(kk) {
                    let j = choose|j: int| 0 <= j < a.len() && kk == fact_key(#[trigger] a[j]) && fact_valid(a[j]);
                    if j < x {
                        assert(b[j] == a[j]);
                    } else {
                        assert(a[j] == flat[x as int]);
                    }
                }
                if keys_of(b).contains(kk) {
                    let j = choose|j: int| 0 <= j < b.len() && kk == fact_key(#[trigger] b[j]) && fact_valid(b[j]);
                    assert(a[j] == b[j]);
                }
                if kk == key && valid {
                    assert(a[x as int] == flat[x as int]);
                }
            }
            if valid {
                assert(keys_of(a) =~= keys_of(b).insert(key));
            } else {
                assert(keys_of(a) =~= keys_of(b));
            }
        }
        let inserted = match store_triple(&mut memory.main_graph, &s, &p, &o) {
            Ok(b) => b,
            Err(StoreError::InvalidTerm) => false,
            Err(StoreError::TermIndexFull) => {
                proof {
                    lemma_merge_failed(flat, x as int);
                }
                return Err(StoreError::TermIndexFull);
            },
        };
        if inserted {
            match store_triple(&mut next_delta, &s, &p, &o) {
                Ok(_) => {},
                Err(e) => {
                    proof {
                        lemma_merge_failed(flat, x as int);
                    }
                    return Err(e);
                },
            }
            match store_triple(&mut memory.inferred_graph, &s, &p, &o) {
                Ok(_) => {},
                Err(e) => {
                    proof {
                        lemma_merge_failed(flat, x as int);
                    }
                    return Err(e);
                },
            }
            new_count += 1;
        }
        x += 1;
        proof {
            let kx = keys_of(flat.subrange(0, x as int));
            assert(graph_facts(memory.main_graph) =~= mc.union(kx));
            assert(graph_facts(next_delta) =~= kx.difference(mc));
            assert(graph_facts(memory.inferred_graph) =~= ic.union(kx.difference(mc)));
        }
    }
    assert(flat.subrange(0, an as int) =~= flat);
    Ok((next_delta, new_count))
}

impl InferenceEngine {
    /// The engine with every rule in its family.
    pub fn new() -> (e: Self)
        ensures
            e.rules_core@ == seq![RuleKind::CaxSco, RuleKind::PrpSpo1, RuleKind::PrpTrp, RuleKind::PrpDom, RuleKind::PrpRng, RuleKind::PrpInv, RuleKind::CaxEqc],
            e.rules_equality@ == seq![RuleKind::EqRef, RuleKind::EqSym, RuleKind::EqTrans, RuleKind::EqRepS, RuleKind::EqRepP, RuleKind::EqRepO, RuleKind::EqDiff1],
            e.rules_chains@ == seq![RuleKind::PrpSpo2],
            e.rules_expressions@ == seq![RuleKind::ClsInt1, RuleKind::ClsInt2, RuleKind::ClsUni],
            e.rules_restrictions@ == seq![RuleKind::ClsSvf1, RuleKind::ClsAvf, RuleKind::PrpIrp, RuleKind::PrpAsyp, RuleKind::PrpKey],
            e.rules_datatypes@ == seq![RuleKind::DtDiff],
            e.rules_schema@ == seq![RuleKind::ScmSco, RuleKind::ScmSpo, RuleKind::ClsDj, RuleKind::PrpNpa, RuleKind::ClsNothing],
            full_engine(e),
    {
        InferenceEngine {
            rules_core: vec![RuleKind::CaxSco, RuleKind::PrpSpo1, RuleKind::PrpTrp, RuleKind::PrpDom, RuleKind::PrpRng, RuleKind::PrpInv, RuleKind::CaxEqc],
            rules_equality: vec![RuleKind::EqRef, RuleKind::EqSym, RuleKind::EqTrans, RuleKind::EqRepS, RuleKind::EqRepP, RuleKind::EqRepO, RuleKind::EqDiff1],
            rules_chains: vec![RuleKind::PrpSpo2],
            rules_expressions: vec![RuleKind::ClsInt1, RuleKind::ClsInt2, RuleKind::ClsUni],
            rules_restrictions: vec![RuleKind::ClsSvf1, RuleKind::ClsAvf, RuleKind::PrpIrp, RuleKind::PrpAsyp, RuleKind::PrpKey],
            rules_datatypes: vec![RuleKind::DtDiff],
            rules_schema: vec![RuleKind::ScmSco, RuleKind::ScmSpo, RuleKind::ClsDj, RuleKind::PrpNpa, RuleKind::ClsNothing],
        }
    }

    /// Runs rounds of forward chaining until no new fact is derived, a rule
    /// reports a contradiction, or `MAX_ROUNDS` rounds have run. Derived
    /// facts join the main graph; those that are new also join the inferred
    /// graph and become the delta of the next round. A contradiction marks
    /// the memory inconsistent and is recorded. A derived fact with a term
    /// that cannot be stored is left out. It fails with `InvalidTerm`
    /// exactly when a vocabulary IRI is refused, and otherwise only when a
    /// graph's term index is full.
    pub fn run_inference(&self, memory: &mut EngineMemory, rules_settings: &ReasonerRules) -> (r: Result<(), StoreError>)
        ensures
            graph_facts(final(memory).asserted_graph) == graph_facts(old(memory).asserted_graph),
            !vocab_valid() ==> r == Err::<(), StoreError>(StoreError::InvalidTerm) && *final(memory) == *old(memory),
            r is Ok ==> inference_ok(active_rules(*self, *rules_settings), memory_view(*old(memory)), memory_view(*final(memory))),
            vocab_valid() ==> (r is Err ==> r == Err::<(), StoreError>(StoreError::TermIndexFull)),
            r is Ok && final(memory).inconsistencies@ == old(memory).inconsistencies@
                && graph_facts(final(memory).delta_graph) == Set::<Key3>::empty()
                ==> closed_under(active_rules(*self, *rules_settings), graph_facts(final(memory).main_graph)),
    {
        if !check_vocabulary() {
            return Err(StoreError::InvalidTerm);
        }
        let active = self.active_list(rules_settings);
        let ghost rules = active@;
        let ghost m0 = graph_facts(memory.main_graph);
        let ghost d0 = graph_facts(memory.delta_graph);
        let ghost i0 = graph_facts(memory.inferred_graph);
        let ghost a0 = graph_facts(memory.asserted_graph);
        let ghost c0 = memory.is_consistent;
        let ghost inc0 = memory.inconsistencies@;
        let mut iteration: usize = 1;
        loop
            invariant
                1 <= iteration <= MAX_ROUNDS,
                vocab_valid(),
                active@ == rules,
                rules == active_rules(*self, *rules_settings),
                m0 == graph_facts(old(memory).main_graph),
                d0 == graph_facts(old(memory).delta_graph),
                i0 == graph_facts(old(memory).inferred_graph),
                a0 == graph_facts(old(memory).asserted_graph),
                c0 == old(memory).is_consistent,
                inc0 == old(memory).inconsistencies@,
                graph_facts(memory.asserted_graph) == a0,
                graph_facts(memory.inferred_graph) == i0.union(graph_facts(memory.main_graph).difference(m0)),
                m0.subset_of(graph_facts(memory.main_graph)),
                memory.is_consistent == c0,
                memory.inconsistencies@ == inc0,
                forall|em: Set<Key3>, ed: Set<Key3>, found: Option<Inconsistency>|
                    #[trigger] run_ok(rules, graph_facts(memory.main_graph), graph_facts(memory.delta_graph), (MAX_ROUNDS + 1 - iteration) as nat, em, ed, found)
                    ==> run_ok(rules, m0, d0, MAX_ROUNDS as nat, em, ed, found),
            decreases MAX_ROUNDS + 1 - iteration,
        {
            let ghost mc = graph_facts(memory.main_graph);
            let ghost dc = graph_facts(memory.delta_graph);
            let ghost fuel = (MAX_ROUNDS + 1 - iteration) as nat;
            match apply_rules(&active, &memory.main_graph, &memory.main_graph) {
                Err(inc) => {
                    proof {
                        assert(run_ok(rules, mc, dc, fuel, mc, dc, Some(inc)));
                    }
                    let ghost ginc = inc;
                    memory.is_consistent = false;
                    memory.inconsistencies.push(inc);
                    assert(run_ok(rules, m0, d0, MAX_ROUNDS as nat, graph_facts(memory.main_graph), graph_facts(memory.delta_graph), Some(ginc)));
                    proof {
                        lemma_inference_ok(rules, memory_view(*old(memory)), memory_view(*memory), Some(ginc));
                        assert(memory.inconsistencies@.len() == old(memory).inconsistencies@.len() + 1);
                    }
                    return Ok(());
                },
                Ok(all) => {
                    let ghost outs = choose|outs: Seq<Seq<Key3>>| #[trigger] round_yields(rules, mc, mc, outs)
                        && facts_view(all@) == outs.flatten();
                    let ghost k_all = keys_of(outs.flatten());
                    let (next_delta, new_count) = match merge_facts(memory, &all) {
                        Ok(merged) => merged,
                        Err(e) => {
                            return Err(e);
                        },
                    };
                    memory.delta_graph = next_delta;
                    proof {
                        assert(graph_facts(memory.inferred_graph) =~= i0.union(graph_facts(memory.main_graph).difference(m0)));
                    }
                    if new_count == 0 {
                        proof {
                            assert(run_ok(rules, mc, dc, fuel, mc.union(k_all), k_all.difference(mc), None));
                            assert(run_ok(rules, m0, d0, MAX_ROUNDS as nat, graph_facts(memory.main_graph), graph_facts(memory.delta_graph), None));
                            lemma_inference_ok(rules, memory_view(*old(memory)), memory_view(*memory), None);
                        }
                        return Ok(());
                    }
                    iteration += 1;
                    if iteration > MAX_ROUNDS {
                        proof {
                            assert(run_ok(rules, mc, dc, fuel, mc.union(k_all), k_all.difference(mc), None));
                            assert(run_ok(rules, m0, d0, MAX_ROUNDS as nat, graph_facts(memory.main_graph), graph_facts(memory.delta_graph), None));
                            lemma_inference_ok(rules, memory_view(*old(memory)), memory_view(*memory), None);
                        }
                        return Ok(());
                    }
                    proof {
                        assert forall|em: Set<Key3>, ed: Set<Key3>, found: Option<Inconsistency>|
                            #[trigger] run_ok(rules, graph_facts(memory.main_graph), graph_facts(memory.delta_graph), (MAX_ROUNDS + 1 - iteration) as nat, em, ed, found)
                            implies run_ok(rules, m0, d0, MAX_ROUNDS as nat, em, ed, found) by {
                            assert(run_ok(rules, mc, dc, fuel, em, ed, found));
                        }
                    }
                },
            }
        }
    }

    /// The rules that the settings switch on, in the order of `active_rules`.
    fn active_list(&self, rules_settings: &ReasonerRules) -> (active: Vec<RuleKind>)
        ensures
            active@ == active_rules(*self, *rules_settings),
    {
        let mut active: Vec<RuleKind> = Vec::new();
        extend_rules(&mut active, &self.rules_core);
        if rules_settings.equality {
            extend_rules(&mut active, &self.rules_equality);
        }
        if rules_settings.property_chains {
            extend_rules(&mut active, &self.rules_chains);
        }
        if rules_settings.class_expressions {
            extend_rules(&mut active, &self.rules_expressions);
        }
        if rules_settings.restrictions {
            extend_rules(&mut active, &self.rules_restrictions);
        }
        if rules_settings.datatypes {
            extend_rules(&mut active, &self.rules_datatypes);
        }
        if rules_settings.schema {
            extend_rules(&mut active, &self.rules_schema);
        }
        assert(active@ =~= active_rules(*self, *rules_settings));
        active
    }

    /// The term that a string denotes: `i:`, `l:` and `b:` introduce an IRI,
    /// a literal and a blank node; any other string is the text of an IRI.
    pub fn make_term(s: &str) -> (r: RdfTerm)
        ensures
            term_key(r) == canon(s@),
            storable(r),
            crate::graph::term_valid(r) == crate::graph::key_valid(canon(s@)),
    {
        let n = s.unicode_len();
        if n >= 2 && s.get_char(1) == ':' {
            let c = s.get_char(0);
            if c == 'i' || c == 'l' || c == 'b' {
                let v = s.substring_char(2, n).to_owned();
                proof {
                    assert(s@ =~= seq![c, ':'] + v@);
                }
                let r = if c == 'i' {
                    RdfTerm::Iri(v)
                } else if c == 'l' {
                    RdfTerm::Literal(v)
                } else {
                    RdfTerm::Blank(v)
                };
                proof {
                    crate::graph::lemma_key_valid(r);
                }
                return r;
            }
        }
        let r = RdfTerm::Iri(s.to_owned());
        proof {
            crate::graph::lemma_key_valid(r);
        }
        r
    }
}

} // verus!
