use vstd::prelude::*;
use crate::graph::{fact_matches, graph_facts, graph_match, term_valid, triple_key, triple_valid, Key3, TermTriple, TripleGraph};
use crate::memory::{fact_view, Fact, Inconsistency};
use crate::rules::lists::{keys_view, lemma_strings_view_push, list_walk, rdf_list, strings_view};
use crate::rules::{
    built, emit_matches, facts_have, facts_have_from, iri, iri_key, lemma_facts_from_split, triple_fact,
    vocab_valid, InferenceRule, Slot, OWL_ALL_VALUES_FROM, OWL_HAS_KEY, OWL_INTERSECTION_OF, OWL_ON_PROPERTY,
    OWL_PROPERTY_CHAIN_AXIOM, OWL_SAME_AS, OWL_SOME_VALUES_FROM, OWL_UNION_OF, RDF_TYPE,
};
use crate::term::{term_key, RdfTerm};

verus! {

// The rules of this module first gather "jobs" (a triple, or a pair of
// triples, that the rule starts from) and, for each job, make a choice in
// the graph: the elements of an RDF list, or the property of a restriction.
// Where a node has several values, the choice may fall on any of them, and
// two jobs with the same list may choose differently. The contracts
// therefore say: the jobs are listed, each with a choice the graph allows,
// and the facts are exactly those that the jobs give with their choices.

/// Whether `jobs` lists every job that `is_job` admits, and only those.
pub open spec fn lists_jobs<J>(jobs: Seq<J>, is_job: spec_fn(J) -> bool) -> bool {
    &&& forall|x: int| 0 <= x < jobs.len() ==> #[trigger] is_job(jobs[x])
    &&& forall|j: J| #[trigger] is_job(j) ==> exists|x: int| 0 <= x < jobs.len() && jobs[x] == j
}

/// Whether each job made a choice that `allowed` admits.
pub open spec fn choices_allowed<J, C>(jobs: Seq<J>, choices: Seq<C>, allowed: spec_fn(J, C) -> bool) -> bool {
    &&& jobs.len() == choices.len()
    &&& forall|x: int| 0 <= x < jobs.len() ==> #[trigger] allowed(jobs[x], choices[x])
}

/// Whether some job gives the fact `f` with its choice.
pub open spec fn yields<J, C>(jobs: Seq<J>, choices: Seq<C>, gives: spec_fn(J, C, Key3) -> bool, f: Key3) -> bool {
    exists|x: int| 0 <= x < jobs.len() && #[trigger] gives(jobs[x], choices[x], f)
}

/// Whether the facts of `out` are exactly those that the listed jobs give.
pub open spec fn jobs_outcome<J, C>(
    out: Seq<Fact>,
    jobs: Seq<J>,
    choices: Seq<C>,
    is_job: spec_fn(J) -> bool,
    allowed: spec_fn(J, C) -> bool,
    gives: spec_fn(J, C, Key3) -> bool,
) -> bool {
    &&& lists_jobs(jobs, is_job)
    &&& choices_allowed(jobs, choices, allowed)
    &&& forall|f: Key3| facts_have(out, f) <==> yields(jobs, choices, gives, f)
}

/// Appending the facts of one more job keeps the facts those that the jobs
/// give.
pub proof fn lemma_yields_push<J, C>(
    before: Seq<Fact>,
    after: Seq<Fact>,
    jobs: Seq<J>,
    choices: Seq<C>,
    gives: spec_fn(J, C, Key3) -> bool,
    j: J,
    c: C,
)
    requires
        jobs.len() == choices.len(),
        after.len() >= before.len(),
        forall|i: int| 0 <= i < before.len() ==> #[trigger] after[i] == before[i],
        forall|f: Key3| facts_have(before, f) <==> yields(jobs, choices, gives, f),
        forall|f: Key3| facts_have_from(after, before.len() as int, f) <==> gives(j, c, f),
    ensures
        forall|f: Key3| facts_have(after, f) <==> yields(jobs.push(j), choices.push(c), gives, f),
{
    lemma_facts_from_split(before, after, 0, before.len() as int);
    let js = jobs.push(j);
    let cs = choices.push(c);
    assert forall|f: Key3| facts_have(after, f) <==> yields(js, cs, gives, f) by {
        assert(facts_have(after, f) <==> facts_have_from(after, 0, f));
        assert(facts_have(before, f) <==> facts_have_from(before, 0, f));
        if yields(jobs, choices, gives, f) {
            let x = choose|x: int| 0 <= x < jobs.len() && #[trigger] gives(jobs[x], choices[x], f);
            assert(js[x] == jobs[x] && cs[x] == choices[x]);
        }
        if gives(j, c, f) {
            assert(js[jobs.len() as int] == j && cs[jobs.len() as int] == c);
        }
        if yields(js, cs, gives, f) {
            let x = choose|x: int| 0 <= x < js.len() && #[trigger] gives(js[x], cs[x], f);
            if x < jobs.len() {
                assert(js[x] == jobs[x] && cs[x] == choices[x]);
            }
        }
    }
}

/// Whether a term of `list` has the key `k`.
fn has_key(list: &Vec<RdfTerm>, k: &String) -> (r: bool)
    ensures
        r == keys_view(list@).contains(k@),
{
    let n = list.len();
    let mut i: usize = 0;
    while i < n
        invariant
            i <= n,
            n == list@.len(),
            forall|j: int| 0 <= j < i ==> keys_view(list@)[j] != k@,
        decreases n - i,
    {
        let ki = list[i].key();
        if ki == *k {
            assert(keys_view(list@)[i as int] == k@);
            return true;
        }
        i += 1;
    }
    false
}

/// Appends, for each term of `list`, the fact that `subject` has it as a
/// type.
fn emit_types(subject: &String, list: &Vec<RdfTerm>, out: &mut Vec<Fact>)
    ensures
        final(out)@.len() >= old(out)@.len(),
        forall|i: int| 0 <= i < old(out)@.len() ==> #[trigger] final(out)@[i] == old(out)@[i],
        forall|f: Key3| facts_have_from(final(out)@, old(out)@.len() as int, f)
            <==> exists|y: int| 0 <= y < list@.len() && f == (subject@, RDF_TYPE@, #[trigger] keys_view(list@)[y]),
{
    let ghost start = old(out)@.len() as int;
    let n = list.len();
    let mut k: usize = 0;
    while k < n
        invariant
            k <= n,
            n == list@.len(),
            start == old(out)@.len(),
            out@.len() == start + k,
            forall|i: int| 0 <= i < start ==> #[trigger] out@[i] == old(out)@[i],
            forall|y: int| 0 <= y < k ==> #[trigger] fact_view(out@[start + y]) == (subject@, RDF_TYPE@, keys_view(list@)[y]),
        decreases n - k,
    {
        out.push(Fact { s: subject.clone(), p: RDF_TYPE.to_owned(), o: list[k].key() });
        proof {
            assert(fact_view(out@[start + k as int]) == (subject@, RDF_TYPE@, keys_view(list@)[k as int]));
        }
        k += 1;
    }
    proof {
        assert forall|f: Key3| facts_have_from(out@, start, f)
            <==> exists|y: int| 0 <= y < list@.len() && f == (subject@, RDF_TYPE@, #[trigger] keys_view(list@)[y]) by {
            if facts_have_from(out@, start, f) {
                let i = choose|i: int| start <= i < out@.len() && #[trigger] fact_view(out@[i]) == f;
                assert(fact_view(out@[start + (i - start)]) == (subject@, RDF_TYPE@, keys_view(list@)[i - start]));
            }
            if exists|y: int| 0 <= y < list@.len() && f == (subject@, RDF_TYPE@, #[trigger] keys_view(list@)[y]) {
                let y = choose|y: int| 0 <= y < list@.len() && f == (subject@, RDF_TYPE@, #[trigger] keys_view(list@)[y]);
                assert(fact_view(out@[start + y]) == (subject@, RDF_TYPE@, keys_view(list@)[y]));
            }
        }
    }
}

/// cls-int2: Intersection Membership (projection)
pub struct ClsInt2;

/// A job of cls-int2: a new triple `y rdf:type c` and a triple
/// `c owl:intersectionOf l`.
pub open spec fn int2_job(main: Set<Key3>, delta: Set<Key3>) -> spec_fn((Key3, Key3)) -> bool {
    |jb: (Key3, Key3)| delta.contains(jb.0) && jb.0.1 == iri_key(RDF_TYPE) && main.contains(jb.1)
        && jb.1.0 == jb.0.2 && jb.1.1 == iri_key(OWL_INTERSECTION_OF)
}

/// The choice of a cls-int2 job: a walk of the list `l`.
pub open spec fn walk_of_second(main: Set<Key3>) -> spec_fn((Key3, Key3), Seq<Seq<char>>) -> bool {
    |jb: (Key3, Key3), elems: Seq<Seq<char>>| list_walk(main, jb.1.2, Seq::empty(), elems)
}

/// What a cls-int2 job gives: `y` is a member of every class of the list.
pub open spec fn int2_gives() -> spec_fn((Key3, Key3), Seq<Seq<char>>, Key3) -> bool {
    |jb: (Key3, Key3), elems: Seq<Seq<char>>, f: Key3| exists|y: int| 0 <= y < elems.len() && f == (jb.0.0, RDF_TYPE@, #[trigger] elems[y])
}

impl InferenceRule for ClsInt2 {
    open spec fn outcome(&self, main: Set<Key3>, delta: Set<Key3>, r: Result<Vec<Fact>, Inconsistency>) -> bool {
        r matches Ok(v) && exists|jobs: Seq<(Key3, Key3)>, lists: Seq<Seq<Seq<char>>>|
            #[trigger] jobs_outcome(v@, jobs, lists, int2_job(main, delta), walk_of_second(main), int2_gives())
    }

    fn apply(&self, main: &TripleGraph, delta: &TripleGraph) -> (r: Result<Vec<Fact>, Inconsistency>) {
        let ghost mf = graph_facts(*main);
        let ghost df = graph_facts(*delta);
        let ty = iri(RDF_TYPE);
        let int_of = iri(OWL_INTERSECTION_OF);
        let ds = graph_match(delta, None, Some(&ty), None);
        let mut out: Vec<Fact> = Vec::new();
        let ghost mut jobs: Seq<(Key3, Key3)> = Seq::empty();
        let ghost mut lists: Seq<Seq<Seq<char>>> = Seq::empty();
        let n = ds.len();
        let mut i: usize = 0;
        proof {
            assert forall|j: int| 0 <= j < ds@.len() implies {
                &&& df.contains(#[trigger] triple_key(ds@[j]))
                &&& triple_valid(ds@[j])
                &&& fact_matches(triple_key(ds@[j]), None, Some(&ty), None)
            } by {
                assert(graph_facts(*delta).contains(triple_key(ds@[j])));
            }
        }
        while i < n
            invariant
                i <= n,
                n == ds@.len(),
                vocab_valid(),
                mf == graph_facts(*main),
                df == graph_facts(*delta),
                term_key(ty) == iri_key(RDF_TYPE),
                term_key(int_of) == iri_key(OWL_INTERSECTION_OF),
                term_valid(int_of),
                forall|j: int| 0 <= j < ds@.len() ==> {
                    &&& df.contains(#[trigger] triple_key(ds@[j]))
                    &&& triple_valid(ds@[j])
                    &&& fact_matches(triple_key(ds@[j]), None, Some(&ty), None)
                },
                forall|d: Key3| #[trigger] df.contains(d) && fact_matches(d, None, Some(&ty), None)
                    ==> exists|j: int| 0 <= j < ds@.len() && triple_key(ds@[j]) == d,
                choices_allowed(jobs, lists, walk_of_second(mf)),
                forall|x: int| 0 <= x < jobs.len() ==> #[trigger] int2_job(mf, df)(jobs[x]),
                forall|jb: (Key3, Key3)| #[trigger] int2_job(mf, df)(jb) && (exists|j: int| 0 <= j < i && triple_key(ds@[j]) == jb.0)
                    ==> exists|x: int| 0 <= x < jobs.len() && jobs[x] == jb,
                forall|f: Key3| facts_have(out@, f) <==> yields(jobs, lists, int2_gives(), f),
            decreases n - i,
        {
            let d = &ds[i];
            let ghost dk = triple_key(*d);
            assert(df.contains(triple_key(ds@[i as int])));
            let ms = graph_match(main, Some(&d.o), Some(&int_of), None);
            proof {
                assert forall|j: int| 0 <= j < ms@.len() implies {
                    &&& mf.contains(#[trigger] triple_key(ms@[j]))
                    &&& triple_valid(ms@[j])
                    &&& triple_key(ms@[j]).0 == dk.2
                    &&& triple_key(ms@[j]).1 == iri_key(OWL_INTERSECTION_OF)
                } by {
                    assert(graph_facts(*main).contains(triple_key(ms@[j])));
                }
            }
            let y = d.s.key();
            let ghost jobs_i = jobs;
            let mk = ms.len();
            let mut k: usize = 0;
            while k < mk
                invariant
                    k <= mk,
                    mk == ms@.len(),
                    i < n,
                    n == ds@.len(),
                    vocab_valid(),
                    mf == graph_facts(*main),
                    df == graph_facts(*delta),
                    dk == triple_key(ds@[i as int]),
                    y@ == dk.0,
                    df.contains(dk),
                    dk.1 == iri_key(RDF_TYPE),
                    forall|j: int| 0 <= j < ms@.len() ==> {
                        &&& mf.contains(#[trigger] triple_key(ms@[j]))
                        &&& triple_valid(ms@[j])
                        &&& triple_key(ms@[j]).0 == dk.2
                        &&& triple_key(ms@[j]).1 == iri_key(OWL_INTERSECTION_OF)
                    },
                    choices_allowed(jobs, lists, walk_of_second(mf)),
                    forall|x: int| 0 <= x < jobs.len() ==> #[trigger] int2_job(mf, df)(jobs[x]),
                    jobs_i.len() <= jobs.len(),
                    forall|x: int| 0 <= x < jobs_i.len() ==> #[trigger] jobs[x] == jobs_i[x],
                    forall|jb: (Key3, Key3)| #[trigger] int2_job(mf, df)(jb) && (exists|j: int| 0 <= j < i && triple_key(ds@[j]) == jb.0)
                        ==> exists|x: int| 0 <= x < jobs_i.len() && jobs_i[x] == jb,
                    forall|l: int| 0 <= l < k ==> exists|x: int| 0 <= x < jobs.len() && jobs[x] == (dk, #[trigger] triple_key(ms@[l])),
                    forall|f: Key3| facts_have(out@, f) <==> yields(jobs, lists, int2_gives(), f),
                decreases mk - k,
            {
                assert(mf.contains(triple_key(ms@[k as int])));
                let list = rdf_list(main, &ms[k].o);
                let ghost mkey = triple_key(ms@[k as int]);
                let ghost elems = keys_view(list@);
                let ghost before = out@;
                emit_types(&y, &list, &mut out);
                proof {
                    assert forall|f: Key3| facts_have_from(out@, before.len() as int, f) <==> int2_gives()((dk, mkey), elems, f) by {}
                    lemma_yields_push(before, out@, jobs, lists, int2_gives(), (dk, mkey), elems);
                    assert(int2_job(mf, df)((dk, mkey)));
                    assert(walk_of_second(mf)((dk, mkey), elems));
                    let js = jobs.push((dk, mkey));
                    assert(js[jobs.len() as int] == (dk, mkey));
                    assert forall|l: int| 0 <= l < k + 1 implies exists|x: int| 0 <= x < js.len() && js[x] == (dk, #[trigger] triple_key(ms@[l])) by {
                        if l < k {
                            let x = choose|x: int| 0 <= x < jobs.len() && jobs[x] == (dk, triple_key(ms@[l]));
                            assert(js[x] == jobs[x]);
                        }
                    }
                    jobs = js;
                    lists = lists.push(elems);
                }
                k += 1;
            }
            proof {
                assert forall|jb: (Key3, Key3)| #[trigger] int2_job(mf, df)(jb) && (exists|j: int| 0 <= j < i + 1 && triple_key(ds@[j]) == jb.0)
                    implies exists|x: int| 0 <= x < jobs.len() && jobs[x] == jb by {
                    if jb.0 == dk {
                        assert(fact_matches(jb.1, Some(&d.o), Some(&int_of), None));
                        let l = choose|l: int| 0 <= l < ms@.len() && triple_key(ms@[l]) == jb.1;
                        assert(exists|x: int| 0 <= x < jobs.len() && jobs[x] == (dk, triple_key(ms@[l])));
                    } else {
                        let j = choose|j: int| 0 <= j < i + 1 && triple_key(ds@[j]) == jb.0;
                        assert(j < i);
                        let x = choose|x: int| 0 <= x < jobs_i.len() && jobs_i[x] == jb;
                        assert(jobs[x] == jobs_i[x]);
                    }
                }
            }
            i += 1;
        }
        proof {
            assert forall|jb: (Key3, Key3)| #[trigger] int2_job(mf, df)(jb) implies exists|x: int| 0 <= x < jobs.len() && jobs[x] == jb by {
                assert(fact_matches(jb.0, None, Some(&ty), None));
                let j = choose|j: int| 0 <= j < ds@.len() && triple_key(ds@[j]) == jb.0;
                assert(exists|j: int| 0 <= j < i && triple_key(ds@[j]) == jb.0);
            }
            assert(jobs_outcome(out@, jobs, lists, int2_job(mf, df), walk_of_second(mf), int2_gives()));
        }
        let r: Result<Vec<Fact>, Inconsistency> = Ok(out);
        assert(r matches Ok(v) && jobs_outcome(v@, jobs, lists, int2_job(mf, df), walk_of_second(mf), int2_gives()));
        r
    }
}

/// cls-uni: Union Membership
pub struct ClsUni;

/// A job of cls-uni: a new triple `y rdf:type c` and a triple
/// `u owl:unionOf l`.
pub open spec fn uni_job(main: Set<Key3>, delta: Set<Key3>) -> spec_fn((Key3, Key3)) -> bool {
    |jb: (Key3, Key3)| delta.contains(jb.0) && jb.0.1 == iri_key(RDF_TYPE) && main.contains(jb.1)
        && jb.1.1 == iri_key(OWL_UNION_OF)
}

/// What a cls-uni job gives: where `c` is in the list, `y` is a member of
/// `u`.
pub open spec fn uni_gives() -> spec_fn((Key3, Key3), Seq<Seq<char>>, Key3) -> bool {
    |jb: (Key3, Key3), elems: Seq<Seq<char>>, f: Key3| elems.contains(jb.0.2) && f == (jb.0.0, RDF_TYPE@, jb.1.0)
}

impl InferenceRule for ClsUni {
    open spec fn outcome(&self, main: Set<Key3>, delta: Set<Key3>, r: Result<Vec<Fact>, Inconsistency>) -> bool {
        r matches Ok(v) && exists|jobs: Seq<(Key3, Key3)>, lists: Seq<Seq<Seq<char>>>|
            #[trigger] jobs_outcome(v@, jobs, lists, uni_job(main, delta), walk_of_second(main), uni_gives())
    }

    fn apply(&self, main: &TripleGraph, delta: &TripleGraph) -> (r: Result<Vec<Fact>, Inconsistency>) {
        let ghost mf = graph_facts(*main);
        let ghost df = graph_facts(*delta);
        let ty = iri(RDF_TYPE);
        let union_of = iri(OWL_UNION_OF);
        let ds = graph_match(delta, None, Some(&ty), None);
        let mut out: Vec<Fact> = Vec::new();
        let ghost mut jobs: Seq<(Key3, Key3)> = Seq::empty();
        let ghost mut lists: Seq<Seq<Seq<char>>> = Seq::empty();
        let n = ds.len();
        let mut i: usize = 0;
        proof {
            assert forall|j: int| 0 <= j < ds@.len() implies {
                &&& df.contains(#[trigger] triple_key(ds@[j]))
                &&& triple_valid(ds@[j])
                &&& fact_matches(triple_key(ds@[j]), None, Some(&ty), None)
            } by {
                assert(graph_facts(*delta).contains(triple_key(ds@[j])));
            }
        }
        while i < n
            invariant
                i <= n,
                n == ds@.len(),
                vocab_valid(),
                mf == graph_facts(*main),
                df == graph_facts(*delta),
                term_key(ty) == iri_key(RDF_TYPE),
                term_key(union_of) == iri_key(OWL_UNION_OF),
                term_valid(union_of),
                forall|j: int| 0 <= j < ds@.len() ==> {
                    &&& df.contains(#[trigger] triple_key(ds@[j]))
                    &&& triple_valid(ds@[j])
                    &&& fact_matches(triple_key(ds@[j]), None, Some(&ty), None)
                },
                forall|d: Key3| #[trigger] df.contains(d) && fact_matches(d, None, Some(&ty), None)
                    ==> exists|j: int| 0 <= j < ds@.len() && triple_key(ds@[j]) == d,
                choices_allowed(jobs, lists, walk_of_second(mf)),
                forall|x: int| 0 <= x < jobs.len() ==> #[trigger] uni_job(mf, df)(jobs[x]),
                forall|jb: (Key3, Key3)| #[trigger] uni_job(mf, df)(jb) && (exists|j: int| 0 <= j < i && triple_key(ds@[j]) == jb.0)
                    ==> exists|x: int| 0 <= x < jobs.len() && jobs[x] == jb,
                forall|f: Key3| facts_have(out@, f) <==> yields(jobs, lists, uni_gives(), f),
            decreases n - i,
        {
            let d = &ds[i];
            let ghost dk = triple_key(*d);
            assert(df.contains(triple_key(ds@[i as int])));
            let ms = graph_match(main, None, Some(&union_of), None);
            proof {
                assert forall|j: int| 0 <= j < ms@.len() implies {
                    &&& mf.contains(#[trigger] triple_key(ms@[j]))
                    &&& triple_valid(ms@[j])
                    &&& triple_key(ms@[j]).1 == iri_key(OWL_UNION_OF)
                } by {
                    assert(graph_facts(*main).contains(triple_key(ms@[j])));
                }
            }
            let y = d.s.key();
            let ci = d.o.key();
            let ghost jobs_i = jobs;
            let mk = ms.len();
            let mut k: usize = 0;
            while k < mk
                invariant
                    k <= mk,
                    mk == ms@.len(),
                    i < n,
                    n == ds@.len(),
                    vocab_valid(),
                    mf == graph_facts(*main),
                    df == graph_facts(*delta),
                    dk == triple_key(ds@[i as int]),
                    y@ == dk.0,
                    ci@ == dk.2,
                    df.contains(dk),
                    dk.1 == iri_key(RDF_TYPE),
                    forall|j: int| 0 <= j < ms@.len() ==> {
                        &&& mf.contains(#[trigger] triple_key(ms@[j]))
                        &&& triple_valid(ms@[j])
                        &&& triple_key(ms@[j]).1 == iri_key(OWL_UNION_OF)
                    },
                    choices_allowed(jobs, lists, walk_of_second(mf)),
                    forall|x: int| 0 <= x < jobs.len() ==> #[trigger] uni_job(mf, df)(jobs[x]),
                    jobs_i.len() <= jobs.len(),
                    forall|x: int| 0 <= x < jobs_i.len() ==> #[trigger] jobs[x] == jobs_i[x],
                    forall|jb: (Key3, Key3)| #[trigger] uni_job(mf, df)(jb) && (exists|j: int| 0 <= j < i && triple_key(ds@[j]) == jb.0)
                        ==> exists|x: int| 0 <= x < jobs_i.len() && jobs_i[x] == jb,
                    forall|l: int| 0 <= l < k ==> exists|x: int| 0 <= x < jobs.len() && jobs[x] == (dk, #[trigger] triple_key(ms@[l])),
                    forall|f: Key3| facts_have(out@, f) <==> yields(jobs, lists, uni_gives(), f),
                decreases mk - k,
            {
                assert(mf.contains(triple_key(ms@[k as int])));
                let list = rdf_list(main, &ms[k].o);
                let ghost mkey = triple_key(ms@[k as int]);
                let ghost elems = keys_view(list@);
                let ghost before = out@;
                let found = has_key(&list, &ci);
                if found {
                    out.push(Fact { s: y.clone(), p: RDF_TYPE.to_owned(), o: ms[k].s.key() });
                }
                proof {
                    assert forall|f: Key3| facts_have_from(out@, before.len() as int, f) <==> uni_gives()((dk, mkey), elems, f) by {
                        if facts_have_from(out@, before.len() as int, f) {
                            let i = choose|i: int| before.len() <= i < out@.len() && #[trigger] fact_view(out@[i]) == f;
                            assert(i == before.len());
                        }
                        if uni_gives()((dk, mkey), elems, f) {
                            assert(fact_view(out@[before.len() as int]) == f);
                        }
                    }
                    lemma_yields_push(before, out@, jobs, lists, uni_gives(), (dk, mkey), elems);
                    assert(uni_job(mf, df)((dk, mkey)));
                    assert(walk_of_second(mf)((dk, mkey), elems));
                    let js = jobs.push((dk, mkey));
                    assert(js[jobs.len() as int] == (dk, mkey));
                    assert forall|l: int| 0 <= l < k + 1 implies exists|x: int| 0 <= x < js.len() && js[x] == (dk, #[trigger] triple_key(ms@[l])) by {
                        if l < k {
                            let x = choose|x: int| 0 <= x < jobs.len() && jobs[x] == (dk, triple_key(ms@[l]));
                            assert(js[x] == jobs[x]);
                        }
                    }
                    jobs = js;
                    lists = lists.push(elems);
                }
                k += 1;
            }
            proof {
                assert forall|jb: (Key3, Key3)| #[trigger] uni_job(mf, df)(jb) && (exists|j: int| 0 <= j < i + 1 && triple_key(ds@[j]) == jb.0)
                    implies exists|x: int| 0 <= x < jobs.len() && jobs[x] == jb by {
                    if jb.0 == dk {
                        assert(fact_matches(jb.1, None, Some(&union_of), None));
                        let l = choose|l: int| 0 <= l < ms@.len() && triple_key(ms@[l]) == jb.1;
                        assert(exists|x: int| 0 <= x < jobs.len() && jobs[x] == (dk, triple_key(ms@[l])));
                    } else {
                        let j = choose|j: int| 0 <= j < i + 1 && triple_key(ds@[j]) == jb.0;
                        assert(j < i);
                        let x = choose|x: int| 0 <= x < jobs_i.len() && jobs_i[x] == jb;
                        assert(jobs[x] == jobs_i[x]);
                    }
                }
            }
            i += 1;
        }
        proof {
            assert forall|jb: (Key3, Key3)| #[trigger] uni_job(mf, df)(jb) implies exists|x: int| 0 <= x < jobs.len() && jobs[x] == jb by {
                assert(fact_matches(jb.0, None, Some(&ty), None));
                let j = choose|j: int| 0 <= j < ds@.len() && triple_key(ds@[j]) == jb.0;
                assert(exists|j: int| 0 <= j < i && triple_key(ds@[j]) == jb.0);
            }
            assert(jobs_outcome(out@, jobs, lists, uni_job(mf, df), walk_of_second(mf), uni_gives()));
        }
        let r: Result<Vec<Fact>, Inconsistency> = Ok(out);
        assert(r matches Ok(v) && jobs_outcome(v@, jobs, lists, uni_job(mf, df), walk_of_second(mf), uni_gives()));
        r
    }
}

} // verus!

verus! {

/// A rule that starts from each triple of the main graph with a given
/// predicate, makes a choice in the graph for it, and derives facts from
/// that triple and that choice.
pub trait MainJobRule<C> {
    /// The key of the predicate of the triples the rule starts from.
    spec fn job_key(&self) -> Seq<char>;

    /// Whether `c` is a choice that the graph allows for the triple `t`.
    spec fn allowed(&self, main: Set<Key3>, t: Key3, c: C) -> bool;

    /// Whether the triple `t` with the choice `c` gives the fact `f`.
    spec fn gives(&self, main: Set<Key3>, t: Key3, c: C, f: Key3) -> bool;

    /// The predicate of the triples the rule starts from.
    fn job_predicate(&self) -> (r: RdfTerm)
        requires
            vocab_valid(),
        ensures
            term_key(r) == self.job_key(),
            term_valid(r),
    ;

    /// Appends the facts that one triple gives, and tells the choice made.
    fn run_job(&self, main: &TripleGraph, t: &TermTriple, out: &mut Vec<Fact>) -> (c: Ghost<C>)
        requires
            vocab_valid(),
            triple_valid(*t),
            graph_facts(*main).contains(triple_key(*t)),
        ensures
            final(out)@.len() >= old(out)@.len(),
            forall|i: int| 0 <= i < old(out)@.len() ==> #[trigger] final(out)@[i] == old(out)@[i],
            self.allowed(graph_facts(*main), triple_key(*t), c@),
            forall|f: Key3| facts_have_from(final(out)@, old(out)@.len() as int, f) <==> self.gives(graph_facts(*main), triple_key(*t), c@, f),
    ;
}

/// The jobs of a main job rule: the triples of `main` with its predicate.
pub open spec fn main_jobs(main: Set<Key3>, p: Seq<char>) -> spec_fn(Key3) -> bool {
    |t: Key3| main.contains(t) && t.1 == p
}

/// The choices that a main job rule allows.
pub open spec fn rule_allowed<C, R: MainJobRule<C>>(rule: R, main: Set<Key3>) -> spec_fn(Key3, C) -> bool {
    |t: Key3, c: C| rule.allowed(main, t, c)
}

/// The facts that a main job rule gives.
pub open spec fn rule_gives<C, R: MainJobRule<C>>(rule: R, main: Set<Key3>) -> spec_fn(Key3, C, Key3) -> bool {
    |t: Key3, c: C, f: Key3| rule.gives(main, t, c, f)
}

/// What a main job rule returns: the facts that its jobs give.
pub open spec fn main_job_outcome<C, R: MainJobRule<C>>(rule: R, main: Set<Key3>, r: Result<Vec<Fact>, Inconsistency>) -> bool {
    r matches Ok(v) && exists|jobs: Seq<Key3>, choices: Seq<C>|
        #[trigger] jobs_outcome(v@, jobs, choices, main_jobs(main, rule.job_key()), rule_allowed(rule, main), rule_gives(rule, main))
}

/// Runs a main job rule on every triple of the main graph with its
/// predicate.
pub fn apply_main_jobs<C, R: MainJobRule<C>>(rule: &R, main: &TripleGraph) -> (r: Result<Vec<Fact>, Inconsistency>)
    requires
        vocab_valid(),
    ensures
        main_job_outcome(*rule, graph_facts(*main), r),
{
    let ghost mf = graph_facts(*main);
    let ghost key = rule.job_key();
    let pred = rule.job_predicate();
    let ts = graph_match(main, None, Some(&pred), None);
    proof {
        assert forall|j: int| 0 <= j < ts@.len() implies {
            &&& mf.contains(#[trigger] triple_key(ts@[j]))
            &&& triple_valid(ts@[j])
            &&& triple_key(ts@[j]).1 == key
        } by {
            assert(graph_facts(*main).contains(triple_key(ts@[j])));
        }
    }
    let mut out: Vec<Fact> = Vec::new();
    let ghost mut jobs: Seq<Key3> = Seq::empty();
    let ghost mut choices: Seq<C> = Seq::empty();
    let n = ts.len();
    let mut i: usize = 0;
    while i < n
        invariant
            i <= n,
            n == ts@.len(),
            vocab_valid(),
            mf == graph_facts(*main),
            key == rule.job_key(),
            forall|j: int| 0 <= j < ts@.len() ==> {
                &&& mf.contains(#[trigger] triple_key(ts@[j]))
                &&& triple_valid(ts@[j])
                &&& triple_key(ts@[j]).1 == key
            },
            jobs.len() == i,
            forall|j: int| 0 <= j < i ==> jobs[j] == #[trigger] triple_key(ts@[j]),
            choices_allowed(jobs, choices, rule_allowed(*rule, mf)),
            forall|f: Key3| facts_have(out@, f) <==> yields(jobs, choices, rule_gives(*rule, mf), f),
        decreases n - i,
    {
        assert(mf.contains(triple_key(ts@[i as int])));
        let ghost before = out@;
        let c = rule.run_job(main, &ts[i], &mut out);
        let ghost tk = triple_key(ts@[i as int]);
        proof {
            assert forall|f: Key3| facts_have_from(out@, before.len() as int, f) <==> rule_gives(*rule, mf)(tk, c@, f) by {}
            lemma_yields_push(before, out@, jobs, choices, rule_gives(*rule, mf), tk, c@);
            assert(rule_allowed(*rule, mf)(tk, c@));
            let js = jobs.push(tk);
            let cs = choices.push(c@);
            assert forall|x: int| 0 <= x < js.len() implies #[trigger] rule_allowed(*rule, mf)(js[x], cs[x]) by {
                if x < jobs.len() {
                    assert(js[x] == jobs[x] && cs[x] == choices[x]);
                }
            }
            jobs = js;
            choices = cs;
        }
        i += 1;
    }
    proof {
        let is_job = main_jobs(mf, key);
        assert forall|x: int| 0 <= x < jobs.len() implies #[trigger] is_job(jobs[x]) by {
            assert(jobs[x] == triple_key(ts@[x]));
        }
        assert forall|t: Key3| #[trigger] is_job(t) implies exists|x: int| 0 <= x < jobs.len() && jobs[x] == t by {
            assert(fact_matches(t, None, Some(&pred), None));
            let j = choose|j: int| 0 <= j < ts@.len() && triple_key(ts@[j]) == t;
            assert(jobs[j] == t);
        }
        assert(jobs_outcome(out@, jobs, choices, is_job, rule_allowed(*rule, mf), rule_gives(*rule, mf)));
    }
    let r: Result<Vec<Fact>, Inconsistency> = Ok(out);
    assert(r matches Ok(v) && jobs_outcome(v@, jobs, choices, main_jobs(mf, key), rule_allowed(*rule, mf), rule_gives(*rule, mf)));
    r
}

} // verus!

verus! {

/// Whether `y` is a member of every class of `c` after the first.
pub open spec fn member_of_rest(main: Set<Key3>, y: Seq<char>, c: Seq<Seq<char>>) -> bool {
    forall|i: int| 1 <= i < c.len() ==> main.contains((y, iri_key(RDF_TYPE), #[trigger] c[i]))
}

/// Whether `y` is a member of every class of `list` after the first.
fn is_member_of_rest(main: &TripleGraph, y: &RdfTerm, list: &Vec<RdfTerm>) -> (r: bool)
    requires
        vocab_valid(),
        term_valid(*y),
        forall|i: int| 0 <= i < list@.len() ==> term_valid(#[trigger] list@[i]),
    ensures
        r == member_of_rest(graph_facts(*main), term_key(*y), keys_view(list@)),
{
    let ty = iri(RDF_TYPE);
    let n = list.len();
    let mut i: usize = 1;
    while i < n
        invariant
            1 <= i,
            n == list@.len(),
            vocab_valid(),
            term_valid(*y),
            term_key(ty) == iri_key(RDF_TYPE),
            term_valid(ty),
            forall|j: int| 0 <= j < list@.len() ==> term_valid(#[trigger] list@[j]),
            forall|j: int| 1 <= j < i && j < n ==> graph_facts(*main).contains((term_key(*y), iri_key(RDF_TYPE), #[trigger] keys_view(list@)[j])),
        decreases n - i,
    {
        assert(term_valid(list@[i as int]));
        if !crate::graph::graph_contains(main, y, &ty, &list[i]) {
            assert(!graph_facts(*main).contains((term_key(*y), iri_key(RDF_TYPE), keys_view(list@)[i as int])));
            return false;
        }
        i += 1;
    }
    true
}

/// cls-int1: Intersection Membership (conjunction)
pub struct ClsInt1;

impl MainJobRule<Seq<Seq<char>>> for ClsInt1 {
    open spec fn job_key(&self) -> Seq<char> {
        iri_key(OWL_INTERSECTION_OF)
    }

    /// The choice of a triple `c owl:intersectionOf l`: a walk of `l`.
    open spec fn allowed(&self, main: Set<Key3>, t: Key3, c: Seq<Seq<char>>) -> bool {
        list_walk(main, t.2, Seq::empty(), c)
    }

    /// A member of every class of a non-empty list is a member of `c`.
    open spec fn gives(&self, main: Set<Key3>, t: Key3, c: Seq<Seq<char>>, f: Key3) -> bool {
        c.len() > 0 && exists|y: Seq<char>| #[trigger] main.contains((y, iri_key(RDF_TYPE), c[0]))
            && member_of_rest(main, y, c) && f == (y, RDF_TYPE@, t.0)
    }

    fn job_predicate(&self) -> (r: RdfTerm) {
        iri(OWL_INTERSECTION_OF)
    }

    fn run_job(&self, main: &TripleGraph, t: &TermTriple, out: &mut Vec<Fact>) -> (c: Ghost<Seq<Seq<char>>>) {
        let ghost mf = graph_facts(*main);
        let ghost start = out@.len() as int;
        let list = rdf_list(main, &t.o);
        let ghost elems = keys_view(list@);
        if list.len() == 0 {
            return Ghost(elems);
        }
        let ty = iri(RDF_TYPE);
        let class = t.s.key();
        assert(term_valid(list@[0]));
        let tys = graph_match(main, None, Some(&ty), Some(&list[0]));
        proof {
            assert forall|j: int| 0 <= j < tys@.len() implies {
                &&& mf.contains(#[trigger] triple_key(tys@[j]))
                &&& triple_valid(tys@[j])
                &&& triple_key(tys@[j]).1 == iri_key(RDF_TYPE)
                &&& triple_key(tys@[j]).2 == elems[0]
            } by {
                assert(graph_facts(*main).contains(triple_key(tys@[j])));
            }
        }
        let n = tys.len();
        let mut k: usize = 0;
        while k < n
            invariant
                k <= n,
                n == tys@.len(),
                vocab_valid(),
                mf == graph_facts(*main),
                elems == keys_view(list@),
                elems.len() > 0,
                class@ == triple_key(*t).0,
                start == old(out)@.len(),
                out@.len() >= start,
                forall|i: int| 0 <= i < start ==> #[trigger] out@[i] == old(out)@[i],
                forall|j: int| 0 <= j < list@.len() ==> term_valid(#[trigger] list@[j]),
                forall|j: int| 0 <= j < tys@.len() ==> {
                    &&& mf.contains(#[trigger] triple_key(tys@[j]))
                    &&& triple_valid(tys@[j])
                    &&& triple_key(tys@[j]).1 == iri_key(RDF_TYPE)
                    &&& triple_key(tys@[j]).2 == elems[0]
                },
                forall|f: Key3| facts_have_from(out@, start, f) <==> exists|l: int| 0 <= l < k
                    && member_of_rest(mf, #[trigger] triple_key(tys@[l]).0, elems) && f == (triple_key(tys@[l]).0, RDF_TYPE@, class@),
            decreases n - k,
        {
            assert(mf.contains(triple_key(tys@[k as int])));
            let y = &tys[k].s;
            let ghost before = out@;
            let ghost yk = term_key(*y);
            let member = is_member_of_rest(main, y, &list);
            if member {
                out.push(Fact { s: y.key(), p: RDF_TYPE.to_owned(), o: class.clone() });
            }
            proof {
                lemma_facts_from_split(before, out@, start, before.len() as int);
                assert forall|f: Key3| facts_have_from(out@, before.len() as int, f) <==> (member && f == (yk, RDF_TYPE@, class@)) by {
                    if facts_have_from(out@, before.len() as int, f) {
                        let i = choose|i: int| before.len() <= i < out@.len() && #[trigger] fact_view(out@[i]) == f;
                        assert(i == before.len());
                    }
                    if member && f == (yk, RDF_TYPE@, class@) {
                        assert(fact_view(out@[before.len() as int]) == f);
                    }
                }
                assert(yk == triple_key(tys@[k as int]).0);
                assert forall|f: Key3| facts_have_from(out@, start, f) <==> exists|l: int| 0 <= l < k + 1
                    && member_of_rest(mf, #[trigger] triple_key(tys@[l]).0, elems) && f == (triple_key(tys@[l]).0, RDF_TYPE@, class@) by {
                    if exists|l: int| 0 <= l < k + 1
                        && member_of_rest(mf, #[trigger] triple_key(tys@[l]).0, elems) && f == (triple_key(tys@[l]).0, RDF_TYPE@, class@) {
                        let l = choose|l: int| 0 <= l < k + 1
                            && member_of_rest(mf, #[trigger] triple_key(tys@[l]).0, elems) && f == (triple_key(tys@[l]).0, RDF_TYPE@, class@);
                        if l < k {
                            assert(facts_have_from(before, start, f));
                        }
                    }
                }
            }
            k += 1;
        }
        proof {
            assert forall|f: Key3| facts_have_from(out@, start, f) <==> self.gives(mf, triple_key(*t), elems, f) by {
                if self.gives(mf, triple_key(*t), elems, f) {
                    let y = choose|y: Seq<char>| #[trigger] mf.contains((y, iri_key(RDF_TYPE), elems[0]))
                        && member_of_rest(mf, y, elems) && f == (y, RDF_TYPE@, triple_key(*t).0);
                    assert(fact_matches((y, iri_key(RDF_TYPE), elems[0]), None, Some(&ty), Some(&list[0])));
                    let l = choose|l: int| 0 <= l < tys@.len() && triple_key(tys@[l]) == (y, iri_key(RDF_TYPE), elems[0]);
                    assert(triple_key(tys@[l]).0 == y);
                }
                if facts_have_from(out@, start, f) {
                    let l = choose|l: int| 0 <= l < k
                        && member_of_rest(mf, #[trigger] triple_key(tys@[l]).0, elems) && f == (triple_key(tys@[l]).0, RDF_TYPE@, class@);
                    assert(mf.contains(triple_key(tys@[l])));
                }
            }
        }
        Ghost(elems)
    }
}

impl InferenceRule for ClsInt1 {
    open spec fn outcome(&self, main: Set<Key3>, delta: Set<Key3>, r: Result<Vec<Fact>, Inconsistency>) -> bool {
        main_job_outcome(*self, main, r)
    }

    fn apply(&self, main: &TripleGraph, delta: &TripleGraph) -> (r: Result<Vec<Fact>, Inconsistency>) {
        apply_main_jobs(self, main)
    }
}

} // verus!

verus! {

/// Whether `c` is a property that `main` gives to the restriction `x`
/// through `owl:onProperty`, or nothing where it gives none.
pub open spec fn property_pick(main: Set<Key3>, x: Seq<char>, c: Option<Seq<char>>) -> bool {
    match c {
        Some(p) => main.contains((x, iri_key(OWL_ON_PROPERTY), p)),
        None => !exists|p: Seq<char>| #[trigger] main.contains((x, iri_key(OWL_ON_PROPERTY), p)),
    }
}

/// The property of the restriction `x`, if it has one.
fn on_property(main: &TripleGraph, x: &RdfTerm) -> (r: Option<RdfTerm>)
    requires
        vocab_valid(),
        term_valid(*x),
    ensures
        property_pick(graph_facts(*main), term_key(*x), match r { Some(p) => Some(term_key(p)), None => None }),
        r matches Some(p) ==> term_valid(p),
{
    let onp = iri(OWL_ON_PROPERTY);
    let props = graph_match(main, Some(x), Some(&onp), None);
    if props.len() == 0 {
        proof {
            let mf = graph_facts(*main);
            if exists|p: Seq<char>| #[trigger] mf.contains((term_key(*x), iri_key(OWL_ON_PROPERTY), p)) {
                let p = choose|p: Seq<char>| #[trigger] mf.contains((term_key(*x), iri_key(OWL_ON_PROPERTY), p));
                assert(fact_matches((term_key(*x), iri_key(OWL_ON_PROPERTY), p), Some(x), Some(&onp), None));
            }
        }
        return None;
    }
    assert(graph_facts(*main).contains(triple_key(props@[0])));
    let p = props[0].o.duplicate();
    proof {
        crate::graph::lemma_valid_by_key(p, props@[0].o);
    }
    Some(p)
}

/// cls-svf1: Existential Restriction
pub struct ClsSvf1;

impl MainJobRule<Option<Seq<char>>> for ClsSvf1 {
    open spec fn job_key(&self) -> Seq<char> {
        iri_key(OWL_SOME_VALUES_FROM)
    }

    /// The choice of a triple `x owl:someValuesFrom y`: the property of `x`.
    open spec fn allowed(&self, main: Set<Key3>, t: Key3, c: Option<Seq<char>>) -> bool {
        property_pick(main, t.0, c)
    }

    /// Whatever is related by the property to a member of `y` is a member
    /// of `x`.
    open spec fn gives(&self, main: Set<Key3>, t: Key3, c: Option<Seq<char>>, f: Key3) -> bool {
        c matches Some(p) && exists|v: Seq<char>, m: Key3| #[trigger] main.contains((v, iri_key(RDF_TYPE), t.2))
            && #[trigger] main.contains(m) && m.1 == p && m.2 == v && f == (m.0, RDF_TYPE@, t.0)
    }

    fn job_predicate(&self) -> (r: RdfTerm) {
        iri(OWL_SOME_VALUES_FROM)
    }

    fn run_job(&self, main: &TripleGraph, t: &TermTriple, out: &mut Vec<Fact>) -> (c: Ghost<Option<Seq<char>>>) {
        let ghost mf = graph_facts(*main);
        let ghost tk = triple_key(*t);
        let ghost start = out@.len() as int;
        let prop = on_property(main, &t.s);
        let p = match prop {
            None => {
                return Ghost(None);
            },
            Some(p) => p,
        };
        let ghost pk = term_key(p);
        let ty = iri(RDF_TYPE);
        let tf = triple_fact(t);
        let type_slot = Slot::Text(RDF_TYPE.to_owned());
        let members = graph_match(main, None, Some(&ty), Some(&t.o));
        proof {
            assert forall|j: int| 0 <= j < members@.len() implies {
                &&& mf.contains(#[trigger] triple_key(members@[j]))
                &&& triple_valid(members@[j])
                &&& triple_key(members@[j]).1 == iri_key(RDF_TYPE)
                &&& triple_key(members@[j]).2 == tk.2
            } by {
                assert(graph_facts(*main).contains(triple_key(members@[j])));
            }
        }
        let n = members.len();
        let mut k: usize = 0;
        while k < n
            invariant
                k <= n,
                n == members@.len(),
                vocab_valid(),
                mf == graph_facts(*main),
                tk == triple_key(*t),
                fact_view(tf) == tk,
                pk == term_key(p),
                term_valid(p),
                type_slot == Slot::Text(type_slot->0),
                type_slot->0@ == RDF_TYPE@,
                start == old(out)@.len(),
                out@.len() >= start,
                forall|i: int| 0 <= i < start ==> #[trigger] out@[i] == old(out)@[i],
                forall|j: int| 0 <= j < members@.len() ==> {
                    &&& mf.contains(#[trigger] triple_key(members@[j]))
                    &&& triple_valid(members@[j])
                    &&& triple_key(members@[j]).1 == iri_key(RDF_TYPE)
                    &&& triple_key(members@[j]).2 == tk.2
                },
                forall|f: Key3| facts_have_from(out@, start, f) <==> exists|l: int, m: Key3| 0 <= l < k
                    && #[trigger] mf.contains(m) && m.1 == pk && m.2 == #[trigger] triple_key(members@[l]).0 && f == (m.0, RDF_TYPE@, tk.0),
            decreases n - k,
        {
            assert(mf.contains(triple_key(members@[k as int])));
            let ghost before = out@;
            let ghost vk = triple_key(members@[k as int]).0;
            emit_matches(main, None, Some(&p), Some(&members[k].s), &tf, &Slot::MS, &type_slot, &Slot::DS, out);
            proof {
                lemma_facts_from_split(before, out@, start, before.len() as int);
                assert forall|f: Key3| facts_have_from(out@, start, f) <==> exists|l: int, m: Key3| 0 <= l < k + 1
                    && #[trigger] mf.contains(m) && m.1 == pk && m.2 == #[trigger] triple_key(members@[l]).0 && f == (m.0, RDF_TYPE@, tk.0) by {
                    if facts_have_from(out@, before.len() as int, f) {
                        let m = choose|m: Key3| #[trigger] mf.contains(m) && fact_matches(m, None, Some(&p), Some(&members@[k as int].s))
                            && f == built(Slot::MS, type_slot, Slot::DS, tk, m);
                        assert(m.2 == triple_key(members@[k as int]).0);
                    }
                    if exists|l: int, m: Key3| 0 <= l < k + 1
                        && #[trigger] mf.contains(m) && m.1 == pk && m.2 == #[trigger] triple_key(members@[l]).0 && f == (m.0, RDF_TYPE@, tk.0) {
                        let (l, m) = choose|l: int, m: Key3| 0 <= l < k + 1
                            && #[trigger] mf.contains(m) && m.1 == pk && m.2 == #[trigger] triple_key(members@[l]).0 && f == (m.0, RDF_TYPE@, tk.0);
                        if l == k {
                            assert(fact_matches(m, None, Some(&p), Some(&members@[k as int].s)));
                            assert(f == built(Slot::MS, type_slot, Slot::DS, tk, m));
                        } else {
                            assert(facts_have_from(before, start, f));
                        }
                    }
                }
            }
            k += 1;
        }
        proof {
            assert forall|f: Key3| facts_have_from(out@, start, f) <==> self.gives(mf, tk, Some(pk), f) by {
                if self.gives(mf, tk, Some(pk), f) {
                    let (v, m) = choose|v: Seq<char>, m: Key3| #[trigger] mf.contains((v, iri_key(RDF_TYPE), tk.2))
                        && #[trigger] mf.contains(m) && m.1 == pk && m.2 == v && f == (m.0, RDF_TYPE@, tk.0);
                    assert(fact_matches((v, iri_key(RDF_TYPE), tk.2), None, Some(&ty), Some(&t.o)));
                    let l = choose|l: int| 0 <= l < members@.len() && triple_key(members@[l]) == (v, iri_key(RDF_TYPE), tk.2);
                    assert(triple_key(members@[l]).0 == v);
                }
                if facts_have_from(out@, start, f) {
                    let (l, m) = choose|l: int, m: Key3| 0 <= l < k
                        && #[trigger] mf.contains(m) && m.1 == pk && m.2 == #[trigger] triple_key(members@[l]).0 && f == (m.0, RDF_TYPE@, tk.0);
                    assert(mf.contains(triple_key(members@[l])));
                }
            }
        }
        Ghost(Some(pk))
    }
}

impl InferenceRule for ClsSvf1 {
    open spec fn outcome(&self, main: Set<Key3>, delta: Set<Key3>, r: Result<Vec<Fact>, Inconsistency>) -> bool {
        main_job_outcome(*self, main, r)
    }

    fn apply(&self, main: &TripleGraph, delta: &TripleGraph) -> (r: Result<Vec<Fact>, Inconsistency>) {
        apply_main_jobs(self, main)
    }
}

/// cls-avf: Universal Restriction
pub struct ClsAvf;

impl MainJobRule<Option<Seq<char>>> for ClsAvf {
    open spec fn job_key(&self) -> Seq<char> {
        iri_key(OWL_ALL_VALUES_FROM)
    }

    /// The choice of a triple `x owl:allValuesFrom y`: the property of `x`.
    open spec fn allowed(&self, main: Set<Key3>, t: Key3, c: Option<Seq<char>>) -> bool {
        property_pick(main, t.0, c)
    }

    /// Whatever a member of `x` is related to by the property is a member
    /// of `y`.
    open spec fn gives(&self, main: Set<Key3>, t: Key3, c: Option<Seq<char>>, f: Key3) -> bool {
        c matches Some(p) && exists|u: Seq<char>, m: Key3| #[trigger] main.contains((u, iri_key(RDF_TYPE), t.0))
            && #[trigger] main.contains(m) && m.0 == u && m.1 == p && f == (m.2, RDF_TYPE@, t.2)
    }

    fn job_predicate(&self) -> (r: RdfTerm) {
        iri(OWL_ALL_VALUES_FROM)
    }

    fn run_job(&self, main: &TripleGraph, t: &TermTriple, out: &mut Vec<Fact>) -> (c: Ghost<Option<Seq<char>>>) {
        let ghost mf = graph_facts(*main);
        let ghost tk = triple_key(*t);
        let ghost start = out@.len() as int;
        let prop = on_property(main, &t.s);
        let p = match prop {
            None => {
                return Ghost(None);
            },
            Some(p) => p,
        };
        let ghost pk = term_key(p);
        let ty = iri(RDF_TYPE);
        let tf = triple_fact(t);
        let type_slot = Slot::Text(RDF_TYPE.to_owned());
        let members = graph_match(main, None, Some(&ty), Some(&t.s));
        proof {
            assert forall|j: int| 0 <= j < members@.len() implies {
                &&& mf.contains(#[trigger] triple_key(members@[j]))
                &&& triple_valid(members@[j])
                &&& triple_key(members@[j]).1 == iri_key(RDF_TYPE)
                &&& triple_key(members@[j]).2 == tk.0
            } by {
                assert(graph_facts(*main).contains(triple_key(members@[j])));
            }
        }
        let n = members.len();
        let mut k: usize = 0;
        while k < n
            invariant
                k <= n,
                n == members@.len(),
                vocab_valid(),
                mf == graph_facts(*main),
                tk == triple_key(*t),
                fact_view(tf) == tk,
                pk == term_key(p),
                term_valid(p),
                type_slot == Slot::Text(type_slot->0),
                type_slot->0@ == RDF_TYPE@,
                start == old(out)@.len(),
                out@.len() >= start,
                forall|i: int| 0 <= i < start ==> #[trigger] out@[i] == old(out)@[i],
                forall|j: int| 0 <= j < members@.len() ==> {
                    &&& mf.contains(#[trigger] triple_key(members@[j]))
                    &&& triple_valid(members@[j])
                    &&& triple_key(members@[j]).1 == iri_key(RDF_TYPE)
                    &&& triple_key(members@[j]).2 == tk.0
                },
                forall|f: Key3| facts_have_from(out@, start, f) <==> exists|l: int, m: Key3| 0 <= l < k
                    && #[trigger] mf.contains(m) && m.0 == #[trigger] triple_key(members@[l]).0 && m.1 == pk && f == (m.2, RDF_TYPE@, tk.2),
            decreases n - k,
        {
            assert(mf.contains(triple_key(members@[k as int])));
            let ghost before = out@;
            let ghost vk = triple_key(members@[k as int]).0;
            emit_matches(main, Some(&members[k].s), Some(&p), None, &tf, &Slot::MO, &type_slot, &Slot::DO, out);
            proof {
                lemma_facts_from_split(before, out@, start, before.len() as int);
                assert forall|f: Key3| facts_have_from(out@, start, f) <==> exists|l: int, m: Key3| 0 <= l < k + 1
                    && #[trigger] mf.contains(m) && m.0 == #[trigger] triple_key(members@[l]).0 && m.1 == pk && f == (m.2, RDF_TYPE@, tk.2) by {
                    if facts_have_from(out@, before.len() as int, f) {
                        let m = choose|m: Key3| #[trigger] mf.contains(m) && fact_matches(m, Some(&members@[k as int].s), Some(&p), None)
                            && f == built(Slot::MO, type_slot, Slot::DO, tk, m);
                        assert(m.0 == triple_key(members@[k as int]).0);
                    }
                    if exists|l: int, m: Key3| 0 <= l < k + 1
                        && #[trigger] mf.contains(m) && m.0 == #[trigger] triple_key(members@[l]).0 && m.1 == pk && f == (m.2, RDF_TYPE@, tk.2) {
                        let (l, m) = choose|l: int, m: Key3| 0 <= l < k + 1
                            && #[trigger] mf.contains(m) && m.0 == #[trigger] triple_key(members@[l]).0 && m.1 == pk && f == (m.2, RDF_TYPE@, tk.2);
                        if l == k {
                            assert(fact_matches(m, Some(&members@[k as int].s), Some(&p), None));
                            assert(f == built(Slot::MO, type_slot, Slot::DO, tk, m));
                        } else {
                            assert(facts_have_from(before, start, f));
                        }
                    }
                }
            }
            k += 1;
        }
        proof {
            assert forall|f: Key3| facts_have_from(out@, start, f) <==> self.gives(mf, tk, Some(pk), f) by {
                if self.gives(mf, tk, Some(pk), f) {
                    let (u, m) = choose|u: Seq<char>, m: Key3| #[trigger] mf.contains((u, iri_key(RDF_TYPE), tk.0))
                        && #[trigger] mf.contains(m) && m.0 == u && m.1 == pk && f == (m.2, RDF_TYPE@, tk.2);
                    assert(fact_matches((u, iri_key(RDF_TYPE), tk.0), None, Some(&ty), Some(&t.s)));
                    let l = choose|l: int| 0 <= l < members@.len() && triple_key(members@[l]) == (u, iri_key(RDF_TYPE), tk.0);
                    assert(triple_key(members@[l]).0 == u);
                }
                if facts_have_from(out@, start, f) {
                    let (l, m) = choose|l: int, m: Key3| 0 <= l < k
                        && #[trigger] mf.contains(m) && m.0 == #[trigger] triple_key(members@[l]).0 && m.1 == pk && f == (m.2, RDF_TYPE@, tk.2);
                    assert(mf.contains(triple_key(members@[l])));
                }
            }
        }
        Ghost(Some(pk))
    }
}

impl InferenceRule for ClsAvf {
    open spec fn outcome(&self, main: Set<Key3>, delta: Set<Key3>, r: Result<Vec<Fact>, Inconsistency>) -> bool {
        main_job_outcome(*self, main, r)
    }

    fn apply(&self, main: &TripleGraph, delta: &TripleGraph) -> (r: Result<Vec<Fact>, Inconsistency>) {
        apply_main_jobs(self, main)
    }
}

} // verus!

verus! {

/// Whether `e` is reached from `a` by following the properties `chain[1]`,
/// ..., `chain[k - 1]` in turn.
pub open spec fn chain_reach(main: Set<Key3>, chain: Seq<Seq<char>>, k: int, a: Seq<char>, e: Seq<char>) -> bool
    decreases k,
{
    if k <= 1 {
        e == a
    } else {
        exists|m: Seq<char>| chain_reach(main, chain, k - 1, a, m) && #[trigger] main.contains((m, chain[k - 1], e))
    }
}

/// Where nothing is reached after some steps, nothing is reached after more.
proof fn lemma_chain_dead_end(main: Set<Key3>, chain: Seq<Seq<char>>, k: int, k2: int, a: Seq<char>)
    requires
        1 <= k <= k2,
        forall|e: Seq<char>| !#[trigger] chain_reach(main, chain, k, a, e),
    ensures
        forall|e: Seq<char>| !#[trigger] chain_reach(main, chain, k2, a, e),
    decreases k2 - k,
{
    if k < k2 {
        assert forall|e: Seq<char>| !#[trigger] chain_reach(main, chain, k + 1, a, e) by {
            if chain_reach(main, chain, k + 1, a, e) {
                let m = choose|m: Seq<char>| chain_reach(main, chain, k, a, m) && #[trigger] main.contains((m, chain[k], e));
            }
        }
        lemma_chain_dead_end(main, chain, k + 1, k2, a);
    }
}

/// The terms reached from `start` by following the properties of `chain`
/// after the first, in turn.
fn follow_chain(main: &TripleGraph, chain: &Vec<RdfTerm>, start: &RdfTerm) -> (r: Vec<RdfTerm>)
    requires
        vocab_valid(),
        term_valid(*start),
        chain@.len() >= 1,
        forall|i: int| 0 <= i < chain@.len() ==> term_valid(#[trigger] chain@[i]),
    ensures
        forall|e: Seq<char>| keys_view(r@).contains(e)
            <==> chain_reach(graph_facts(*main), keys_view(chain@), chain@.len() as int, term_key(*start), e),
{
    let ghost mf = graph_facts(*main);
    let ghost ck = keys_view(chain@);
    let ghost a = term_key(*start);
    let mut current: Vec<RdfTerm> = Vec::new();
    current.push(start.duplicate());
    proof {
        crate::graph::lemma_valid_by_key(current@[0], *start);
        assert forall|e: Seq<char>| keys_view(current@).contains(e) <==> chain_reach(mf, ck, 1, a, e) by {
            if e == a {
                assert(keys_view(current@)[0] == e);
            }
        }
    }
    let n = chain.len();
    let mut idx: usize = 1;
    while idx < n
        invariant
            1 <= idx <= n,
            n == chain@.len(),
            vocab_valid(),
            mf == graph_facts(*main),
            ck == keys_view(chain@),
            a == term_key(*start),
            forall|i: int| 0 <= i < chain@.len() ==> term_valid(#[trigger] chain@[i]),
            forall|i: int| 0 <= i < current@.len() ==> term_valid(#[trigger] current@[i]),
            forall|e: Seq<char>| keys_view(current@).contains(e) <==> chain_reach(mf, ck, idx as int, a, e),
        decreases n - idx,
    {
        let mut next: Vec<RdfTerm> = Vec::new();
        let cn = current.len();
        let mut j: usize = 0;
        assert(term_valid(chain@[idx as int]));
        while j < cn
            invariant
                j <= cn,
                cn == current@.len(),
                1 <= idx < n,
                n == chain@.len(),
                vocab_valid(),
                mf == graph_facts(*main),
                ck == keys_view(chain@),
                term_valid(chain@[idx as int]),
                forall|i: int| 0 <= i < current@.len() ==> term_valid(#[trigger] current@[i]),
                forall|i: int| 0 <= i < next@.len() ==> term_valid(#[trigger] next@[i]),
                forall|e: Seq<char>| keys_view(next@).contains(e) <==> exists|l: int| 0 <= l < j
                    && #[trigger] mf.contains((keys_view(current@)[l], ck[idx as int], e)),
            decreases cn - j,
        {
            assert(term_valid(current@[j as int]));
            let ms = graph_match(main, Some(&current[j]), Some(&chain[idx]), None);
            let ghost before = next@;
            proof {
                assert forall|i: int| 0 <= i < ms@.len() implies mf.contains(#[trigger] triple_key(ms@[i])) && triple_valid(ms@[i])
                    && fact_matches(triple_key(ms@[i]), Some(&current@[j as int]), Some(&chain@[idx as int]), None) by {
                    assert(graph_facts(*main).contains(triple_key(ms@[i])));
                }
                assert(forall|e: Seq<char>| keys_view(before).contains(e) <==> exists|l: int| 0 <= l < j
                    && #[trigger] mf.contains((keys_view(current@)[l], ck[idx as int], e)));
            }
            let mn = ms.len();
            let mut q: usize = 0;
            while q < mn
                invariant
                    q <= mn,
                    mn == ms@.len(),
                    mf == graph_facts(*main),
                    forall|i: int| 0 <= i < ms@.len() ==> mf.contains(#[trigger] triple_key(ms@[i])) && triple_valid(ms@[i]),
                    next@.len() == before.len() + q,
                    forall|i: int| 0 <= i < before.len() ==> #[trigger] next@[i] == before[i],
                    forall|i: int| 0 <= i < q ==> term_key(#[trigger] next@[before.len() + i]) == triple_key(ms@[i]).2,
                    forall|i: int| 0 <= i < next@.len() ==> term_valid(#[trigger] next@[i]),
                decreases mn - q,
            {
                assert(mf.contains(triple_key(ms@[q as int])));
                let o = ms[q].o.duplicate();
                proof {
                    crate::graph::lemma_valid_by_key(o, ms@[q as int].o);
                }
                next.push(o);
                q += 1;
            }
            proof {
                let cur_k = keys_view(current@)[j as int];
                assert forall|e: Seq<char>| keys_view(next@).contains(e) <==> exists|l: int| 0 <= l < j + 1
                    && #[trigger] mf.contains((keys_view(current@)[l], ck[idx as int], e)) by {
                    if keys_view(next@).contains(e) {
                        let i = choose|i: int| 0 <= i < keys_view(next@).len() && keys_view(next@)[i] == e;
                        if i < before.len() {
                            assert(keys_view(before)[i] == e);
                            assert(keys_view(before).contains(e));
                        } else {
                            let qi = i - before.len();
                            assert(term_key(next@[before.len() + qi]) == triple_key(ms@[qi]).2);
                            assert(graph_facts(*main).contains(triple_key(ms@[qi])));
                            assert(mf.contains((keys_view(current@)[j as int], ck[idx as int], e)));
                        }
                    }
                    if exists|l: int| 0 <= l < j + 1 && #[trigger] mf.contains((keys_view(current@)[l], ck[idx as int], e)) {
                        let l = choose|l: int| 0 <= l < j + 1 && #[trigger] mf.contains((keys_view(current@)[l], ck[idx as int], e));
                        if l < j {
                            assert(keys_view(before).contains(e));
                            let i = choose|i: int| 0 <= i < keys_view(before).len() && keys_view(before)[i] == e;
                            assert(next@[i] == before[i]);
                            assert(keys_view(next@)[i] == e);
                        } else {
                            let m = (cur_k, ck[idx as int], e);
                            assert(fact_matches(m, Some(&current@[j as int]), Some(&chain@[idx as int]), None));
                            let qi = choose|qi: int| 0 <= qi < ms@.len() && triple_key(ms@[qi]) == m;
                            assert(keys_view(next@)[before.len() + qi] == e);
                        }
                    }
                }
            }
            j += 1;
        }
        proof {
            assert forall|e: Seq<char>| keys_view(next@).contains(e) <==> chain_reach(mf, ck, idx + 1, a, e) by {
                if keys_view(next@).contains(e) {
                    let l = choose|l: int| 0 <= l < cn && #[trigger] mf.contains((keys_view(current@)[l], ck[idx as int], e));
                    let m = keys_view(current@)[l];
                    assert(keys_view(current@).contains(m));
                    assert(chain_reach(mf, ck, idx as int, a, m));
                }
                if chain_reach(mf, ck, idx + 1, a, e) {
                    let m = choose|m: Seq<char>| chain_reach(mf, ck, idx as int, a, m) && #[trigger] mf.contains((m, ck[idx as int], e));
                    assert(keys_view(current@).contains(m));
                    let l = choose|l: int| 0 <= l < keys_view(current@).len() && keys_view(current@)[l] == m;
                    assert(mf.contains((keys_view(current@)[l], ck[idx as int], e)));
                }
            }
        }
        current = next;
        idx += 1;
        if current.len() == 0 {
            proof {
                assert forall|e: Seq<char>| !#[trigger] chain_reach(mf, ck, idx as int, a, e) by {
                    if chain_reach(mf, ck, idx as int, a, e) {
                        assert(keys_view(current@).contains(e));
                    }
                }
                lemma_chain_dead_end(mf, ck, idx as int, n as int, a);
                assert forall|e: Seq<char>| keys_view(current@).contains(e) <==> chain_reach(mf, ck, n as int, a, e) by {
                    if keys_view(current@).contains(e) {
                        let i = choose|i: int| 0 <= i < keys_view(current@).len() && keys_view(current@)[i] == e;
                    }
                }
            }
            return current;
        }
    }
    current
}

} // verus!

verus! {

/// Appends, for each term of `objs`, the fact relating `subject` to it by
/// `pred`.
fn emit_objects(subject: &String, pred: &String, objs: &Vec<RdfTerm>, out: &mut Vec<Fact>)
    ensures
        final(out)@.len() >= old(out)@.len(),
        forall|i: int| 0 <= i < old(out)@.len() ==> #[trigger] final(out)@[i] == old(out)@[i],
        forall|f: Key3| facts_have_from(final(out)@, old(out)@.len() as int, f)
            <==> exists|y: int| 0 <= y < objs@.len() && f == (subject@, pred@, #[trigger] keys_view(objs@)[y]),
{
    let ghost start = old(out)@.len() as int;
    let n = objs.len();
    let mut k: usize = 0;
    while k < n
        invariant
            k <= n,
            n == objs@.len(),
            start == old(out)@.len(),
            out@.len() == start + k,
            forall|i: int| 0 <= i < start ==> #[trigger] out@[i] == old(out)@[i],
            forall|y: int| 0 <= y < k ==> #[trigger] fact_view(out@[start + y]) == (subject@, pred@, keys_view(objs@)[y]),
        decreases n - k,
    {
        out.push(Fact { s: subject.clone(), p: pred.clone(), o: objs[k].key() });
        proof {
            assert(fact_view(out@[start + k as int]) == (subject@, pred@, keys_view(objs@)[k as int]));
        }
        k += 1;
    }
    proof {
        assert forall|f: Key3| facts_have_from(out@, start, f)
            <==> exists|y: int| 0 <= y < objs@.len() && f == (subject@, pred@, #[trigger] keys_view(objs@)[y]) by {
            if facts_have_from(out@, start, f) {
                let i = choose|i: int| start <= i < out@.len() && #[trigger] fact_view(out@[i]) == f;
                assert(fact_view(out@[start + (i - start)]) == (subject@, pred@, keys_view(objs@)[i - start]));
            }
            if exists|y: int| 0 <= y < objs@.len() && f == (subject@, pred@, #[trigger] keys_view(objs@)[y]) {
                let y = choose|y: int| 0 <= y < objs@.len() && f == (subject@, pred@, #[trigger] keys_view(objs@)[y]);
                assert(fact_view(out@[start + y]) == (subject@, pred@, keys_view(objs@)[y]));
            }
        }
    }
}

/// prp-spo2: Property Chain Inclusion
pub struct PrpSpo2;

impl MainJobRule<Seq<Seq<char>>> for PrpSpo2 {
    open spec fn job_key(&self) -> Seq<char> {
        iri_key(OWL_PROPERTY_CHAIN_AXIOM)
    }

    /// The choice of a triple `p owl:propertyChainAxiom l`: a walk of `l`.
    open spec fn allowed(&self, main: Set<Key3>, t: Key3, c: Seq<Seq<char>>) -> bool {
        list_walk(main, t.2, Seq::empty(), c)
    }

    /// Whatever is connected through the chain of properties of a non-empty
    /// list is related by `p`.
    open spec fn gives(&self, main: Set<Key3>, t: Key3, c: Seq<Seq<char>>, f: Key3) -> bool {
        c.len() > 0 && exists|m: Key3, e: Seq<char>| #[trigger] main.contains(m) && m.1 == c[0]
            && #[trigger] chain_reach(main, c, c.len() as int, m.2, e) && f == (m.0, t.0, e)
    }

    fn job_predicate(&self) -> (r: RdfTerm) {
        iri(OWL_PROPERTY_CHAIN_AXIOM)
    }

    fn run_job(&self, main: &TripleGraph, t: &TermTriple, out: &mut Vec<Fact>) -> (c: Ghost<Seq<Seq<char>>>) {
        let ghost mf = graph_facts(*main);
        let ghost tk = triple_key(*t);
        let ghost start = out@.len() as int;
        let chain = rdf_list(main, &t.o);
        let ghost elems = keys_view(chain@);
        if chain.len() == 0 {
            return Ghost(elems);
        }
        let pax = t.s.key();
        assert(term_valid(chain@[0]));
        let starts = graph_match(main, None, Some(&chain[0]), None);
        proof {
            assert forall|j: int| 0 <= j < starts@.len() implies {
                &&& mf.contains(#[trigger] triple_key(starts@[j]))
                &&& triple_valid(starts@[j])
                &&& triple_key(starts@[j]).1 == elems[0]
            } by {
                assert(graph_facts(*main).contains(triple_key(starts@[j])));
            }
        }
        let n = starts.len();
        let mut k: usize = 0;
        while k < n
            invariant
                k <= n,
                n == starts@.len(),
                vocab_valid(),
                mf == graph_facts(*main),
                tk == triple_key(*t),
                elems == keys_view(chain@),
                chain@.len() > 0,
                pax@ == tk.0,
                start == old(out)@.len(),
                out@.len() >= start,
                forall|i: int| 0 <= i < start ==> #[trigger] out@[i] == old(out)@[i],
                forall|j: int| 0 <= j < chain@.len() ==> term_valid(#[trigger] chain@[j]),
                forall|j: int| 0 <= j < starts@.len() ==> {
                    &&& mf.contains(#[trigger] triple_key(starts@[j]))
                    &&& triple_valid(starts@[j])
                    &&& triple_key(starts@[j]).1 == elems[0]
                },
                forall|f: Key3| facts_have_from(out@, start, f) <==> exists|l: int, e: Seq<char>| 0 <= l < k
                    && #[trigger] chain_reach(mf, elems, elems.len() as int, triple_key(starts@[l]).2, e)
                    && f == (#[trigger] triple_key(starts@[l]).0, tk.0, e),
            decreases n - k,
        {
            assert(mf.contains(triple_key(starts@[k as int])));
            let ends = follow_chain(main, &chain, &starts[k].o);
            let x1 = starts[k].s.key();
            let ghost before = out@;
            let ghost sk = triple_key(starts@[k as int]);
            assert(forall|f: Key3| facts_have_from(before, start, f) <==> exists|l: int, e: Seq<char>| 0 <= l < k
                && #[trigger] chain_reach(mf, elems, elems.len() as int, triple_key(starts@[l]).2, e)
                && f == (#[trigger] triple_key(starts@[l]).0, tk.0, e));
            emit_objects(&x1, &pax, &ends, out);
            proof {
                lemma_facts_from_split(before, out@, start, before.len() as int);
                assert forall|f: Key3| facts_have_from(out@, start, f) <==> exists|l: int, e: Seq<char>| 0 <= l < k + 1
                    && #[trigger] chain_reach(mf, elems, elems.len() as int, triple_key(starts@[l]).2, e)
                    && f == (#[trigger] triple_key(starts@[l]).0, tk.0, e) by {
                    if facts_have_from(out@, before.len() as int, f) {
                        let y = choose|y: int| 0 <= y < ends@.len() && f == (x1@, pax@, #[trigger] keys_view(ends@)[y]);
                        assert(keys_view(ends@).contains(keys_view(ends@)[y]));
                        assert(chain_reach(mf, elems, elems.len() as int, sk.2, keys_view(ends@)[y]));
                        assert(f == (triple_key(starts@[k as int]).0, tk.0, keys_view(ends@)[y]));
                    }
                    if exists|l: int, e: Seq<char>| 0 <= l < k + 1
                        && #[trigger] chain_reach(mf, elems, elems.len() as int, triple_key(starts@[l]).2, e)
                        && f == (#[trigger] triple_key(starts@[l]).0, tk.0, e) {
                        let (l, e) = choose|l: int, e: Seq<char>| 0 <= l < k + 1
                            && #[trigger] chain_reach(mf, elems, elems.len() as int, triple_key(starts@[l]).2, e)
                            && f == (#[trigger] triple_key(starts@[l]).0, tk.0, e);
                        if l == k {
                            assert(keys_view(ends@).contains(e));
                            let y = choose|y: int| 0 <= y < keys_view(ends@).len() && keys_view(ends@)[y] == e;
                            assert(f == (x1@, pax@, keys_view(ends@)[y]));
                        } else {
                            assert(facts_have_from(before, start, f));
                        }
                    }
                }
            }
            k += 1;
        }
        proof {
            assert forall|f: Key3| facts_have_from(out@, start, f) <==> self.gives(mf, tk, elems, f) by {
                if self.gives(mf, tk, elems, f) {
                    let (m, e) = choose|m: Key3, e: Seq<char>| #[trigger] mf.contains(m) && m.1 == elems[0]
                        && #[trigger] chain_reach(mf, elems, elems.len() as int, m.2, e) && f == (m.0, tk.0, e);
                    assert(fact_matches(m, None, Some(&chain@[0]), None));
                    let l = choose|l: int| 0 <= l < starts@.len() && triple_key(starts@[l]) == m;
                    assert(chain_reach(mf, elems, elems.len() as int, triple_key(starts@[l]).2, e));
                }
                if facts_have_from(out@, start, f) {
                    let (l, e) = choose|l: int, e: Seq<char>| 0 <= l < k
                        && #[trigger] chain_reach(mf, elems, elems.len() as int, triple_key(starts@[l]).2, e)
                        && f == (#[trigger] triple_key(starts@[l]).0, tk.0, e);
                    assert(mf.contains(triple_key(starts@[l])));
                }
            }
        }
        Ghost(elems)
    }
}

impl InferenceRule for PrpSpo2 {
    /// Nothing is derived from an empty delta graph.
    open spec fn outcome(&self, main: Set<Key3>, delta: Set<Key3>, r: Result<Vec<Fact>, Inconsistency>) -> bool {
        if delta == Set::<Key3>::empty() {
            r matches Ok(v) && v@.len() == 0
        } else {
            main_job_outcome(*self, main, r)
        }
    }

    fn apply(&self, main: &TripleGraph, delta: &TripleGraph) -> (r: Result<Vec<Fact>, Inconsistency>) {
        let all = graph_match(delta, None, None, None);
        if all.len() == 0 {
            proof {
                assert forall|d: Key3| !graph_facts(*delta).contains(d) by {
                    if graph_facts(*delta).contains(d) {
                        assert(fact_matches(d, None, None, None));
                    }
                }
                assert(graph_facts(*delta) =~= Set::<Key3>::empty());
            }
            return Ok(Vec::new());
        }
        proof {
            assert(graph_facts(*delta).contains(triple_key(all@[0])));
        }
        apply_main_jobs(self, main)
    }
}

} // verus!

verus! {

/// The strings of `parts` joined with `|` between them.
pub open spec fn join_bar(parts: Seq<Seq<char>>) -> Seq<char>
    decreases parts.len(),
{
    if parts.len() == 0 {
        Seq::empty()
    } else if parts.len() == 1 {
        parts[0]
    } else {
        join_bar(parts.drop_last()) + seq!['|'] + parts.last()
    }
}

/// Joins strings with `|` between them.
pub fn join_with_bar(parts: &Vec<String>) -> (r: String)
    ensures
        r@ == join_bar(strings_view(parts@)),
{
    proof {
        reveal_strlit("|");
    }
    let mut r = String::new();
    let n = parts.len();
    let mut i: usize = 0;
    while i < n
        invariant
            i <= n,
            n == parts@.len(),
            r@ == join_bar(strings_view(parts@).subrange(0, i as int)),
            "|"@ == seq!['|'],
        decreases n - i,
    {
        let ghost sv = strings_view(parts@);
        if i > 0 {
            r.append("|");
        }
        r.append(parts[i].as_str());
        i += 1;
        proof {
            let sub = sv.subrange(0, i as int);
            assert(sub.drop_last() =~= sv.subrange(0, i - 1));
            assert(sub.last() == parts@[i - 1]@);
            if i == 1 {
                assert(sv.subrange(0, 0) =~= Seq::<Seq<char>>::empty());
            }
        }
    }
    assert(strings_view(parts@).subrange(0, n as int) =~= strings_view(parts@));
    r
}

/// Whether `e` lists, once each, the objects of the triples of `main` with
/// subject `s` and predicate `p`.
pub open spec fn enumerates(e: Seq<Seq<char>>, main: Set<Key3>, s: Seq<char>, p: Seq<char>) -> bool {
    &&& e.no_duplicates()
    &&& forall|o: Seq<char>| e.contains(o) <==> #[trigger] main.contains((s, p, o))
}

/// The keys of the objects of the triples of `main` with subject `s` and
/// predicate `p`.
fn objects_of(main: &TripleGraph, s: &RdfTerm, p: &RdfTerm) -> (r: Vec<String>)
    requires
        term_valid(*s),
        term_valid(*p),
    ensures
        enumerates(strings_view(r@), graph_facts(*main), term_key(*s), term_key(*p)),
{
    let ghost mf = graph_facts(*main);
    let ms = graph_match(main, Some(s), Some(p), None);
    let mut r: Vec<String> = Vec::new();
    let n = ms.len();
    let mut k: usize = 0;
    while k < n
        invariant
            k <= n,
            n == ms@.len(),
            mf == graph_facts(*main),
            r@.len() == k,
            forall|j: int| 0 <= j < k ==> #[trigger] strings_view(r@)[j] == triple_key(ms@[j]).2,
        decreases n - k,
    {
        let o = ms[k].o.key();
        proof {
            lemma_strings_view_push(r@, o);
        }
        r.push(o);
        k += 1;
    }
    proof {
        let sv = strings_view(r@);
        let tks = ms@.map_values(|t: TermTriple| triple_key(t));
        assert forall|i: int, j: int| 0 <= i < sv.len() && 0 <= j < sv.len() && i != j implies sv[i] != sv[j] by {
            assert(graph_facts(*main).contains(triple_key(ms@[i])));
            assert(graph_facts(*main).contains(triple_key(ms@[j])));
            assert(tks[i] != tks[j]);
        }
        assert forall|o: Seq<char>| sv.contains(o) <==> #[trigger] mf.contains((term_key(*s), term_key(*p), o)) by {
            if sv.contains(o) {
                let i = choose|i: int| 0 <= i < sv.len() && sv[i] == o;
                assert(graph_facts(*main).contains(triple_key(ms@[i])));
            }
            if mf.contains((term_key(*s), term_key(*p), o)) {
                assert(fact_matches((term_key(*s), term_key(*p), o), Some(s), Some(p), None));
                let i = choose|i: int| 0 <= i < ms@.len() && triple_key(ms@[i]) == (term_key(*s), term_key(*p), o);
                assert(sv[i] == o);
            }
        }
    }
    r
}

/// Whether `v` joins, in some order, the values of property `p` of `ind`,
/// and there is at least one.
pub open spec fn value_ok(main: Set<Key3>, ind: Seq<char>, p: Seq<char>, v: Seq<char>) -> bool {
    exists|e: Seq<Seq<char>>| #[trigger] enumerates(e, main, ind, p) && e.len() > 0 && v == join_bar(e)
}

/// Whether `vs` holds, for the key properties `kp` in turn, the joined
/// values of `ind`, up to the first property without a value.
pub open spec fn key_values_ok(main: Set<Key3>, ind: Seq<char>, kp: Seq<Seq<char>>, vs: Seq<Seq<char>>) -> bool {
    &&& vs.len() <= kp.len()
    &&& forall|q: int| 0 <= q < vs.len() ==> #[trigger] value_ok(main, ind, kp[q], vs[q])
    &&& vs.len() < kp.len() ==> !exists|o: Seq<char>| #[trigger] main.contains((ind, kp[vs.len() as int], o))
}

/// The joined values of `ind` for the key properties, up to the first
/// property without a value.
fn key_values(main: &TripleGraph, ind: &RdfTerm, props: &Vec<RdfTerm>) -> (r: Vec<String>)
    requires
        term_valid(*ind),
        forall|i: int| 0 <= i < props@.len() ==> term_valid(#[trigger] props@[i]),
    ensures
        key_values_ok(graph_facts(*main), term_key(*ind), keys_view(props@), strings_view(r@)),
{
    let ghost mf = graph_facts(*main);
    let ghost kp = keys_view(props@);
    let mut values: Vec<String> = Vec::new();
    let n = props.len();
    let mut q: usize = 0;
    while q < n
        invariant
            q <= n,
            n == props@.len(),
            mf == graph_facts(*main),
            kp == keys_view(props@),
            values@.len() == q,
            term_valid(*ind),
            forall|i: int| 0 <= i < props@.len() ==> term_valid(#[trigger] props@[i]),
            forall|x: int| 0 <= x < q ==> #[trigger] value_ok(mf, term_key(*ind), kp[x], strings_view(values@)[x]),
        decreases n - q,
    {
        assert(term_valid(props@[q as int]));
        let vals = objects_of(main, ind, &props[q]);
        if vals.len() == 0 {
            proof {
                let ev = strings_view(vals@);
                if exists|o: Seq<char>| #[trigger] mf.contains((term_key(*ind), kp[q as int], o)) {
                    let o = choose|o: Seq<char>| #[trigger] mf.contains((term_key(*ind), kp[q as int], o));
                    assert(ev.contains(o));
                }
            }
            return values;
        }
        let joined = join_with_bar(&vals);
        proof {
            lemma_strings_view_push(values@, joined);
            assert(enumerates(strings_view(vals@), mf, term_key(*ind), kp[q as int]));
            assert(value_ok(mf, term_key(*ind), kp[q as int], joined@));
        }
        values.push(joined);
        q += 1;
    }
    values
}

/// Whether two lists of strings are equal.
fn same_strings(a: &Vec<String>, b: &Vec<String>) -> (r: bool)
    ensures
        r == (strings_view(a@) == strings_view(b@)),
{
    if a.len() != b.len() {
        assert(strings_view(a@).len() != strings_view(b@).len());
        return false;
    }
    let n = a.len();
    let mut i: usize = 0;
    while i < n
        invariant
            i <= n,
            n == a@.len(),
            n == b@.len(),
            forall|j: int| 0 <= j < i ==> strings_view(a@)[j] == strings_view(b@)[j],
        decreases n - i,
    {
        if a[i] != b[i] {
            assert(strings_view(a@)[i as int] != strings_view(b@)[i as int]);
            return false;
        }
        i += 1;
    }
    assert(strings_view(a@) =~= strings_view(b@));
    true
}

/// The choice of a prp-key job: a walk of the list of key properties, the
/// members of the class in the order they are met, and their key values.
pub type KeyChoice = (Seq<Seq<char>>, Seq<Seq<char>>, Seq<Seq<Seq<char>>>);

/// prp-key: Keys
pub struct PrpKey;

impl MainJobRule<KeyChoice> for PrpKey {
    open spec fn job_key(&self) -> Seq<char> {
        iri_key(OWL_HAS_KEY)
    }

    /// The choice of a triple `c owl:hasKey l`: a walk of `l`; where it is
    /// not empty, every member of `c` once, each with its key values.
    open spec fn allowed(&self, main: Set<Key3>, t: Key3, c: KeyChoice) -> bool {
        let (kp, inds, vals) = c;
        &&& list_walk(main, t.2, Seq::empty(), kp)
        &&& kp.len() > 0 ==> {
            &&& inds.no_duplicates()
            &&& forall|y: Seq<char>| inds.contains(y) <==> #[trigger] main.contains((y, iri_key(RDF_TYPE), t.0))
            &&& vals.len() == inds.len()
            &&& forall|i: int| 0 <= i < inds.len() ==> #[trigger] key_values_ok(main, inds[i], kp, vals[i])
        }
    }

    /// Two members of `c` with values for every key property, and the same
    /// values, are the same; the one met first is the subject.
    open spec fn gives(&self, main: Set<Key3>, t: Key3, c: KeyChoice, f: Key3) -> bool {
        let (kp, inds, vals) = c;
        kp.len() > 0 && exists|i: int, j: int| 0 <= i < j < inds.len() && #[trigger] vals[i].len() == kp.len()
            && vals[j] == vals[i] && f == (inds[i], OWL_SAME_AS@, #[trigger] inds[j])
    }

    fn job_predicate(&self) -> (r: RdfTerm) {
        iri(OWL_HAS_KEY)
    }

    fn run_job(&self, main: &TripleGraph, t: &TermTriple, out: &mut Vec<Fact>) -> (c: Ghost<KeyChoice>) {
        let ghost mf = graph_facts(*main);
        let ghost tk = triple_key(*t);
        let ghost start = out@.len() as int;
        let props = rdf_list(main, &t.o);
        let ghost kp = keys_view(props@);
        if props.len() == 0 {
            return Ghost((kp, Seq::empty(), Seq::empty()));
        }
        let ty = iri(RDF_TYPE);
        let members = graph_match(main, None, Some(&ty), Some(&t.s));
        proof {
            assert forall|j: int| 0 <= j < members@.len() implies mf.contains(#[trigger] triple_key(members@[j])) && triple_valid(members@[j]) by {
                assert(graph_facts(*main).contains(triple_key(members@[j])));
            }
        }
        let mut inds: Vec<String> = Vec::new();
        let mut vals: Vec<Vec<String>> = Vec::new();
        let ghost mut vv: Seq<Seq<Seq<char>>> = Seq::empty();
        let n = members.len();
        let mut k: usize = 0;
        while k < n
            invariant
                k <= n,
                n == members@.len(),
                mf == graph_facts(*main),
                kp == keys_view(props@),
                forall|i: int| 0 <= i < props@.len() ==> term_valid(#[trigger] props@[i]),
                forall|j: int| 0 <= j < members@.len() ==> mf.contains(#[trigger] triple_key(members@[j])) && triple_valid(members@[j]),
                inds@.len() == k,
                vals@.len() == k,
                vv.len() == k,
                forall|i: int| 0 <= i < k ==> #[trigger] strings_view(inds@)[i] == triple_key(members@[i]).0,
                forall|i: int| 0 <= i < k ==> #[trigger] vv[i] == strings_view(vals@[i]@),
                forall|i: int| 0 <= i < k ==> #[trigger] key_values_ok(mf, strings_view(inds@)[i], kp, vv[i]),
            decreases n - k,
        {
            assert(mf.contains(triple_key(members@[k as int])));
            let ind = &members[k].s;
            let kv = key_values(main, ind, &props);
            let ik = ind.key();
            proof {
                lemma_strings_view_push(inds@, ik);
                vv = vv.push(strings_view(kv@));
            }
            inds.push(ik);
            vals.push(kv);
            k += 1;
            proof {
                assert(strings_view(inds@)[k - 1] == triple_key(members@[k - 1]).0);
            }
        }
        let ghost iv = strings_view(inds@);
        proof {
            let tks = members@.map_values(|x: TermTriple| triple_key(x));
            assert forall|i: int, j: int| 0 <= i < iv.len() && 0 <= j < iv.len() && i != j implies iv[i] != iv[j] by {
                assert(graph_facts(*main).contains(triple_key(members@[i])));
                assert(graph_facts(*main).contains(triple_key(members@[j])));
                assert(tks[i] != tks[j]);
            }
            assert forall|y: Seq<char>| iv.contains(y) <==> #[trigger] mf.contains((y, iri_key(RDF_TYPE), tk.0)) by {
                if iv.contains(y) {
                    let i = choose|i: int| 0 <= i < iv.len() && iv[i] == y;
                    assert(graph_facts(*main).contains(triple_key(members@[i])));
                }
                if mf.contains((y, iri_key(RDF_TYPE), tk.0)) {
                    assert(fact_matches((y, iri_key(RDF_TYPE), tk.0), None, Some(&ty), Some(&t.s)));
                    let i = choose|i: int| 0 <= i < members@.len() && triple_key(members@[i]) == (y, iri_key(RDF_TYPE), tk.0);
                    assert(iv[i] == y);
                }
            }
        }
        let same = OWL_SAME_AS.to_owned();
        let mut i: usize = 0;
        while i < n
            invariant
                i <= n,
                n == inds@.len(),
                n == vals@.len(),
                n == vv.len(),
                iv == strings_view(inds@),
                kp == keys_view(props@),
                same@ == OWL_SAME_AS@,
                forall|x: int| 0 <= x < n ==> #[trigger] vv[x] == strings_view(vals@[x]@),
                start == old(out)@.len(),
                out@.len() >= start,
                forall|x: int| 0 <= x < start ==> #[trigger] out@[x] == old(out)@[x],
                forall|f: Key3| facts_have_from(out@, start, f) <==> exists|a: int, b: int| 0 <= a < i && a < b < n
                    && #[trigger] vv[a].len() == kp.len() && vv[b] == vv[a] && f == (iv[a], OWL_SAME_AS@, #[trigger] iv[b]),
            decreases n - i,
        {
            if vals[i].len() == props.len() {
                let mut j: usize = i + 1;
                while j < n
                    invariant
                        i < j <= n,
                        n == inds@.len(),
                        n == vals@.len(),
                        n == vv.len(),
                        iv == strings_view(inds@),
                        kp == keys_view(props@),
                        same@ == OWL_SAME_AS@,
                        vv[i as int].len() == kp.len(),
                        forall|x: int| 0 <= x < n ==> #[trigger] vv[x] == strings_view(vals@[x]@),
                        start == old(out)@.len(),
                        out@.len() >= start,
                        forall|x: int| 0 <= x < start ==> #[trigger] out@[x] == old(out)@[x],
                        forall|f: Key3| facts_have_from(out@, start, f) <==> exists|a: int, b: int| 0 <= a < i + 1 && a < b < n
                            && (a < i || b < j) && #[trigger] vv[a].len() == kp.len() && vv[b] == vv[a] && f == (iv[a], OWL_SAME_AS@, #[trigger] iv[b]),
                    decreases n - j,
                {
                    let ghost before = out@;
                    let eq = same_strings(&vals[i], &vals[j]);
                    if eq {
                        out.push(Fact { s: inds[i].clone(), p: same.clone(), o: inds[j].clone() });
                    }
                    proof {
                        assert(vv[i as int] == strings_view(vals@[i as int]@));
                        assert(vv[j as int] == strings_view(vals@[j as int]@));
                        let g = (iv[i as int], OWL_SAME_AS@, iv[j as int]);
                        lemma_facts_from_split(before, out@, start, before.len() as int);
                        assert forall|f: Key3| facts_have_from(out@, before.len() as int, f) <==> (eq && f == g) by {
                            if facts_have_from(out@, before.len() as int, f) {
                                let x = choose|x: int| before.len() <= x < out@.len() && #[trigger] fact_view(out@[x]) == f;
                                assert(x == before.len());
                            }
                            if eq && f == g {
                                assert(fact_view(out@[before.len() as int]) == f);
                            }
                        }
                        assert forall|f: Key3| facts_have_from(out@, start, f) <==> exists|a: int, b: int| 0 <= a < i + 1 && a < b < n
                            && (a < i || b < j + 1) && #[trigger] vv[a].len() == kp.len() && vv[b] == vv[a] && f == (iv[a], OWL_SAME_AS@, #[trigger] iv[b]) by {
                            if exists|a: int, b: int| 0 <= a < i + 1 && a < b < n
                                && (a < i || b < j + 1) && #[trigger] vv[a].len() == kp.len() && vv[b] == vv[a] && f == (iv[a], OWL_SAME_AS@, #[trigger] iv[b]) {
                                let (a, b) = choose|a: int, b: int| 0 <= a < i + 1 && a < b < n
                                    && (a < i || b < j + 1) && #[trigger] vv[a].len() == kp.len() && vv[b] == vv[a] && f == (iv[a], OWL_SAME_AS@, #[trigger] iv[b]);
                                if a == i && b == j {
                                    assert(eq && f == g);
                                } else {
                                    assert(facts_have_from(before, start, f));
                                }
                            }
                        }
                    }
                    j += 1;
                }
            }
            i += 1;
            proof {
                assert forall|f: Key3| facts_have_from(out@, start, f) <==> exists|a: int, b: int| 0 <= a < i && a < b < n
                    && #[trigger] vv[a].len() == kp.len() && vv[b] == vv[a] && f == (iv[a], OWL_SAME_AS@, #[trigger] iv[b]) by {
                    if exists|a: int, b: int| 0 <= a < i && a < b < n
                        && #[trigger] vv[a].len() == kp.len() && vv[b] == vv[a] && f == (iv[a], OWL_SAME_AS@, #[trigger] iv[b]) {
                        let (a, b) = choose|a: int, b: int| 0 <= a < i && a < b < n
                            && #[trigger] vv[a].len() == kp.len() && vv[b] == vv[a] && f == (iv[a], OWL_SAME_AS@, #[trigger] iv[b]);
                        assert(vv[a].len() == kp.len());
                    }
                }
            }
        }
        proof {
            assert(self.allowed(mf, tk, (kp, iv, vv)));
            assert forall|f: Key3| facts_have_from(out@, start, f) <==> self.gives(mf, tk, (kp, iv, vv), f) by {}
        }
        Ghost((kp, iv, vv))
    }
}

impl InferenceRule for PrpKey {
    open spec fn outcome(&self, main: Set<Key3>, delta: Set<Key3>, r: Result<Vec<Fact>, Inconsistency>) -> bool {
        main_job_outcome(*self, main, r)
    }

    fn apply(&self, main: &TripleGraph, delta: &TripleGraph) -> (r: Result<Vec<Fact>, Inconsistency>) {
        apply_main_jobs(self, main)
    }
}

} // verus!
