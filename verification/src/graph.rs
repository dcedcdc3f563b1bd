use vstd::prelude::*;
use sophia::api::graph::{Graph, MutableGraph};
use sophia::api::parser::TripleParser;
use sophia::api::serializer::{Stringifier, TripleSerializer};
use sophia::turtle::parser::{nt::NTriplesParser, turtle::TurtleParser};
use sophia::turtle::serializer::{nt::NTriplesSerializer, turtle::TurtleSerializer};
use sophia::api::term::matcher::Any;
use sophia::api::term::{BnodeId, IriRef, SimpleTerm, Term};
use sophia::inmem::graph::FastGraph;
use sophia::inmem::index::TermIndexFullError;
use crate::term::{term_key, RdfTerm};

verus! {

/// A graph of triples, held in `sophia`'s `FastGraph`. The graph is only
/// built and changed through the functions of this module, so every triple
/// in it is made of IRIs and blank nodes with valid text and of
/// `xsd:string` literals.
#[verifier::external_body]
pub struct TripleGraph {
    graph: FastGraph,
}

#[verifier::external_type_specification]
#[verifier::external_body]
pub struct ExSimpleTerm<'a>(SimpleTerm<'a>);

#[verifier::external_type_specification]
#[verifier::external_body]
pub struct ExTermIndexFullError(TermIndexFullError);

/// A fact as the keys of its subject, predicate and object.
pub type Key3 = (Seq<char>, Seq<char>, Seq<char>);

/// The triples of `g`, each given by the keys of its three terms.
pub uninterp spec fn graph_facts(g: TripleGraph) -> Set<Key3>;

/// Whether `IriRef::new` accepts the text as an IRI reference.
pub uninterp spec fn iri_valid(s: Seq<char>) -> bool;

/// Whether `BnodeId::new` accepts the text as a blank node identifier.
pub uninterp spec fn bnode_valid(s: Seq<char>) -> bool;

/// Whether a term can be handed to a graph.
pub open spec fn term_valid(t: RdfTerm) -> bool {
    match t {
        RdfTerm::Iri(s) => iri_valid(s@),
        RdfTerm::Blank(s) => bnode_valid(s@),
        RdfTerm::Literal(_) => true,
        RdfTerm::Other => false,
    }
}

/// Whether the term with the given key can be handed to a graph: the text
/// after `i:` must be an IRI, after `b:` a blank node identifier, and any
/// text may follow `l:`.
pub open spec fn key_valid(k: Seq<char>) -> bool {
    if k.len() >= 2 && k[1] == ':' && k[0] == 'i' {
        iri_valid(k.subrange(2, k.len() as int))
    } else if k.len() >= 2 && k[1] == ':' && k[0] == 'l' {
        true
    } else if k.len() >= 2 && k[1] == ':' && k[0] == 'b' {
        bnode_valid(k.subrange(2, k.len() as int))
    } else {
        false
    }
}

/// A storable term is valid exactly when its key is.
pub proof fn lemma_key_valid(t: RdfTerm)
    requires
        crate::term::storable(t),
    ensures
        term_valid(t) == key_valid(term_key(t)),
{
    let k = term_key(t);
    match t {
        RdfTerm::Iri(s) => {
            assert(k.subrange(2, k.len() as int) =~= s@);
        },
        RdfTerm::Blank(s) => {
            assert(k.subrange(2, k.len() as int) =~= s@);
        },
        _ => {},
    }
}

/// Storable terms with the same key are valid alike.
pub proof fn lemma_valid_by_key(a: RdfTerm, b: RdfTerm)
    requires
        term_key(a) == term_key(b),
        crate::term::storable(a),
        crate::term::storable(b),
    ensures
        term_valid(a) == term_valid(b),
{
    let ka = term_key(a);
    match a {
        RdfTerm::Iri(s) => {
            assert(ka[0] == 'i');
            assert(ka.subrange(2, ka.len() as int) =~= s@);
        },
        RdfTerm::Literal(s) => {
            assert(ka[0] == 'l');
        },
        RdfTerm::Blank(s) => {
            assert(ka[0] == 'b');
            assert(ka.subrange(2, ka.len() as int) =~= s@);
        },
        RdfTerm::Other => {},
    }
    match b {
        RdfTerm::Iri(t) => {
            assert(ka.subrange(2, ka.len() as int) =~= t@);
        },
        RdfTerm::Blank(t) => {
            assert(ka.subrange(2, ka.len() as int) =~= t@);
        },
        _ => {},
    }
}

/// A triple of terms, as the graphs hand them out.
#[derive(Debug)]
pub struct TermTriple {
    pub s: RdfTerm,
    pub p: RdfTerm,
    pub o: RdfTerm,
}

/// The keys of a triple of terms.
pub open spec fn triple_key(t: TermTriple) -> Key3 {
    (term_key(t.s), term_key(t.p), term_key(t.o))
}

/// Whether a triple of terms can be handed to a graph.
pub open spec fn triple_valid(t: TermTriple) -> bool {
    term_valid(t.s) && term_valid(t.p) && term_valid(t.o)
}

/// Whether a query term is absent or valid.
pub open spec fn query_valid(q: Option<&RdfTerm>) -> bool {
    q matches Some(t) ==> term_valid(*t)
}

/// Whether a key agrees with a query term: an absent term matches anything.
pub open spec fn key_matches(k: Seq<char>, q: Option<&RdfTerm>) -> bool {
    q matches Some(t) ==> k == term_key(*t)
}

/// Whether a fact agrees with a pattern of three query terms.
pub open spec fn fact_matches(f: Key3, s: Option<&RdfTerm>, p: Option<&RdfTerm>, o: Option<&RdfTerm>) -> bool {
    key_matches(f.0, s) && key_matches(f.1, p) && key_matches(f.2, o)
}

/// Converts a term of the library to `sophia`'s own representation, one
/// variant for one: literals become `xsd:string` literals. Only valid terms
/// are converted, as `new_unchecked` checks the text in debug builds.
#[verifier::external_body]
fn sophia_term(t: &RdfTerm) -> SimpleTerm<'static>
    requires
        term_valid(*t),
{
    match t {
        RdfTerm::Iri(s) => SimpleTerm::Iri(IriRef::new_unchecked(s.clone().into())),
        RdfTerm::Literal(s) => SimpleTerm::LiteralDatatype(
            s.clone().into(),
            IriRef::new_unchecked("http://www.w3.org/2001/XMLSchema#string".into()),
        ),
        RdfTerm::Blank(s) => SimpleTerm::BlankNode(BnodeId::new_unchecked(s.clone().into())),
        RdfTerm::Other => SimpleTerm::BlankNode(BnodeId::new_unchecked("anon".into())),
    }
}

/// Converts a term of `sophia` to the library's representation, one variant
/// for one: a literal keeps its lexical form.
#[verifier::external_body]
fn library_term(t: SimpleTerm<'_>) -> RdfTerm {
    match t {
        SimpleTerm::Iri(i) => RdfTerm::Iri(i.as_str().to_string()),
        SimpleTerm::BlankNode(b) => RdfTerm::Blank(b.as_str().to_string()),
        SimpleTerm::LiteralDatatype(l, _) | SimpleTerm::LiteralLanguage(l, ..) => RdfTerm::Literal(l.to_string()),
        _ => RdfTerm::Other,
    }
}

impl TermTriple {
    /// Converts the three terms of a triple of `sophia`, one for one.
    #[verifier::external_body]
    fn from_terms<T: Term>(t: [T; 3]) -> TermTriple {
        let [s, p, o] = t;
        TermTriple { s: library_term(s.as_simple()), p: library_term(p.as_simple()), o: library_term(o.as_simple()) }
    }
}

/// `IriRef::new`: whether the text is a valid IRI reference.
#[verifier::external_body]
pub(crate) fn check_iri(s: &str) -> (r: bool)
    ensures
        r == iri_valid(s@),
{
    IriRef::new(s).is_ok()
}

/// `BnodeId::new`: whether the text is a valid blank node identifier.
#[verifier::external_body]
pub(crate) fn check_bnode(s: &str) -> (r: bool)
    ensures
        r == bnode_valid(s@),
{
    BnodeId::new(s).is_ok()
}

/// `FastGraph::new`: an empty graph.
#[verifier::external_body]
pub(crate) fn graph_new() -> (g: TripleGraph)
    ensures
        graph_facts(g) == Set::<Key3>::empty(),
{
    TripleGraph { graph: FastGraph::new() }
}

/// `MutableGraph::insert` on a `FastGraph`: adds the triple and tells
/// whether it was new. It fails only when the graph's term index is full,
/// and then no triple is added.
#[verifier::external_body]
pub(crate) fn graph_insert(g: &mut TripleGraph, s: &RdfTerm, p: &RdfTerm, o: &RdfTerm) -> (r: Result<bool, TermIndexFullError>)
    requires
        term_valid(*s),
        term_valid(*p),
        term_valid(*o),
    ensures
        r matches Ok(b) ==> graph_facts(*final(g)) == graph_facts(*old(g)).insert((term_key(*s), term_key(*p), term_key(*o))),
        r matches Ok(b) ==> b == !graph_facts(*old(g)).contains((term_key(*s), term_key(*p), term_key(*o))),
        r is Err ==> graph_facts(*final(g)) == graph_facts(*old(g)),
{
    g.graph.insert(sophia_term(s), sophia_term(p), sophia_term(o))
}

/// `MutableGraph::remove` on a `FastGraph`: removes the triple and tells
/// whether it was there. On a `FastGraph` it never fails.
#[verifier::external_body]
pub(crate) fn graph_remove(g: &mut TripleGraph, s: &RdfTerm, p: &RdfTerm, o: &RdfTerm) -> (r: bool)
    requires
        term_valid(*s),
        term_valid(*p),
        term_valid(*o),
    ensures
        graph_facts(*final(g)) == graph_facts(*old(g)).remove((term_key(*s), term_key(*p), term_key(*o))),
        r == graph_facts(*old(g)).contains((term_key(*s), term_key(*p), term_key(*o))),
{
    match g.graph.remove(sophia_term(s), sophia_term(p), sophia_term(o)) {
        Ok(b) => b,
        Err(_) => false,
    }
}

/// `Graph::contains` on a `FastGraph`: whether the triple is in the graph.
#[verifier::external_body]
pub(crate) fn graph_contains(g: &TripleGraph, s: &RdfTerm, p: &RdfTerm, o: &RdfTerm) -> (r: bool)
    requires
        term_valid(*s),
        term_valid(*p),
        term_valid(*o),
    ensures
        r == graph_facts(*g).contains((term_key(*s), term_key(*p), term_key(*o))),
{
    match g.graph.contains(sophia_term(s), sophia_term(p), sophia_term(o)) {
        Ok(b) => b,
        Err(_) => false,
    }
}

/// `Graph::triples_matching` on a `FastGraph`, with the given subject and
/// predicate (an absent one standing for `Any`) and `Any` object: every
/// triple of the graph that agrees with them, once each.
#[verifier::external_body]
fn graph_match_sp(g: &TripleGraph, s: Option<&RdfTerm>, p: Option<&RdfTerm>) -> (r: Vec<TermTriple>)
    requires
        query_valid(s),
        query_valid(p),
    ensures
        forall|i: int| 0 <= i < r@.len() ==> {
            &&& graph_facts(*g).contains(#[trigger] triple_key(r@[i]))
            &&& fact_matches(triple_key(r@[i]), s, p, None)
            &&& triple_valid(r@[i])
        },
        forall|f: Key3| #[trigger] graph_facts(*g).contains(f) && fact_matches(f, s, p, None)
            ==> exists|i: int| 0 <= i < r@.len() && triple_key(r@[i]) == f,
        r@.map_values(|t: TermTriple| triple_key(t)).no_duplicates(),
{
    let c = |t: &RdfTerm| [sophia_term(t)];
    let it: Box<dyn Iterator<Item = _>> = match (s, p) {
        (None, None) => Box::new(g.graph.triples_matching(Any, Any, Any)),
        (Some(s), None) => Box::new(g.graph.triples_matching(c(s), Any, Any)),
        (None, Some(p)) => Box::new(g.graph.triples_matching(Any, c(p), Any)),
        (Some(s), Some(p)) => Box::new(g.graph.triples_matching(c(s), c(p), Any)),
    };
    it.map(|t| TermTriple::from_terms(t.unwrap())).collect()
}

/// Every triple of `g` that agrees with the pattern, an absent term
/// matching anything, once each.
pub(crate) fn graph_match(g: &TripleGraph, s: Option<&RdfTerm>, p: Option<&RdfTerm>, o: Option<&RdfTerm>) -> (r: Vec<TermTriple>)
    requires
        query_valid(s),
        query_valid(p),
        query_valid(o),
    ensures
        forall|i: int| 0 <= i < r@.len() ==> {
            &&& graph_facts(*g).contains(#[trigger] triple_key(r@[i]))
            &&& fact_matches(triple_key(r@[i]), s, p, o)
            &&& triple_valid(r@[i])
        },
        forall|f: Key3| #[trigger] graph_facts(*g).contains(f) && fact_matches(f, s, p, o)
            ==> exists|i: int| 0 <= i < r@.len() && triple_key(r@[i]) == f,
        r@.map_values(|t: TermTriple| triple_key(t)).no_duplicates(),
{
    let all = graph_match_sp(g, s, p);
    match o {
        None => all,
        Some(ot) => {
            let mut out: Vec<TermTriple> = Vec::new();
            let mut rest = all;
            let ghost orig = rest@;
            let n = rest.len();
            let mut k: usize = 0;
            while k < n
                invariant
                    k <= n,
                    n == orig.len(),
                    o == Some(ot),
                    rest@.len() == n - k,
                    forall|j: int| 0 <= j < rest@.len() ==> #[trigger] rest@[j] == orig[j + k],
                    forall|i: int| 0 <= i < orig.len() ==> {
                        &&& graph_facts(*g).contains(#[trigger] triple_key(orig[i]))
                        &&& fact_matches(triple_key(orig[i]), s, p, None)
                        &&& triple_valid(orig[i])
                    },
                    orig.map_values(|t: TermTriple| triple_key(t)).no_duplicates(),
                    forall|i: int| 0 <= i < out@.len() ==> {
                        &&& graph_facts(*g).contains(#[trigger] triple_key(out@[i]))
                        &&& fact_matches(triple_key(out@[i]), s, p, o)
                        &&& triple_valid(out@[i])
                    },
                    forall|i: int| 0 <= i < out@.len() ==> exists|j: int| 0 <= j < k && #[trigger] triple_key(out@[i]) == triple_key(orig[j]),
                    forall|j: int| 0 <= j < k && triple_key(orig[j]).2 == term_key(*ot)
                        ==> exists|i: int| 0 <= i < out@.len() && #[trigger] triple_key(out@[i]) == triple_key(orig[j]),
                    forall|i: int, j: int| 0 <= i < out@.len() && 0 <= j < out@.len() && i != j
                        ==> #[trigger] triple_key(out@[i]) != #[trigger] triple_key(out@[j]),
                decreases n - k,
            {
                let t = rest.remove(0);
                assert(t == orig[k as int]);
                if t.o.same(ot) {
                    let ghost before = out@;
                    proof {
                        assert forall|i: int| 0 <= i < before.len() implies #[trigger] triple_key(before[i]) != triple_key(t) by {
                            let j = choose|j: int| 0 <= j < k && #[trigger] triple_key(before[i]) == triple_key(orig[j]);
                            assert(orig.map_values(|t: TermTriple| triple_key(t))[j] == triple_key(orig[j]));
                            assert(orig.map_values(|t: TermTriple| triple_key(t))[k as int] == triple_key(orig[k as int]));
                        }
                    }
                    out.push(t);
                    proof {
                        assert forall|i: int| 0 <= i < out@.len() implies {
                            &&& graph_facts(*g).contains(#[trigger] triple_key(out@[i]))
                            &&& fact_matches(triple_key(out@[i]), s, p, o)
                            &&& triple_valid(out@[i])
                        } by {
                            if i < before.len() {
                                assert(out@[i] == before[i]);
                            } else {
                                assert(out@[i] == orig[k as int]);
                                assert(graph_facts(*g).contains(triple_key(orig[k as int])));
                            }
                        }
                        assert forall|i: int, j: int| 0 <= i < out@.len() && 0 <= j < out@.len() && i != j implies
                            #[trigger] triple_key(out@[i]) != #[trigger] triple_key(out@[j]) by {
                            if i < before.len() && j < before.len() {
                                assert(out@[i] == before[i]);
                                assert(out@[j] == before[j]);
                            } else if i < before.len() {
                                assert(out@[i] == before[i]);
                            } else if j < before.len() {
                                assert(out@[j] == before[j]);
                            }
                        }
                        assert forall|i: int| 0 <= i < out@.len() implies exists|j: int| 0 <= j < k + 1 && #[trigger] triple_key(out@[i]) == triple_key(orig[j]) by {
                            if i < before.len() {
                                assert(out@[i] == before[i]);
                                let j = choose|j: int| 0 <= j < k && #[trigger] triple_key(before[i]) == triple_key(orig[j]);
                                assert(triple_key(out@[i]) == triple_key(orig[j]));
                            } else {
                                assert(triple_key(out@[i]) == triple_key(orig[k as int]));
                            }
                        }
                        assert forall|j: int| 0 <= j < k + 1 && triple_key(orig[j]).2 == term_key(*ot)
                            implies exists|i: int| 0 <= i < out@.len() && #[trigger] triple_key(out@[i]) == triple_key(orig[j]) by {
                            if j < k {
                                let i = choose|i: int| 0 <= i < before.len() && #[trigger] triple_key(before[i]) == triple_key(orig[j]);
                                assert(out@[i] == before[i]);
                            } else {
                                assert(triple_key(out@[before.len() as int]) == triple_key(orig[j]));
                            }
                        }
                    }
                } else {
                    proof {
                        assert forall|j: int| 0 <= j < k + 1 && triple_key(orig[j]).2 == term_key(*ot)
                            implies exists|i: int| 0 <= i < out@.len() && #[trigger] triple_key(out@[i]) == triple_key(orig[j]) by {
                            if j == k {
                                assert(triple_key(orig[j]).2 != term_key(*ot));
                            }
                        }
                        assert forall|i: int| 0 <= i < out@.len() implies exists|j: int| 0 <= j < k + 1 && #[trigger] triple_key(out@[i]) == triple_key(orig[j]) by {
                            let j = choose|j: int| 0 <= j < k && #[trigger] triple_key(out@[i]) == triple_key(orig[j]);
                        }
                    }
                }
                k += 1;
            }
            proof {
                assert forall|f: Key3| #[trigger] graph_facts(*g).contains(f) && fact_matches(f, s, p, o)
                    implies exists|i: int| 0 <= i < out@.len() && triple_key(out@[i]) == f by {
                    assert(fact_matches(f, s, p, None));
                    let j = choose|j: int| 0 <= j < orig.len() && triple_key(orig[j]) == f;
                    let i = choose|i: int| 0 <= i < out@.len() && #[trigger] triple_key(out@[i]) == triple_key(orig[j]);
                }
                let m = out@.map_values(|t: TermTriple| triple_key(t));
                assert forall|i: int, j: int| 0 <= i < m.len() && 0 <= j < m.len() && i != j implies m[i] != m[j] by {
                    assert(m[i] == triple_key(out@[i]));
                    assert(m[j] == triple_key(out@[j]));
                }
            }
            out
        },
    }
}

/// The keys of the triples of a document, or nothing where the document is
/// not well formed (in Turtle where `turtle`, else in N-Triples). Blank node
/// labels are kept as written, except that the Turtle parser appends `d` to
/// a label of the form it gives anonymous nodes (`bn` and four or more
/// digits), and names each `[]` in that form, counting from the start of
/// the document.
pub uninterp spec fn parsed_document(data: Seq<char>, turtle: bool) -> Option<Set<Key3>>;

/// `TurtleParser` or `NTriplesParser` of `sophia`, keeping blank node
/// labels, with `insert_all` into a `FastGraph`: the triples of the
/// document, each term as the library represents it, or the parser's
/// message. The order of the triples, and whether two of them share their
/// keys, is left unsaid.
#[verifier::external_body]
pub(crate) fn parse_document(data: &str, turtle: bool) -> (r: Result<Vec<TermTriple>, String>)
    ensures
        r is Ok <==> parsed_document(data@, turtle) is Some,
        r matches Ok(ts) ==> forall|f: Key3| #[trigger] parsed_document(data@, turtle)->0.contains(f)
            <==> exists|i: int| 0 <= i < ts@.len() && triple_key(ts@[i]) == f,
{
    let mut g = FastGraph::new();
    let res = if turtle {
        g.insert_all(TurtleParser::new().with_preserve_bn_labels(true).parse_str(data)).map_err(|e| e.to_string())
    } else {
        g.insert_all(NTriplesParser::new().with_preserve_bn_labels(true).parse_str(data)).map_err(|e| e.to_string())
    };
    res.map(|_| g.triples().map(|t| TermTriple::from_terms(t.unwrap())).collect())
}

/// Whether a blank node label has the form that the Turtle parser gives
/// anonymous nodes, `bn`, four or more digits, optionally `_` and lower-case
/// hex digits, then any number of `d`.
pub open spec fn generated_label(l: Seq<char>) -> bool {
    exists|i: int, j: int| #[trigger] label_split(l, i, j)
}

/// Whether `l` is `bn`, the digits before `i`, an optional `_` with hex
/// digits up to `j`, and `d` from `j` on.
pub open spec fn label_split(l: Seq<char>, i: int, j: int) -> bool {
    &&& 6 <= i <= j <= l.len()
    &&& l[0] == 'b' && l[1] == 'n'
    &&& (forall|x: int| 2 <= x < i ==> '0' <= #[trigger] l[x] <= '9')
    &&& (j == i || (l[i] == '_' && j > i + 1 && forall|x: int| i < x < j ==> ('0' <= #[trigger] l[x] <= '9' || 'a' <= l[x] <= 'f')))
    &&& (forall|x: int| j <= x < l.len() ==> #[trigger] l[x] == 'd')
}

/// Whether the key is that of a blank node with such a label.
pub open spec fn generated_blank_key(k: Seq<char>) -> bool {
    k.len() >= 2 && k[0] == 'b' && k[1] == ':' && generated_label(k.subrange(2, k.len() as int))
}

/// Whether no triple of the facts holds a blank node with such a label.
pub open spec fn no_generated_blanks(facts: Set<Key3>) -> bool {
    forall|f: Key3| #[trigger] facts.contains(f) ==> !generated_blank_key(f.0) && !generated_blank_key(f.2)
}

/// `TurtleSerializer` or `NTriplesSerializer` of `sophia`, writing a graph
/// to a string. Both write into a `Vec<u8>`, which never refuses a write,
/// and read the graph's triples, which cannot fail, so they always succeed.
/// N-Triples writes one line per triple and nothing else, so its text is
/// empty exactly when the graph is; Turtle first writes its default
/// `PREFIX` lines, so its text is never empty. Reading an N-Triples text
/// back gives the graph's triples again, where it can be read back: the
/// parser refuses a relative IRI, which `IriRef` admits into a graph, and
/// then the text does not parse. The same holds of a Turtle text where no
/// blank node has a label of the form the Turtle parser gives `[]` itself
/// (`generated_label`): the parser renames such a label. The layout of the
/// text is left unsaid.
#[verifier::external_body]
pub(crate) fn serialize_graph(g: &TripleGraph, turtle: bool) -> (r: Result<String, String>)
    ensures
        r is Ok,
        !turtle && parsed_document(r->Ok_0@, false) is Some ==> parsed_document(r->Ok_0@, false)->0 == graph_facts(*g),
        turtle && no_generated_blanks(graph_facts(*g)) && parsed_document(r->Ok_0@, true) is Some
            ==> parsed_document(r->Ok_0@, true)->0 == graph_facts(*g),
        turtle ==> r->Ok_0@.len() > 0,
        !turtle ==> (r->Ok_0@.len() == 0 <==> graph_facts(*g) == Set::<Key3>::empty()),
{
    if turtle {
        let mut ser = TurtleSerializer::new_stringifier();
        ser.serialize_graph(&g.graph).map_err(|e| e.to_string())?;
        Ok(ser.as_str().to_string())
    } else {
        let mut ser = NTriplesSerializer::new_stringifier();
        ser.serialize_graph(&g.graph).map_err(|e| e.to_string())?;
        Ok(ser.as_str().to_string())
    }
}

} // verus!

verus! {

/// Whether a term can be handed to a graph; the IRI or blank node text is
/// checked by `sophia`.
pub fn term_is_valid(t: &RdfTerm) -> (r: bool)
    ensures
        r == term_valid(*t),
{
    match t {
        RdfTerm::Iri(s) => check_iri(s.as_str()),
        RdfTerm::Blank(s) => check_bnode(s.as_str()),
        RdfTerm::Literal(_) => true,
        RdfTerm::Other => false,
    }
}

impl TripleGraph {
    /// Whether the graph holds the triple; a term that cannot be handed to a
    /// graph is in none of its triples.
    pub fn contains(&self, s: &RdfTerm, p: &RdfTerm, o: &RdfTerm) -> (r: bool)
        ensures
            r == (term_valid(*s) && term_valid(*p) && term_valid(*o)
                && graph_facts(*self).contains((term_key(*s), term_key(*p), term_key(*o)))),
    {
        if !(term_is_valid(s) && term_is_valid(p) && term_is_valid(o)) {
            return false;
        }
        graph_contains(self, s, p, o)
    }

    /// The triples of the graph that agree with the pattern, an absent term
    /// matching anything, each once; none where a given term cannot be
    /// handed to a graph.
    pub fn triples_matching(&self, s: Option<&RdfTerm>, p: Option<&RdfTerm>, o: Option<&RdfTerm>) -> (r: Vec<TermTriple>)
        ensures
            !(query_valid(s) && query_valid(p) && query_valid(o)) ==> r@.len() == 0,
            forall|i: int| 0 <= i < r@.len() ==> {
                &&& graph_facts(*self).contains(#[trigger] triple_key(r@[i]))
                &&& fact_matches(triple_key(r@[i]), s, p, o)
                &&& triple_valid(r@[i])
            },
            query_valid(s) && query_valid(p) && query_valid(o) ==> forall|f: Key3| #[trigger] graph_facts(*self).contains(f)
                && fact_matches(f, s, p, o) ==> exists|i: int| 0 <= i < r@.len() && triple_key(r@[i]) == f,
            r@.map_values(|t: TermTriple| triple_key(t)).no_duplicates(),
    {
        let ok = match s {
            Some(t) => term_is_valid(t),
            None => true,
        } && match p {
            Some(t) => term_is_valid(t),
            None => true,
        } && match o {
            Some(t) => term_is_valid(t),
            None => true,
        };
        if !ok {
            let r: Vec<TermTriple> = Vec::new();
            assert(r@.map_values(|t: TermTriple| triple_key(t)) =~= Seq::<Key3>::empty());
            return r;
        }
        graph_match(self, s, p, o)
    }
}

} // verus!
