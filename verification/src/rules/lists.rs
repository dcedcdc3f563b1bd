use vstd::prelude::*;
use crate::graph::{graph_facts, graph_match, term_valid, triple_key, Key3, TripleGraph};
use crate::rules::{iri, iri_key, vocab_valid, RDF_FIRST, RDF_NIL, RDF_REST};
use crate::term::{term_key, RdfTerm};

verus! {

/// The largest number of nodes of a list that are visited.
pub const MAX_LIST_NODES: usize = 1000;

/// The strings of a list of strings.
pub open spec fn strings_view(v: Seq<String>) -> Seq<Seq<char>> {
    v.map_values(|s: String| s@)
}

/// The keys of a list of terms.
pub open spec fn keys_view(v: Seq<RdfTerm>) -> Seq<Seq<char>> {
    v.map_values(|t: RdfTerm| term_key(t))
}

/// Whether node `n` of the list has an element in `main`.
pub open spec fn has_first(main: Set<Key3>, n: Seq<char>) -> bool {
    exists|x: Seq<char>| #[trigger] main.contains((n, iri_key(RDF_FIRST), x))
}

/// Whether node `n` of the list has a successor in `main`.
pub open spec fn has_rest(main: Set<Key3>, n: Seq<char>) -> bool {
    exists|y: Seq<char>| #[trigger] main.contains((n, iri_key(RDF_REST), y))
}

/// Whether walking an RDF list in `main` from node `n`, the nodes `seen`
/// having been visited, may give the elements `elems`. At each node not yet
/// visited (the walk also stops at a node equal to the untagged text of
/// `rdf:nil`), one `rdf:first` value is taken as the next element and one
/// `rdf:rest` value as the next node; the walk stops where either is missing
/// or when more than `MAX_LIST_NODES` nodes were visited.
pub open spec fn list_walk(main: Set<Key3>, n: Seq<char>, seen: Seq<Seq<char>>, elems: Seq<Seq<char>>) -> bool
    decreases MAX_LIST_NODES + 1 - seen.len(),
{
    if n == RDF_NIL@ || seen.contains(n) || seen.len() > MAX_LIST_NODES || !has_first(main, n) {
        elems.len() == 0
    } else {
        &&& elems.len() >= 1
        &&& main.contains((n, iri_key(RDF_FIRST), elems[0]))
        &&& if !has_rest(main, n) {
            elems.len() == 1
        } else {
            exists|y: Seq<char>| #[trigger] main.contains((n, iri_key(RDF_REST), y)) && if seen.len() + 1 > MAX_LIST_NODES {
                elems.len() == 1
            } else {
                list_walk(main, y, seen.push(n), elems.drop_first())
            }
        }
    }
}

/// Whether the string list `v` holds `s`.
pub fn string_in(v: &Vec<String>, s: &String) -> (r: bool)
    ensures
        r == strings_view(v@).contains(s@),
{
    let n = v.len();
    let mut i: usize = 0;
    while i < n
        invariant
            i <= n,
            n == v@.len(),
            forall|j: int| 0 <= j < i ==> v@[j]@ != s@,
        decreases n - i,
    {
        if v[i] == *s {
            assert(strings_view(v@)[i as int] == s@);
            return true;
        }
        i += 1;
    }
    proof {
        if strings_view(v@).contains(s@) {
            let j = choose|j: int| 0 <= j < strings_view(v@).len() && strings_view(v@)[j] == s@;
            assert(v@[j]@ == s@);
        }
    }
    false
}

/// Appending a string appends its characters.
pub proof fn lemma_strings_view_push(v: Seq<String>, s: String)
    ensures
        strings_view(v.push(s)) == strings_view(v).push(s@),
{
    assert(strings_view(v.push(s)) =~= strings_view(v).push(s@));
}

/// Appending a term appends its key.
pub proof fn lemma_keys_view_push(v: Seq<RdfTerm>, t: RdfTerm)
    ensures
        keys_view(v.push(t)) == keys_view(v).push(term_key(t)),
{
    assert(keys_view(v.push(t)) =~= keys_view(v).push(term_key(t)));
}

/// The elements of the RDF list that starts at `head`: the values of
/// `rdf:first` along the chain of `rdf:rest`, stopping at a node already
/// visited, at a node without a value or a successor, or after
/// `MAX_LIST_NODES` nodes.
pub fn rdf_list(main: &TripleGraph, head: &RdfTerm) -> (r: Vec<RdfTerm>)
    requires
        vocab_valid(),
        term_valid(*head),
    ensures
        list_walk(graph_facts(*main), term_key(*head), Seq::empty(), keys_view(r@)),
        forall|i: int| 0 <= i < r@.len() ==> term_valid(#[trigger] r@[i]),
{
    let ghost mf = graph_facts(*main);
    let ghost hk = term_key(*head);
    let first = iri(RDF_FIRST);
    let rest = iri(RDF_REST);
    let nil = RDF_NIL.to_owned();
    let mut elements: Vec<RdfTerm> = Vec::new();
    let mut visited: Vec<String> = Vec::new();
    let mut current = head.duplicate();
    proof {
        crate::graph::lemma_valid_by_key(current, *head);
        assert(strings_view(visited@) =~= Seq::<Seq<char>>::empty());
        assert forall|tail: Seq<Seq<char>>| #[trigger] list_walk(mf, term_key(current), strings_view(visited@), tail)
            implies list_walk(mf, hk, Seq::empty(), keys_view(elements@) + tail) by {
            assert(keys_view(elements@) + tail =~= tail);
        }
    }
    loop
        invariant
            vocab_valid(),
            mf == graph_facts(*main),
            hk == term_key(*head),
            nil@ == RDF_NIL@,
            term_key(first) == iri_key(RDF_FIRST),
            term_key(rest) == iri_key(RDF_REST),
            term_valid(first),
            term_valid(rest),
            term_valid(current),
            visited@.len() <= MAX_LIST_NODES,
            forall|i: int| 0 <= i < elements@.len() ==> term_valid(#[trigger] elements@[i]),
            forall|tail: Seq<Seq<char>>| #[trigger] list_walk(mf, term_key(current), strings_view(visited@), tail)
                ==> list_walk(mf, hk, Seq::empty(), keys_view(elements@) + tail),
        decreases MAX_LIST_NODES + 1 - visited@.len(),
    {
        let ghost ck = term_key(current);
        let ghost seen = strings_view(visited@);
        let ghost before = keys_view(elements@);
        let key = current.key();
        if key == nil || string_in(&visited, &key) {
            proof {
                assert(list_walk(mf, ck, seen, Seq::empty()));
                assert(before + Seq::<Seq<char>>::empty() =~= before);
            }
            return elements;
        }
        proof {
            lemma_strings_view_push(visited@, key);
        }
        visited.push(key);
        let firsts = graph_match(main, Some(&current), Some(&first), None);
        if firsts.len() == 0 {
            proof {
                if has_first(mf, ck) {
                    let x = choose|x: Seq<char>| #[trigger] mf.contains((ck, iri_key(RDF_FIRST), x));
                    assert(crate::graph::fact_matches((ck, iri_key(RDF_FIRST), x), Some(&current), Some(&first), None));
                }
                assert(list_walk(mf, ck, seen, Seq::empty()));
                assert(before + Seq::<Seq<char>>::empty() =~= before);
            }
            return elements;
        }
        let x = firsts[0].o.duplicate();
        proof {
            assert(mf.contains(triple_key(firsts@[0])));
            assert(crate::graph::triple_valid(firsts@[0]));
            crate::graph::lemma_valid_by_key(x, firsts@[0].o);
            lemma_keys_view_push(elements@, x);
        }
        elements.push(x);
        let rests = graph_match(main, Some(&current), Some(&rest), None);
        if rests.len() == 0 {
            proof {
                if has_rest(mf, ck) {
                    let y = choose|y: Seq<char>| #[trigger] mf.contains((ck, iri_key(RDF_REST), y));
                    assert(crate::graph::fact_matches((ck, iri_key(RDF_REST), y), Some(&current), Some(&rest), None));
                }
                assert(seq![term_key(x)].drop_first() =~= Seq::<Seq<char>>::empty());
                assert(list_walk(mf, ck, seen, seq![term_key(x)]));
                assert(before + seq![term_key(x)] =~= keys_view(elements@));
            }
            return elements;
        }
        let next = rests[0].o.duplicate();
        proof {
            assert(mf.contains(triple_key(rests@[0])));
            assert(crate::graph::triple_valid(rests@[0]));
            crate::graph::lemma_valid_by_key(next, rests@[0].o);
        }
        if visited.len() > MAX_LIST_NODES {
            proof {
                assert(mf.contains((ck, iri_key(RDF_REST), term_key(next))));
                assert(list_walk(mf, ck, seen, seq![term_key(x)]));
                assert(before + seq![term_key(x)] =~= keys_view(elements@));
            }
            return elements;
        }
        proof {
            assert forall|tail: Seq<Seq<char>>| #[trigger] list_walk(mf, term_key(next), strings_view(visited@), tail)
                implies list_walk(mf, hk, Seq::empty(), keys_view(elements@) + tail) by {
                let whole = seq![term_key(x)] + tail;
                assert(whole.drop_first() =~= tail);
                assert(mf.contains((ck, iri_key(RDF_REST), term_key(next))));
                assert(list_walk(mf, ck, seen, whole));
                assert(before + whole =~= keys_view(elements@) + tail);
            }
        }
        current = next;
    }
}

} // verus!
