use vstd::prelude::*;
use crate::rules::lists::{lemma_strings_view_push, string_in, strings_view};
use crate::ui::{ascii_head, chars_of, contains_text, get_label, has_text, label_of, lowercase, to_lowercase, RDFS_CLASS};
use crate::manager::{OWL_DATATYPE_PROPERTY, OWL_OBJECT_PROPERTY};
use crate::graph::{check_iri, fact_matches, graph_facts, graph_match, iri_valid, triple_key, triple_valid, Key3, TermTriple, TripleGraph};
use crate::manager::OWL_CLASS;
use crate::rules::{iri, iri_key, RDFS_SUBCLASS_OF, RDFS_SUBPROPERTY_OF, RDF_TYPE};
use crate::term::term_key;

verus! {

/// The order of texts: character by character, by code point, a proper
/// prefix first. It is the order in which Rust compares strings, since
/// UTF-8 keeps the order of code points.
pub open spec fn text_less(a: Seq<char>, b: Seq<char>) -> bool
    decreases a.len(),
{
    if b.len() == 0 {
        false
    } else if a.len() == 0 {
        true
    } else if a[0] != b[0] {
        (a[0] as u32) < (b[0] as u32)
    } else {
        text_less(a.drop_first(), b.drop_first())
    }
}

/// No text comes before itself.
pub proof fn lemma_text_less_irreflexive(a: Seq<char>)
    ensures
        !text_less(a, a),
    decreases a.len(),
{
    if a.len() > 0 {
        lemma_text_less_irreflexive(a.drop_first());
    }
}

/// The order of texts is transitive.
pub proof fn lemma_text_less_transitive(a: Seq<char>, b: Seq<char>, c: Seq<char>)
    requires
        text_less(a, b),
        text_less(b, c),
    ensures
        text_less(a, c),
    decreases a.len(),
{
    if a.len() > 0 && b.len() > 0 && c.len() > 0 && a[0] == b[0] && b[0] == c[0] {
        lemma_text_less_transitive(a.drop_first(), b.drop_first(), c.drop_first());
    }
}

/// Of two different texts, one comes before the other.
pub proof fn lemma_text_less_total(a: Seq<char>, b: Seq<char>)
    requires
        a != b,
    ensures
        text_less(a, b) || text_less(b, a),
    decreases a.len(),
{
    if a.len() > 0 && b.len() > 0 {
        if a[0] == b[0] {
            if a.drop_first() == b.drop_first() {
                assert(a =~= seq![a[0]] + a.drop_first());
                assert(b =~= seq![b[0]] + b.drop_first());
            }
            lemma_text_less_total(a.drop_first(), b.drop_first());
        } else {
            vstd::utf8::char_u32_cast(a[0], a[0] as u32);
            vstd::utf8::char_u32_cast(b[0], b[0] as u32);
        }
    } else if a.len() == 0 && b.len() == 0 {
        assert(a =~= b);
    }
}

/// Whether every text of the list comes before the ones after it.
pub open spec fn texts_sorted(v: Seq<Seq<char>>) -> bool {
    forall|i: int, j: int| 0 <= i < j < v.len() ==> text_less(#[trigger] v[i], #[trigger] v[j])
}

/// Whether the text `a` comes before the text `b`.
pub fn is_text_less(a: &str, b: &str) -> (r: bool)
    ensures
        r == text_less(a@, b@),
{
    let x = chars_of(a);
    let y = chars_of(b);
    let n = x.len();
    let m = y.len();
    let mut i: usize = 0;
    assert(x@.skip(0) =~= x@);
    assert(y@.skip(0) =~= y@);
    while i < n && i < m && x[i] == y[i]
        invariant
            i <= n,
            i <= m,
            n == x@.len(),
            m == y@.len(),
            text_less(x@, y@) == text_less(x@.skip(i as int), y@.skip(i as int)),
        decreases n - i,
    {
        assert(x@.skip(i as int).drop_first() =~= x@.skip(i + 1));
        assert(y@.skip(i as int).drop_first() =~= y@.skip(i + 1));
        i += 1;
    }
    if i == m {
        false
    } else if i == n {
        true
    } else {
        (x[i] as u32) < (y[i] as u32)
    }
}

/// The texts of `items`, each once, in order.
pub fn sorted_texts(items: &Vec<String>) -> (r: Vec<String>)
    ensures
        texts_sorted(strings_view(r@)),
        forall|t: Seq<char>| #[trigger] strings_view(r@).contains(t) <==> strings_view(items@).contains(t),
{
    let mut out: Vec<String> = Vec::new();
    let n = items.len();
    let mut k: usize = 0;
    while k < n
        invariant
            k <= n,
            n == items@.len(),
            texts_sorted(strings_view(out@)),
            forall|t: Seq<char>| #[trigger] strings_view(out@).contains(t) <==> strings_view(items@).subrange(0, k as int).contains(t),
        decreases n - k,
    {
        let item = &items[k];
        let ghost ov = strings_view(out@);
        let m = out.len();
        let mut p: usize = 0;
        while p < m && is_text_less(out[p].as_str(), item.as_str())
            invariant
                p <= m,
                m == out@.len(),
                ov == strings_view(out@),
                forall|q: int| 0 <= q < p ==> text_less(#[trigger] ov[q], item@),
            decreases m - p,
        {
            p += 1;
        }
        let ghost sub = strings_view(items@).subrange(0, k + 1);
        assert(sub =~= strings_view(items@).subrange(0, k as int).push(item@));
        if p < m && out[p] == *item {
            proof {
                let pre = strings_view(items@).subrange(0, k as int);
                assert forall|t: Seq<char>| #[trigger] strings_view(out@).contains(t) <==> sub.contains(t) by {
                    if t == item@ {
                        assert(ov[p as int] == t);
                        assert(sub[k as int] == t);
                    }
                    if pre.contains(t) {
                        let x = choose|x: int| 0 <= x < pre.len() && pre[x] == t;
                        assert(sub[x] == t);
                    }
                    if sub.contains(t) && t != item@ {
                        let x = choose|x: int| 0 <= x < sub.len() && sub[x] == t;
                        assert(pre[x] == t);
                    }
                }
            }
        } else {
            proof {
                assert forall|q: int| p <= q < m implies text_less(item@, #[trigger] ov[q]) by {
                    assert(!text_less(ov[p as int], item@));
                    assert(ov[p as int] != item@);
                    lemma_text_less_total(ov[p as int], item@);
                    if q > p {
                        lemma_text_less_transitive(item@, ov[p as int], ov[q]);
                    }
                }
            }
            out.insert(p, item.clone());
            proof {
                let nv = strings_view(out@);
                assert(nv =~= ov.insert(p as int, item@));
                assert forall|i: int, j: int| 0 <= i < j < nv.len() implies text_less(#[trigger] nv[i], #[trigger] nv[j]) by {
                    if j < p {
                        assert(nv[i] == ov[i] && nv[j] == ov[j]);
                    } else if j == p {
                        assert(nv[i] == ov[i]);
                    } else if i < p {
                        assert(nv[i] == ov[i] && nv[j] == ov[j - 1]);
                        lemma_text_less_transitive(ov[i], item@, ov[j - 1]);
                    } else if i == p {
                        assert(nv[j] == ov[j - 1]);
                    } else {
                        assert(nv[i] == ov[i - 1] && nv[j] == ov[j - 1]);
                    }
                }
                let pre = strings_view(items@).subrange(0, k as int);
                assert forall|t: Seq<char>| #[trigger] nv.contains(t) <==> sub.contains(t) by {
                    if pre.contains(t) {
                        let x = choose|x: int| 0 <= x < pre.len() && pre[x] == t;
                        assert(sub[x] == t);
                    }
                    if sub.contains(t) && t != item@ {
                        let x = choose|x: int| 0 <= x < sub.len() && sub[x] == t;
                        assert(x < pre.len());
                        assert(pre[x] == t);
                        assert(ov.contains(t));
                    }
                    if nv.contains(t) {
                        let x = choose|x: int| 0 <= x < nv.len() && nv[x] == t;
                        if x < p {
                            assert(ov[x] == t);
                        } else if x > p {
                            assert(ov[x - 1] == t);
                        }
                    }
                    if ov.contains(t) {
                        let x = choose|x: int| 0 <= x < ov.len() && ov[x] == t;
                        if x < p {
                            assert(nv[x] == t);
                        } else {
                            assert(nv[x + 1] == t);
                        }
                    }
                    if t == item@ {
                        assert(nv[p as int] == t);
                        assert(sub[k as int] == t);
                    }
                }
            }
        }
        k += 1;
    }
    assert(strings_view(items@).subrange(0, n as int) =~= strings_view(items@));
    out
}

/// Whether `c` belongs to the class hierarchy: it is an end of a
/// `rdfs:subClassOf` triple or is declared an `owl:Class`.
pub open spec fn in_class_tree(main: Set<Key3>, c: Seq<char>) -> bool {
    ||| exists|t: Key3| #[trigger] main.contains(t) && t.1 == iri_key(RDFS_SUBCLASS_OF) && (t.0 == c || t.2 == c)
    ||| main.contains((c, iri_key(RDF_TYPE), iri_key(OWL_CLASS)))
}

/// Whether `c` is the subject of a `rdfs:subClassOf` triple.
pub open spec fn has_superclass(main: Set<Key3>, c: Seq<char>) -> bool {
    exists|t: Key3| #[trigger] main.contains(t) && t.1 == iri_key(RDFS_SUBCLASS_OF) && t.0 == c
}

/// Whether the IRIs that the class hierarchy is read from are accepted.
pub open spec fn hierarchy_vocab_valid() -> bool {
    iri_valid(RDFS_SUBCLASS_OF@) && iri_valid(RDF_TYPE@) && iri_valid(OWL_CLASS@)
}

/// Whether one of the triples of `ts` has the subject `k`.
pub open spec fn subject_listed(ts: Seq<TermTriple>, k: Seq<char>) -> bool {
    exists|i: int| 0 <= i < ts.len() && #[trigger] term_key(ts[i].s) == k
}

/// Whether one of the triples of `ts` has the subject `k`.
fn lists_subject(ts: &Vec<TermTriple>, k: &String) -> (r: bool)
    ensures
        r == subject_listed(ts@, k@),
{
    let n = ts.len();
    let mut i: usize = 0;
    while i < n
        invariant
            i <= n,
            n == ts@.len(),
            forall|j: int| 0 <= j < i ==> #[trigger] term_key(ts@[j].s) != k@,
        decreases n - i,
    {
        if ts[i].s.key() == *k {
            return true;
        }
        i += 1;
    }
    false
}

/// Appends `k` to `out`.
fn push_text(out: &mut Vec<String>, k: String)
    ensures
        strings_view(final(out)@) == strings_view(old(out)@).push(k@),
{
    proof {
        lemma_strings_view_push(out@, k);
    }
    out.push(k);
}

/// The classes at the top of the class hierarchy of `main`, in order: the
/// classes without a superclass. Nothing where the IRIs the hierarchy is
/// read from are refused.
pub fn class_roots(main: &TripleGraph) -> (r: Option<Vec<String>>)
    ensures
        r is None <==> !hierarchy_vocab_valid(),
        r matches Some(v) ==> texts_sorted(strings_view(v@)),
        r matches Some(v) ==> forall|c: Seq<char>| #[trigger] strings_view(v@).contains(c)
            <==> in_class_tree(graph_facts(*main), c) && !has_superclass(graph_facts(*main), c),
{
    if !(check_iri(RDFS_SUBCLASS_OF) && check_iri(RDF_TYPE) && check_iri(OWL_CLASS)) {
        return None;
    }
    let ghost mf = graph_facts(*main);
    let sco = iri(RDFS_SUBCLASS_OF);
    let ty = iri(RDF_TYPE);
    let cls = iri(OWL_CLASS);
    let links = graph_match(main, None, Some(&sco), None);
    let typed = graph_match(main, None, Some(&ty), Some(&cls));
    proof {
        assert forall|c: Seq<char>| has_superclass(mf, c) <==> #[trigger] subject_listed(links@, c) by {
            if has_superclass(mf, c) {
                let t = choose|t: Key3| #[trigger] mf.contains(t) && t.1 == iri_key(RDFS_SUBCLASS_OF) && t.0 == c;
                assert(fact_matches(t, None, Some(&sco), None));
                let i = choose|i: int| 0 <= i < links@.len() && triple_key(links@[i]) == t;
                assert(term_key(links@[i].s) == c);
            }
            if subject_listed(links@, c) {
                let i = choose|i: int| 0 <= i < links@.len() && #[trigger] term_key(links@[i].s) == c;
                assert(mf.contains(triple_key(links@[i])));
            }
        }
    }
    let mut cands: Vec<String> = Vec::new();
    let n = links.len();
    let mut i: usize = 0;
    while i < n
        invariant
            i <= n,
            n == links@.len(),
            forall|c: Seq<char>| #[trigger] strings_view(cands@).contains(c) <==> !subject_listed(links@, c)
                && exists|j: int| 0 <= j < i && (term_key(links@[j].s) == c || #[trigger] term_key(links@[j].o) == c),
        decreases n - i,
    {
        let sk = links[i].s.key();
        let ok = links[i].o.key();
        let ghost before = strings_view(cands@);
        if !lists_subject(&links, &sk) {
            push_text(&mut cands, sk);
        }
        let ghost mid = strings_view(cands@);
        if !lists_subject(&links, &ok) {
            push_text(&mut cands, ok);
        }
        proof {
            assert forall|c: Seq<char>| #[trigger] strings_view(cands@).contains(c) <==> !subject_listed(links@, c)
                && exists|j: int| 0 <= j < i + 1 && (term_key(links@[j].s) == c || #[trigger] term_key(links@[j].o) == c) by {
                assert(subject_listed(links@, term_key(links@[i as int].s)));
                if strings_view(cands@).contains(c) {
                    if !before.contains(c) {
                        if mid.contains(c) {
                            let x = choose|x: int| 0 <= x < mid.len() && mid[x] == c;
                            assert(x == before.len());
                        } else {
                            let x = choose|x: int| 0 <= x < strings_view(cands@).len() && strings_view(cands@)[x] == c;
                            assert(c == ok@);
                            assert(term_key(links@[i as int].o) == c);
                        }
                    }
                }
                if !subject_listed(links@, c) && exists|j: int| 0 <= j < i + 1 && (term_key(links@[j].s) == c || #[trigger] term_key(links@[j].o) == c) {
                    let j = choose|j: int| 0 <= j < i + 1 && (term_key(links@[j].s) == c || #[trigger] term_key(links@[j].o) == c);
                    if j < i {
                        assert(before.contains(c));
                        let x = choose|x: int| 0 <= x < before.len() && before[x] == c;
                        assert(mid[x] == c);
                        assert(strings_view(cands@)[x] == c);
                    } else {
                        assert(term_key(links@[j].s) != c);
                        assert(c == ok@);
                        assert(strings_view(cands@)[strings_view(cands@).len() - 1] == c);
                    }
                }
            }
        }
        i += 1;
    }
    let m = typed.len();
    let mut j: usize = 0;
    while j < m
        invariant
            j <= m,
            m == typed@.len(),
            n == links@.len(),
            forall|c: Seq<char>| #[trigger] strings_view(cands@).contains(c) <==> !subject_listed(links@, c) && (
                (exists|x: int| 0 <= x < n && (term_key(links@[x].s) == c || #[trigger] term_key(links@[x].o) == c))
                || exists|y: int| 0 <= y < j && #[trigger] term_key(typed@[y].s) == c),
        decreases m - j,
    {
        let sk = typed[j].s.key();
        let ghost before = strings_view(cands@);
        if !lists_subject(&links, &sk) {
            push_text(&mut cands, sk);
        }
        proof {
            assert forall|c: Seq<char>| #[trigger] strings_view(cands@).contains(c) <==> !subject_listed(links@, c) && (
                (exists|x: int| 0 <= x < n && (term_key(links@[x].s) == c || #[trigger] term_key(links@[x].o) == c))
                || exists|y: int| 0 <= y < j + 1 && #[trigger] term_key(typed@[y].s) == c) by {
                if strings_view(cands@).contains(c) && !before.contains(c) {
                    assert(c == sk@);
                    assert(term_key(typed@[j as int].s) == c);
                }
                if !subject_listed(links@, c) && exists|y: int| 0 <= y < j + 1 && #[trigger] term_key(typed@[y].s) == c {
                    let y = choose|y: int| 0 <= y < j + 1 && #[trigger] term_key(typed@[y].s) == c;
                    if y < j {
                        assert(before.contains(c));
                        let x = choose|x: int| 0 <= x < before.len() && before[x] == c;
                        assert(strings_view(cands@)[x] == c);
                    } else {
                        assert(strings_view(cands@)[strings_view(cands@).len() - 1] == c);
                    }
                }
                if before.contains(c) {
                    let x = choose|x: int| 0 <= x < before.len() && before[x] == c;
                    assert(strings_view(cands@)[x] == c);
                }
            }
        }
        j += 1;
    }
    proof {
        assert forall|c: Seq<char>| #[trigger] strings_view(cands@).contains(c)
            <==> in_class_tree(mf, c) && !has_superclass(mf, c) by {
            assert(has_superclass(mf, c) == subject_listed(links@, c));
            if exists|x: int| 0 <= x < n && (term_key(links@[x].s) == c || #[trigger] term_key(links@[x].o) == c) {
                let x = choose|x: int| 0 <= x < n && (term_key(links@[x].s) == c || #[trigger] term_key(links@[x].o) == c);
                assert(mf.contains(triple_key(links@[x])));
            }
            if exists|y: int| 0 <= y < m && #[trigger] term_key(typed@[y].s) == c {
                let y = choose|y: int| 0 <= y < m && #[trigger] term_key(typed@[y].s) == c;
                assert(mf.contains(triple_key(typed@[y])));
            }
            if exists|t: Key3| #[trigger] mf.contains(t) && t.1 == iri_key(RDFS_SUBCLASS_OF) && (t.0 == c || t.2 == c) {
                let t = choose|t: Key3| #[trigger] mf.contains(t) && t.1 == iri_key(RDFS_SUBCLASS_OF) && (t.0 == c || t.2 == c);
                assert(fact_matches(t, None, Some(&sco), None));
                let x = choose|x: int| 0 <= x < links@.len() && triple_key(links@[x]) == t;
                assert(term_key(links@[x].s) == c || term_key(links@[x].o) == c);
            }
            if mf.contains((c, iri_key(RDF_TYPE), iri_key(OWL_CLASS))) {
                assert(fact_matches((c, iri_key(RDF_TYPE), iri_key(OWL_CLASS)), None, Some(&ty), Some(&cls)));
                let y = choose|y: int| 0 <= y < typed@.len() && triple_key(typed@[y]) == (c, iri_key(RDF_TYPE), iri_key(OWL_CLASS));
                assert(term_key(typed@[y].s) == c);
            }
        }
    }
    Some(sorted_texts(&cands))
}

/// The direct subclasses of `c` in `main`, in order: the subjects of the
/// `rdfs:subClassOf` triples whose object is `c`. Nothing where the IRI of
/// `rdfs:subClassOf` is refused.
pub fn subclasses(main: &TripleGraph, c: &str) -> (r: Option<Vec<String>>)
    ensures
        r is None <==> !iri_valid(RDFS_SUBCLASS_OF@),
        r matches Some(v) ==> texts_sorted(strings_view(v@)),
        r matches Some(v) ==> forall|x: Seq<char>| #[trigger] strings_view(v@).contains(x)
            <==> graph_facts(*main).contains((x, iri_key(RDFS_SUBCLASS_OF), c@)),
{
    if !check_iri(RDFS_SUBCLASS_OF) {
        return None;
    }
    let ghost mf = graph_facts(*main);
    let sco = iri(RDFS_SUBCLASS_OF);
    let links = graph_match(main, None, Some(&sco), None);
    let ck = c.to_owned();
    let mut kids: Vec<String> = Vec::new();
    let n = links.len();
    let mut i: usize = 0;
    while i < n
        invariant
            i <= n,
            n == links@.len(),
            ck@ == c@,
            forall|x: Seq<char>| #[trigger] strings_view(kids@).contains(x) <==> exists|j: int| 0 <= j < i
                && #[trigger] triple_key(links@[j]) == (x, iri_key(RDFS_SUBCLASS_OF), c@),
            forall|j: int| 0 <= j < n ==> mf.contains(#[trigger] triple_key(links@[j]))
                && triple_key(links@[j]).1 == iri_key(RDFS_SUBCLASS_OF),
        decreases n - i,
    {
        let ghost before = strings_view(kids@);
        if links[i].o.key() == ck {
            let sk = links[i].s.key();
            push_text(&mut kids, sk);
        }
        proof {
            assert forall|x: Seq<char>| #[trigger] strings_view(kids@).contains(x) <==> exists|j: int| 0 <= j < i + 1
                && #[trigger] triple_key(links@[j]) == (x, iri_key(RDFS_SUBCLASS_OF), c@) by {
                if before.contains(x) {
                    let y = choose|y: int| 0 <= y < before.len() && before[y] == x;
                    assert(strings_view(kids@)[y] == x);
                }
                if strings_view(kids@).contains(x) && !before.contains(x) {
                    assert(triple_key(links@[i as int]) == (x, iri_key(RDFS_SUBCLASS_OF), c@));
                }
                if exists|j: int| 0 <= j < i + 1 && #[trigger] triple_key(links@[j]) == (x, iri_key(RDFS_SUBCLASS_OF), c@) {
                    let j = choose|j: int| 0 <= j < i + 1 && #[trigger] triple_key(links@[j]) == (x, iri_key(RDFS_SUBCLASS_OF), c@);
                    if j == i {
                        assert(strings_view(kids@)[strings_view(kids@).len() - 1] == x);
                    }
                }
            }
        }
        i += 1;
    }
    proof {
        assert forall|x: Seq<char>| #[trigger] strings_view(kids@).contains(x)
            <==> mf.contains((x, iri_key(RDFS_SUBCLASS_OF), c@)) by {
            if mf.contains((x, iri_key(RDFS_SUBCLASS_OF), c@)) {
                assert(fact_matches((x, iri_key(RDFS_SUBCLASS_OF), c@), None, Some(&sco), None));
                let j = choose|j: int| 0 <= j < links@.len() && triple_key(links@[j]) == (x, iri_key(RDFS_SUBCLASS_OF), c@);
            }
        }
    }
    Some(sorted_texts(&kids))
}

/// Whether the search text `query`, given in lower case, occurs in the key
/// `uri` or in its label, both put in lower case.
pub open spec fn query_matches(uri: Seq<char>, query: Seq<char>) -> bool {
    contains_text(lowercase(uri), query) || contains_text(lowercase(label_of(uri)), query)
}

/// Whether the search text `query`, given in lower case, occurs in the key
/// `uri` or in its label, both put in lower case.
pub fn matches_query(uri: &str, query: &str) -> (r: bool)
    requires
        ascii_head(uri@),
    ensures
        r == query_matches(uri@, query@),
{
    let lu = to_lowercase(uri);
    let cu = chars_of(lu.as_str());
    if has_text(&cu, query) {
        return true;
    }
    let label = get_label(uri);
    let ll = to_lowercase(label.as_str());
    let cl = chars_of(ll.as_str());
    has_text(&cl, query)
}

/// The keys of `items` that the search keeps, in their order: all of them
/// for an empty search, else those that match it.
pub fn filter_matching(items: &Vec<String>, query: &str) -> (r: Vec<String>)
    requires
        forall|i: int| 0 <= i < items@.len() ==> ascii_head(#[trigger] items@[i]@),
    ensures
        strings_view(r@) == strings_view(items@).filter(|k: Seq<char>| query@.len() == 0 || query_matches(k, query@)),
{
    let ghost keep = |k: Seq<char>| query@.len() == 0 || query_matches(k, query@);
    let ghost iv = strings_view(items@);
    let mut out: Vec<String> = Vec::new();
    let empty = query.unicode_len() == 0;
    let n = items.len();
    let mut i: usize = 0;
    proof {
        reveal_with_fuel(Seq::filter, 1);
        assert(iv.take(0) =~= Seq::<Seq<char>>::empty());
        assert(strings_view(out@) =~= iv.take(0).filter(keep));
    }
    while i < n
        invariant
            i <= n,
            n == items@.len(),
            iv == strings_view(items@),
            empty == (query@.len() == 0),
            keep == (|k: Seq<char>| query@.len() == 0 || query_matches(k, query@)),
            forall|j: int| 0 <= j < items@.len() ==> ascii_head(#[trigger] items@[j]@),
            strings_view(out@) == iv.take(i as int).filter(keep),
        decreases n - i,
    {
        let ghost before = out@;
        assert(iv.take(i + 1).drop_last() =~= iv.take(i as int));
        assert(iv.take(i + 1).last() == items@[i as int]@);
        proof {
            reveal_with_fuel(Seq::filter, 1);
        }
        if empty || matches_query(items[i].as_str(), query) {
            let item = items[i].clone();
            push_text(&mut out, item);
        }
        i += 1;
    }
    assert(iv.take(n as int) =~= iv);
    out
}

/// The IRI of the class of RDF properties.
pub const RDF_PROPERTY: &'static str = "http://www.w3.org/1999/02/22-rdf-syntax-ns#Property";

/// The IRI of the class of ontologies.
pub const OWL_ONTOLOGY: &'static str = "http://www.w3.org/2002/07/owl#Ontology";

/// Whether the type `o` makes its members part of the schema rather than
/// individuals.
pub open spec fn meta_class(o: Seq<char>) -> bool {
    ||| o == iri_key(OWL_CLASS)
    ||| o == iri_key(RDFS_CLASS)
    ||| o == iri_key(OWL_OBJECT_PROPERTY)
    ||| o == iri_key(OWL_DATATYPE_PROPERTY)
    ||| o == iri_key(RDF_PROPERTY)
    ||| o == iri_key(OWL_ONTOLOGY)
}

/// Whether `s` has a type that makes it part of the schema.
pub open spec fn meta_typed(main: Set<Key3>, s: Seq<char>) -> bool {
    exists|o: Seq<char>| #[trigger] main.contains((s, iri_key(RDF_TYPE), o)) && meta_class(o)
}

/// Whether `s` is listed as an individual of the type `c`: it has that
/// type, the type is no schema type, and `s` has no schema type.
pub open spec fn individual_of(main: Set<Key3>, s: Seq<char>, c: Seq<char>) -> bool {
    main.contains((s, iri_key(RDF_TYPE), c)) && !meta_class(c) && !meta_typed(main, s)
}

/// A type with its individuals.
pub struct TypeGroup {
    pub type_uri: String,
    pub members: Vec<String>,
}

/// The types of a list of groups.
pub open spec fn group_types(g: Seq<TypeGroup>) -> Seq<Seq<char>> {
    g.map_values(|t: TypeGroup| t.type_uri@)
}

/// Whether the type of `t` makes its members part of the schema.
fn is_meta_term(t: &crate::term::RdfTerm) -> (r: bool)
    ensures
        r == meta_class(term_key(*t)),
{
    t.same(&iri(OWL_CLASS)) || t.same(&iri(RDFS_CLASS)) || t.same(&iri(OWL_OBJECT_PROPERTY))
        || t.same(&iri(OWL_DATATYPE_PROPERTY)) || t.same(&iri(RDF_PROPERTY)) || t.same(&iri(OWL_ONTOLOGY))
}

/// Whether a triple of `ts` gives the subject `k` a schema type.
pub open spec fn meta_listed(ts: Seq<TermTriple>, k: Seq<char>) -> bool {
    exists|i: int| 0 <= i < ts.len() && #[trigger] term_key(ts[i].s) == k && meta_class(term_key(ts[i].o))
}

/// Whether a triple of `ts` gives the subject `k` a schema type.
fn lists_meta(ts: &Vec<TermTriple>, k: &String) -> (r: bool)
    ensures
        r == meta_listed(ts@, k@),
{
    let n = ts.len();
    let mut i: usize = 0;
    while i < n
        invariant
            i <= n,
            n == ts@.len(),
            forall|j: int| 0 <= j < i ==> !(#[trigger] term_key(ts@[j].s) == k@ && meta_class(term_key(ts@[j].o))),
        decreases n - i,
    {
        if ts[i].s.key() == *k && is_meta_term(&ts[i].o) {
            return true;
        }
        i += 1;
    }
    false
}

/// The subjects of the triples of `ts` with the object `c` that have no
/// schema type.
fn members_of(ts: &Vec<TermTriple>, c: &String) -> (r: Vec<String>)
    ensures
        forall|x: Seq<char>| #[trigger] strings_view(r@).contains(x) <==> exists|j: int| 0 <= j < ts@.len()
            && #[trigger] term_key(ts@[j].s) == x && term_key(ts@[j].o) == c@ && !meta_listed(ts@, x),
{
    let mut out: Vec<String> = Vec::new();
    let n = ts.len();
    let mut i: usize = 0;
    while i < n
        invariant
            i <= n,
            n == ts@.len(),
            forall|x: Seq<char>| #[trigger] strings_view(out@).contains(x) <==> exists|j: int| 0 <= j < i
                && #[trigger] term_key(ts@[j].s) == x && term_key(ts@[j].o) == c@ && !meta_listed(ts@, x),
        decreases n - i,
    {
        let ghost before = strings_view(out@);
        let sk = ts[i].s.key();
        if ts[i].o.key() == *c && !lists_meta(ts, &sk) {
            push_text(&mut out, sk);
        }
        proof {
            assert forall|x: Seq<char>| #[trigger] strings_view(out@).contains(x) <==> exists|j: int| 0 <= j < i + 1
                && #[trigger] term_key(ts@[j].s) == x && term_key(ts@[j].o) == c@ && !meta_listed(ts@, x) by {
                if before.contains(x) {
                    let y = choose|y: int| 0 <= y < before.len() && before[y] == x;
                    assert(strings_view(out@)[y] == x);
                }
                if strings_view(out@).contains(x) && !before.contains(x) {
                    assert(term_key(ts@[i as int].s) == x);
                }
                if exists|j: int| 0 <= j < i + 1 && #[trigger] term_key(ts@[j].s) == x && term_key(ts@[j].o) == c@ && !meta_listed(ts@, x) {
                    let j = choose|j: int| 0 <= j < i + 1 && #[trigger] term_key(ts@[j].s) == x && term_key(ts@[j].o) == c@ && !meta_listed(ts@, x);
                    if j == i {
                        assert(strings_view(out@)[strings_view(out@).len() - 1] == x);
                    }
                }
            }
        }
        i += 1;
    }
    out
}

/// The individuals of `main` grouped by type: the types in order, each with
/// its individuals in order. Nothing where the IRI of `rdf:type` is refused.
pub fn individuals_by_type(main: &TripleGraph) -> (r: Option<Vec<TypeGroup>>)
    ensures
        r is None <==> !iri_valid(RDF_TYPE@),
        r matches Some(g) ==> texts_sorted(group_types(g@)),
        r matches Some(g) ==> forall|c: Seq<char>| #[trigger] group_types(g@).contains(c)
            <==> exists|s: Seq<char>| individual_of(graph_facts(*main), s, c),
        r matches Some(g) ==> forall|i: int| 0 <= i < g@.len() ==> texts_sorted(strings_view(#[trigger] g@[i].members@)),
        r matches Some(g) ==> forall|i: int, s: Seq<char>| 0 <= i < g@.len() ==> (#[trigger] strings_view(g@[i].members@).contains(s)
            <==> individual_of(graph_facts(*main), s, g@[i].type_uri@)),
        r matches Some(g) ==> forall|i: int| 0 <= i < g@.len() ==> {
            &&& (#[trigger] g@[i]).type_uri@ != iri_key(OWL_CLASS)
            &&& g@[i].type_uri@ != iri_key(RDFS_CLASS)
            &&& g@[i].type_uri@ != iri_key(OWL_OBJECT_PROPERTY)
            &&& g@[i].type_uri@ != iri_key(OWL_DATATYPE_PROPERTY)
            &&& g@[i].type_uri@ != iri_key(RDF_PROPERTY)
            &&& g@[i].type_uri@ != iri_key(OWL_ONTOLOGY)
        },
        r matches Some(g) ==> forall|i: int, s: Seq<char>| 0 <= i < g@.len() && #[trigger] strings_view(g@[i].members@).contains(s) ==> {
            &&& !graph_facts(*main).contains((s, iri_key(RDF_TYPE), iri_key(OWL_CLASS)))
            &&& !graph_facts(*main).contains((s, iri_key(RDF_TYPE), iri_key(RDFS_CLASS)))
            &&& !graph_facts(*main).contains((s, iri_key(RDF_TYPE), iri_key(OWL_OBJECT_PROPERTY)))
            &&& !graph_facts(*main).contains((s, iri_key(RDF_TYPE), iri_key(OWL_DATATYPE_PROPERTY)))
            &&& !graph_facts(*main).contains((s, iri_key(RDF_TYPE), iri_key(RDF_PROPERTY)))
            &&& !graph_facts(*main).contains((s, iri_key(RDF_TYPE), iri_key(OWL_ONTOLOGY)))
        },
{
    if !check_iri(RDF_TYPE) {
        return None;
    }
    let ghost mf = graph_facts(*main);
    let ty = iri(RDF_TYPE);
    let typed = graph_match(main, None, Some(&ty), None);
    proof {
        assert forall|s: Seq<char>| meta_typed(mf, s) <==> #[trigger] meta_listed(typed@, s) by {
            if meta_typed(mf, s) {
                let o = choose|o: Seq<char>| #[trigger] mf.contains((s, iri_key(RDF_TYPE), o)) && meta_class(o);
                assert(fact_matches((s, iri_key(RDF_TYPE), o), None, Some(&ty), None));
                let i = choose|i: int| 0 <= i < typed@.len() && triple_key(typed@[i]) == (s, iri_key(RDF_TYPE), o);
                assert(term_key(typed@[i].s) == s);
            }
            if meta_listed(typed@, s) {
                let i = choose|i: int| 0 <= i < typed@.len() && #[trigger] term_key(typed@[i].s) == s && meta_class(term_key(typed@[i].o));
                assert(mf.contains(triple_key(typed@[i])));
            }
        }
        assert forall|s: Seq<char>, c: Seq<char>| #[trigger] individual_of(mf, s, c) <==> exists|j: int| 0 <= j < typed@.len()
            && #[trigger] term_key(typed@[j].s) == s && term_key(typed@[j].o) == c && !meta_class(c) && !meta_listed(typed@, s) by {
            if individual_of(mf, s, c) {
                assert(fact_matches((s, iri_key(RDF_TYPE), c), None, Some(&ty), None));
                let j = choose|j: int| 0 <= j < typed@.len() && triple_key(typed@[j]) == (s, iri_key(RDF_TYPE), c);
                assert(term_key(typed@[j].s) == s);
            }
            if exists|j: int| 0 <= j < typed@.len() && #[trigger] term_key(typed@[j].s) == s && term_key(typed@[j].o) == c
                && !meta_class(c) && !meta_listed(typed@, s) {
                let j = choose|j: int| 0 <= j < typed@.len() && #[trigger] term_key(typed@[j].s) == s && term_key(typed@[j].o) == c
                    && !meta_class(c) && !meta_listed(typed@, s);
                assert(mf.contains(triple_key(typed@[j])));
            }
        }
    }
    let mut types: Vec<String> = Vec::new();
    let n = typed.len();
    let mut i: usize = 0;
    while i < n
        invariant
            i <= n,
            n == typed@.len(),
            forall|c: Seq<char>| #[trigger] strings_view(types@).contains(c) <==> exists|j: int| 0 <= j < i
                && term_key(typed@[j].o) == c && !meta_class(#[trigger] term_key(typed@[j].o)) && !meta_listed(typed@, term_key(typed@[j].s)),
        decreases n - i,
    {
        let ghost before = strings_view(types@);
        let sk = typed[i].s.key();
        if !is_meta_term(&typed[i].o) && !lists_meta(&typed, &sk) {
            let ok = typed[i].o.key();
            push_text(&mut types, ok);
        }
        proof {
            assert forall|c: Seq<char>| #[trigger] strings_view(types@).contains(c) <==> exists|j: int| 0 <= j < i + 1
                && term_key(typed@[j].o) == c && !meta_class(#[trigger] term_key(typed@[j].o)) && !meta_listed(typed@, term_key(typed@[j].s)) by {
                if before.contains(c) {
                    let y = choose|y: int| 0 <= y < before.len() && before[y] == c;
                    assert(strings_view(types@)[y] == c);
                }
                if strings_view(types@).contains(c) && !before.contains(c) {
                    assert(term_key(typed@[i as int].o) == c);
                }
                if exists|j: int| 0 <= j < i + 1 && term_key(typed@[j].o) == c && !meta_class(#[trigger] term_key(typed@[j].o))
                    && !meta_listed(typed@, term_key(typed@[j].s)) {
                    let j = choose|j: int| 0 <= j < i + 1 && term_key(typed@[j].o) == c && !meta_class(#[trigger] term_key(typed@[j].o))
                        && !meta_listed(typed@, term_key(typed@[j].s));
                    if j == i {
                        assert(strings_view(types@)[strings_view(types@).len() - 1] == c);
                    }
                }
            }
        }
        i += 1;
    }
    let sorted = sorted_texts(&types);
    proof {
        assert forall|x: int| 0 <= x < sorted@.len() implies !meta_class(#[trigger] sorted@[x]@) by {
            assert(strings_view(sorted@)[x] == sorted@[x]@);
            assert(strings_view(sorted@).contains(sorted@[x]@));
            let j = choose|j: int| 0 <= j < n && term_key(typed@[j].o) == sorted@[x]@ && !meta_class(#[trigger] term_key(typed@[j].o))
                && !meta_listed(typed@, term_key(typed@[j].s));
        }
    }
    let mut groups: Vec<TypeGroup> = Vec::new();
    let m = sorted.len();
    let mut k: usize = 0;
    while k < m
        invariant
            k <= m,
            m == sorted@.len(),
            groups@.len() == k,
            forall|x: int| 0 <= x < k ==> #[trigger] groups@[x].type_uri@ == sorted@[x]@,
            forall|x: int| 0 <= x < k ==> texts_sorted(strings_view(#[trigger] groups@[x].members@)),
            forall|x: int, s: Seq<char>| 0 <= x < k ==> (#[trigger] strings_view(groups@[x].members@).contains(s)
                <==> individual_of(mf, s, groups@[x].type_uri@)),
            forall|x: int| 0 <= x < m ==> !meta_class(#[trigger] sorted@[x]@),
            forall|s: Seq<char>, c: Seq<char>| #[trigger] individual_of(mf, s, c) <==> exists|j: int| 0 <= j < typed@.len()
                && #[trigger] term_key(typed@[j].s) == s && term_key(typed@[j].o) == c && !meta_class(c) && !meta_listed(typed@, s),
        decreases m - k,
    {
        let c = sorted[k].clone();
        let found = members_of(&typed, &c);
        let members = sorted_texts(&found);
        proof {
            assert forall|s: Seq<char>| #[trigger] strings_view(members@).contains(s) <==> individual_of(mf, s, c@) by {
                assert(strings_view(found@).contains(s) == strings_view(members@).contains(s));
            }
        }
        groups.push(TypeGroup { type_uri: c, members });
        k += 1;
    }
    proof {
        let tv = group_types(groups@);
        assert(tv =~= strings_view(sorted@));
        assert forall|c: Seq<char>| #[trigger] tv.contains(c) <==> exists|s: Seq<char>| individual_of(mf, s, c) by {
            assert(tv.contains(c) == strings_view(types@).contains(c));
            if strings_view(types@).contains(c) {
                let j = choose|j: int| 0 <= j < n && term_key(typed@[j].o) == c && !meta_class(#[trigger] term_key(typed@[j].o))
                    && !meta_listed(typed@, term_key(typed@[j].s));
                assert(individual_of(mf, term_key(typed@[j].s), c));
            }
            if exists|s: Seq<char>| individual_of(mf, s, c) {
                let s = choose|s: Seq<char>| individual_of(mf, s, c);
                let j = choose|j: int| 0 <= j < typed@.len() && #[trigger] term_key(typed@[j].s) == s && term_key(typed@[j].o) == c
                    && !meta_class(c) && !meta_listed(typed@, s);
                assert(!meta_class(term_key(typed@[j].o)));
            }
        }
        law_schema_not_individuals(mf, groups@);
    }
    Some(groups)
}

/// What building a property tree has found: the properties, those with a
/// parent, and the links (child, parent) kept, in order.
pub struct PropTreeV {
    pub props: Set<Seq<char>>,
    pub has_parent: Set<Seq<char>>,
    pub links: Seq<(Seq<char>, Seq<char>)>,
}

/// The property tree grown from the properties `start` by the links
/// (child, parent) in their order: a link is kept when one of its ends is
/// already a property of the tree, and then both ends become properties and
/// the child has a parent.
pub open spec fn grow_tree(start: Set<Seq<char>>, links: Seq<(Seq<char>, Seq<char>)>) -> PropTreeV
    decreases links.len(),
{
    if links.len() == 0 {
        PropTreeV { props: start, has_parent: Set::empty(), links: Seq::empty() }
    } else {
        let prev = grow_tree(start, links.drop_last());
        let (c, p) = links.last();
        if prev.props.contains(c) || prev.props.contains(p) {
            PropTreeV { props: prev.props.insert(c).insert(p), has_parent: prev.has_parent.insert(c), links: prev.links.push((c, p)) }
        } else {
            prev
        }
    }
}

/// The pairs of texts of a list of pairs of strings.
pub open spec fn pairs_view(v: Seq<(String, String)>) -> Seq<(Seq<char>, Seq<char>)> {
    v.map_values(|p: (String, String)| (p.0@, p.1@))
}

/// A property hierarchy: its roots in order, and its links (child, parent).
pub struct PropertyTree {
    pub roots: Vec<String>,
    pub links: Vec<(String, String)>,
}

/// Builds the property tree grown from the properties `typed` by the links
/// (child, parent) in their order; its roots are the properties without a
/// parent.
pub fn property_tree(typed: &Vec<String>, links: &Vec<(String, String)>) -> (r: PropertyTree)
    ensures
        pairs_view(r.links@) == grow_tree(strings_view(typed@).to_set(), pairs_view(links@)).links,
        texts_sorted(strings_view(r.roots@)),
        forall|x: Seq<char>| #[trigger] strings_view(r.roots@).contains(x)
            <==> grow_tree(strings_view(typed@).to_set(), pairs_view(links@)).props.contains(x)
                && !grow_tree(strings_view(typed@).to_set(), pairs_view(links@)).has_parent.contains(x),
{
    let ghost start = strings_view(typed@).to_set();
    let ghost lv = pairs_view(links@);
    let mut props: Vec<String> = typed.clone();
    let mut parented: Vec<String> = Vec::new();
    let mut kept: Vec<(String, String)> = Vec::new();
    let n = links.len();
    let mut i: usize = 0;
    proof {
        assert(lv.take(0) =~= Seq::<(Seq<char>, Seq<char>)>::empty());
        assert(pairs_view(kept@) =~= Seq::<(Seq<char>, Seq<char>)>::empty());
    }
    while i < n
        invariant
            i <= n,
            n == links@.len(),
            lv == pairs_view(links@),
            start == strings_view(typed@).to_set(),
            forall|x: Seq<char>| #[trigger] strings_view(props@).contains(x) <==> grow_tree(start, lv.take(i as int)).props.contains(x),
            forall|x: Seq<char>| #[trigger] strings_view(parented@).contains(x) <==> grow_tree(start, lv.take(i as int)).has_parent.contains(x),
            pairs_view(kept@) == grow_tree(start, lv.take(i as int)).links,
        decreases n - i,
    {
        let ghost prev = grow_tree(start, lv.take(i as int));
        assert(lv.take(i + 1).drop_last() =~= lv.take(i as int));
        assert(lv.take(i + 1).last() == (links@[i as int].0@, links@[i as int].1@));
        let c = &links[i].0;
        let p = &links[i].1;
        if string_in(&props, c) || string_in(&props, p) {
            let ghost pv = strings_view(props@);
            let ghost hv = strings_view(parented@);
            let ghost kv = kept@;
            push_text(&mut props, c.clone());
            push_text(&mut props, p.clone());
            push_text(&mut parented, c.clone());
            kept.push((c.clone(), p.clone()));
            proof {
                assert(pairs_view(kept@) =~= pairs_view(kv).push((c@, p@)));
                assert forall|x: Seq<char>| #[trigger] strings_view(props@).contains(x) <==> pv.contains(x) || x == c@ || x == p@ by {
                    if pv.contains(x) {
                        let y = choose|y: int| 0 <= y < pv.len() && pv[y] == x;
                        assert(strings_view(props@)[y] == x);
                    }
                    if x == c@ {
                        assert(strings_view(props@)[pv.len() as int] == x);
                    }
                    if x == p@ {
                        assert(strings_view(props@)[pv.len() as int + 1] == x);
                    }
                    if strings_view(props@).contains(x) {
                        let y = choose|y: int| 0 <= y < strings_view(props@).len() && strings_view(props@)[y] == x;
                        if y < pv.len() {
                            assert(pv[y] == x);
                        }
                    }
                }
                assert forall|x: Seq<char>| #[trigger] strings_view(parented@).contains(x) <==> hv.contains(x) || x == c@ by {
                    if hv.contains(x) {
                        let y = choose|y: int| 0 <= y < hv.len() && hv[y] == x;
                        assert(strings_view(parented@)[y] == x);
                    }
                    if x == c@ {
                        assert(strings_view(parented@)[hv.len() as int] == x);
                    }
                    if strings_view(parented@).contains(x) {
                        let y = choose|y: int| 0 <= y < strings_view(parented@).len() && strings_view(parented@)[y] == x;
                        if y < hv.len() {
                            assert(hv[y] == x);
                        }
                    }
                }
            }
        }
        i += 1;
    }
    assert(lv.take(n as int) =~= lv);
    let mut cands: Vec<String> = Vec::new();
    let m = props.len();
    let mut j: usize = 0;
    while j < m
        invariant
            j <= m,
            m == props@.len(),
            forall|x: Seq<char>| #[trigger] strings_view(cands@).contains(x) <==> strings_view(props@).subrange(0, j as int).contains(x)
                && !strings_view(parented@).contains(x),
        decreases m - j,
    {
        let ghost before = strings_view(cands@);
        let ghost sub = strings_view(props@).subrange(0, j + 1);
        assert(sub =~= strings_view(props@).subrange(0, j as int).push(props@[j as int]@));
        if !string_in(&parented, &props[j]) {
            push_text(&mut cands, props[j].clone());
        }
        proof {
            assert forall|x: Seq<char>| #[trigger] strings_view(cands@).contains(x) <==> sub.contains(x)
                && !strings_view(parented@).contains(x) by {
                let pre = strings_view(props@).subrange(0, j as int);
                if before.contains(x) {
                    let y = choose|y: int| 0 <= y < before.len() && before[y] == x;
                    assert(strings_view(cands@)[y] == x);
                }
                if pre.contains(x) {
                    let y = choose|y: int| 0 <= y < pre.len() && pre[y] == x;
                    assert(sub[y] == x);
                }
                if sub.contains(x) && x != props@[j as int]@ {
                    let y = choose|y: int| 0 <= y < sub.len() && sub[y] == x;
                    assert(pre[y] == x);
                }
                if x == props@[j as int]@ && !strings_view(parented@).contains(x) {
                    assert(strings_view(cands@)[strings_view(cands@).len() - 1] == x);
                }
                if x == props@[j as int]@ {
                    assert(sub[j as int] == x);
                }
            }
        }
        j += 1;
    }
    assert(strings_view(props@).subrange(0, m as int) =~= strings_view(props@));
    PropertyTree { roots: sorted_texts(&cands), links: kept }
}

/// The properties declared with the type `target` in `main`.
pub open spec fn declared_as(main: Set<Key3>, target: Seq<char>) -> Set<Seq<char>> {
    Set::new(|x: Seq<char>| main.contains((x, iri_key(RDF_TYPE), target)))
}

/// Whether `ls` lists each pair (child, parent) of a `rdfs:subPropertyOf`
/// triple of `main` once.
pub open spec fn lists_subproperty_links(main: Set<Key3>, ls: Seq<(Seq<char>, Seq<char>)>) -> bool {
    &&& ls.no_duplicates()
    &&& forall|l: (Seq<char>, Seq<char>)| #[trigger] ls.contains(l) <==> main.contains((l.0, iri_key(RDFS_SUBPROPERTY_OF), l.1))
}

/// The IRI of the type of the properties of a hierarchy: object properties
/// or data properties.
pub open spec fn property_kind(object: bool) -> Seq<char> {
    if object {
        OWL_OBJECT_PROPERTY@
    } else {
        OWL_DATATYPE_PROPERTY@
    }
}

/// The hierarchy of the object properties (or of the data properties) of
/// `main`: the tree grown from the declared properties by the
/// `rdfs:subPropertyOf` links of `main`, taken in the order the graph lists
/// them. Nothing where the IRIs it is read from are refused.
pub fn property_hierarchy(main: &TripleGraph, object: bool) -> (r: Option<PropertyTree>)
    ensures
        r is None <==> !(iri_valid(RDF_TYPE@) && iri_valid(RDFS_SUBPROPERTY_OF@) && iri_valid(property_kind(object))),
        r matches Some(t) ==> exists|ls: Seq<(Seq<char>, Seq<char>)>| {
            let g = grow_tree(declared_as(graph_facts(*main), crate::term::iri_tag() + property_kind(object)), ls);
            &&& #[trigger] lists_subproperty_links(graph_facts(*main), ls)
            &&& pairs_view(t.links@) == g.links
            &&& texts_sorted(strings_view(t.roots@))
            &&& forall|x: Seq<char>| #[trigger] strings_view(t.roots@).contains(x) <==> g.props.contains(x) && !g.has_parent.contains(x)
        },
{
    let kind = if object { OWL_OBJECT_PROPERTY } else { OWL_DATATYPE_PROPERTY };
    if !(check_iri(RDF_TYPE) && check_iri(RDFS_SUBPROPERTY_OF) && check_iri(kind)) {
        return None;
    }
    let ghost mf = graph_facts(*main);
    let ghost target = crate::term::iri_tag() + property_kind(object);
    let ty = iri(RDF_TYPE);
    let spo = iri(RDFS_SUBPROPERTY_OF);
    let kt = iri(kind);
    let decl = graph_match(main, None, Some(&ty), Some(&kt));
    let links = graph_match(main, None, Some(&spo), None);
    let mut typed: Vec<String> = Vec::new();
    let n = decl.len();
    let mut i: usize = 0;
    while i < n
        invariant
            i <= n,
            n == decl@.len(),
            forall|j: int| 0 <= j < i ==> #[trigger] strings_view(typed@)[j] == term_key(decl@[j].s),
            strings_view(typed@).len() == i,
        decreases n - i,
    {
        let sk = decl[i].s.key();
        push_text(&mut typed, sk);
        i += 1;
    }
    let mut pairs: Vec<(String, String)> = Vec::new();
    let m = links.len();
    let mut j: usize = 0;
    while j < m
        invariant
            j <= m,
            m == links@.len(),
            pairs@.len() == j,
            forall|x: int| 0 <= x < j ==> #[trigger] pairs_view(pairs@)[x] == (term_key(links@[x].s), term_key(links@[x].o)),
        decreases m - j,
    {
        let ck = links[j].s.key();
        let pk = links[j].o.key();
        let ghost before = pairs@;
        pairs.push((ck, pk));
        proof {
            assert forall|x: int| 0 <= x < j + 1 implies #[trigger] pairs_view(pairs@)[x] == (term_key(links@[x].s), term_key(links@[x].o)) by {
                assert(pairs_view(pairs@)[x] == (pairs@[x].0@, pairs@[x].1@));
                if x < j {
                    assert(pairs@[x] == before[x]);
                    assert(pairs_view(before)[x] == (before[x].0@, before[x].1@));
                }
            }
        }
        j += 1;
    }
    let tree = property_tree(&typed, &pairs);
    proof {
        let ls = pairs_view(pairs@);
        assert(strings_view(typed@).to_set() =~= declared_as(mf, target)) by {
            assert forall|x: Seq<char>| strings_view(typed@).to_set().contains(x) <==> #[trigger] declared_as(mf, target).contains(x) by {
                if strings_view(typed@).contains(x) {
                    let y = choose|y: int| 0 <= y < strings_view(typed@).len() && strings_view(typed@)[y] == x;
                    assert(mf.contains(triple_key(decl@[y])));
                }
                if mf.contains((x, iri_key(RDF_TYPE), target)) {
                    assert(fact_matches((x, iri_key(RDF_TYPE), target), None, Some(&ty), Some(&kt)));
                    let y = choose|y: int| 0 <= y < decl@.len() && triple_key(decl@[y]) == (x, iri_key(RDF_TYPE), target);
                    assert(strings_view(typed@)[y] == x);
                }
            }
        }
        assert forall|l: (Seq<char>, Seq<char>)| #[trigger] ls.contains(l) <==> mf.contains((l.0, iri_key(RDFS_SUBPROPERTY_OF), l.1)) by {
            if ls.contains(l) {
                let x = choose|x: int| 0 <= x < ls.len() && ls[x] == l;
                assert(mf.contains(triple_key(links@[x])));
            }
            if mf.contains((l.0, iri_key(RDFS_SUBPROPERTY_OF), l.1)) {
                assert(fact_matches((l.0, iri_key(RDFS_SUBPROPERTY_OF), l.1), None, Some(&spo), None));
                let x = choose|x: int| 0 <= x < links@.len() && triple_key(links@[x]) == (l.0, iri_key(RDFS_SUBPROPERTY_OF), l.1);
                assert(ls[x] == l);
            }
        }
        assert forall|a: int, b: int| 0 <= a < ls.len() && 0 <= b < ls.len() && a != b implies ls[a] != ls[b] by {
            let keys = links@.map_values(|t: TermTriple| triple_key(t));
            assert(keys[a] == triple_key(links@[a]));
            assert(keys[b] == triple_key(links@[b]));
            assert(mf.contains(triple_key(links@[a])));
            assert(mf.contains(triple_key(links@[b])));
        }
        assert(lists_subproperty_links(mf, ls));
    }
    Some(tree)
}

/// The children of `parent` in a property tree, in order.
pub fn tree_children(tree: &PropertyTree, parent: &str) -> (r: Vec<String>)
    ensures
        texts_sorted(strings_view(r@)),
        forall|x: Seq<char>| #[trigger] strings_view(r@).contains(x) <==> pairs_view(tree.links@).contains((x, parent@)),
{
    let mut kids: Vec<String> = Vec::new();
    let pk = parent.to_owned();
    let n = tree.links.len();
    let mut i: usize = 0;
    while i < n
        invariant
            i <= n,
            n == tree.links@.len(),
            pk@ == parent@,
            forall|x: Seq<char>| #[trigger] strings_view(kids@).contains(x)
                <==> pairs_view(tree.links@).subrange(0, i as int).contains((x, parent@)),
        decreases n - i,
    {
        let ghost before = strings_view(kids@);
        let ghost pv = pairs_view(tree.links@);
        assert(pv.subrange(0, i + 1) =~= pv.subrange(0, i as int).push(pv[i as int]));
        if tree.links[i].1 == pk {
            push_text(&mut kids, tree.links[i].0.clone());
        }
        proof {
            assert forall|x: Seq<char>| #[trigger] strings_view(kids@).contains(x)
                <==> pv.subrange(0, i + 1).contains((x, parent@)) by {
                let pre = pv.subrange(0, i as int);
                let sub = pv.subrange(0, i + 1);
                if before.contains(x) {
                    let y = choose|y: int| 0 <= y < before.len() && before[y] == x;
                    assert(strings_view(kids@)[y] == x);
                    let z = choose|z: int| 0 <= z < pre.len() && pre[z] == (x, parent@);
                    assert(sub[z] == (x, parent@));
                }
                if sub.contains((x, parent@)) {
                    let z = choose|z: int| 0 <= z < sub.len() && sub[z] == (x, parent@);
                    if z < i {
                        assert(pre[z] == (x, parent@));
                    } else {
                        assert(strings_view(kids@)[strings_view(kids@).len() - 1] == x);
                    }
                }
                if strings_view(kids@).contains(x) && !before.contains(x) {
                    assert(sub[i as int] == (x, parent@));
                }
            }
        }
        i += 1;
    }
    assert(pairs_view(tree.links@).subrange(0, n as int) =~= pairs_view(tree.links@));
    sorted_texts(&kids)
}

/// Whether `v` is a direct subclass of `u`.
pub open spec fn sub_step(main: Set<Key3>, u: Seq<char>, v: Seq<char>) -> bool {
    main.contains((v, iri_key(RDFS_SUBCLASS_OF), u))
}

/// The classes at most `d` subclass steps below `root`, `root` included.
pub open spec fn below(main: Set<Key3>, root: Seq<char>, d: nat) -> Set<Seq<char>>
    decreases d,
{
    if d == 0 {
        set![root]
    } else {
        let prev = below(main, root, (d - 1) as nat);
        prev.union(Set::new(|v: Seq<char>| exists|u: Seq<char>| #[trigger] prev.contains(u) && sub_step(main, u, v)))
    }
}

/// Whether `v` lies in the subtree of `root`: `root` or a class below it.
pub open spec fn in_subtree(main: Set<Key3>, root: Seq<char>, v: Seq<char>) -> bool {
    exists|d: nat| #[trigger] below(main, root, d).contains(v)
}

/// A list without repeats whose texts all occur in another is no longer
/// than it.
pub(crate) proof fn lemma_distinct_within(a: Seq<Seq<char>>, b: Seq<Seq<char>>)
    requires
        a.no_duplicates(),
        forall|i: int| 0 <= i < a.len() ==> b.contains(#[trigger] a[i]),
    ensures
        a.len() <= b.len(),
{
    a.unique_seq_to_set();
    b.lemma_cardinality_of_set();
    assert(a.to_set().subset_of(b.to_set())) by {
        assert forall|x: Seq<char>| a.to_set().contains(x) implies b.to_set().contains(x) by {
            let i = choose|i: int| 0 <= i < a.len() && a[i] == x;
            assert(b.contains(a[i]));
        }
    }
    vstd::set_lib::lemma_len_subset(a.to_set(), b.to_set());
}

/// Layers grow: a class at most `d` steps below `root` is at most `e`
/// steps below it for `d <= e`.
proof fn lemma_below_grows(main: Set<Key3>, root: Seq<char>, d: nat, e: nat, v: Seq<char>)
    requires
        d <= e,
        below(main, root, d).contains(v),
    ensures
        below(main, root, e).contains(v),
    decreases e - d,
{
    if d < e {
        lemma_below_grows(main, root, d, (e - 1) as nat, v);
    }
}

/// The keys of the subjects of the triples of `ts`.
pub open spec fn subjects_view(ts: Seq<TermTriple>) -> Seq<Seq<char>> {
    ts.map_values(|t: TermTriple| term_key(t.s))
}

/// Whether the search text `query`, given in lower case, matches `uri` or
/// a class below it, as the class tree's search does. Nothing where the IRI
/// of `rdfs:subClassOf` is refused.
pub fn subtree_matches(main: &TripleGraph, uri: &str, query: &str) -> (r: Option<bool>)
    requires
        ascii_head(uri@),
    ensures
        r is None <==> !iri_valid(RDFS_SUBCLASS_OF@),
        r matches Some(b) ==> (b <==> exists|v: Seq<char>| #[trigger] in_subtree(graph_facts(*main), uri@, v)
            && query_matches(v, query@)),
{
    if !check_iri(RDFS_SUBCLASS_OF) {
        return None;
    }
    let ghost mf = graph_facts(*main);
    let ghost root = uri@;
    let sco = iri(RDFS_SUBCLASS_OF);
    let links = graph_match(main, None, Some(&sco), None);
    let ghost pool = seq![root] + subjects_view(links@);
    let mut seen: Vec<String> = Vec::new();
    push_text(&mut seen, uri.to_owned());
    let mut frontier: Vec<String> = Vec::new();
    push_text(&mut frontier, uri.to_owned());
    let ghost mut d: nat = 0;
    proof {
        assert(strings_view(seen@) =~= seq![root]);
        assert(strings_view(frontier@) =~= seq![root]);
        assert forall|x: Seq<char>| #[trigger] strings_view(seen@).contains(x) <==> below(mf, root, 0).contains(x) by {
            if x == root {
                assert(strings_view(seen@)[0] == x);
            }
        }
        assert(pool[0] == root);
    }
    let ghost bound = links@.len() + 1;
    while frontier.len() > 0
        invariant
            iri_valid(RDFS_SUBCLASS_OF@),
            mf == graph_facts(*main),
            root == uri@,
            ascii_head(root),
            bound == links@.len() + 1,
            pool == seq![root] + subjects_view(links@),
            forall|j: int| 0 <= j < links@.len() ==> mf.contains(#[trigger] triple_key(links@[j]))
                && triple_key(links@[j]).1 == iri_key(RDFS_SUBCLASS_OF) && triple_valid(links@[j]),
            forall|k: Key3| #[trigger] mf.contains(k) && k.1 == iri_key(RDFS_SUBCLASS_OF)
                ==> exists|j: int| 0 <= j < links@.len() && triple_key(links@[j]) == k,
            strings_view(seen@).no_duplicates(),
            forall|x: Seq<char>| #[trigger] strings_view(seen@).contains(x) <==> below(mf, root, d).contains(x),
            forall|x: Seq<char>| #[trigger] strings_view(frontier@).contains(x) ==> strings_view(seen@).contains(x),
            forall|x: Seq<char>| strings_view(seen@).contains(x) && !strings_view(frontier@).contains(x)
                ==> #[trigger] below(mf, root, d).contains(x) && !query_matches(x, query@),
            forall|u: Seq<char>, v: Seq<char>| strings_view(seen@).contains(u) && !strings_view(frontier@).contains(u)
                && #[trigger] sub_step(mf, u, v) ==> strings_view(seen@).contains(v),
            forall|i: int| 0 <= i < seen@.len() ==> pool.contains(#[trigger] strings_view(seen@)[i]),
            forall|i: int| 0 <= i < seen@.len() ==> ascii_head(#[trigger] strings_view(seen@)[i]),
            seen@.len() <= bound,
        decreases 2 * (bound - seen@.len()) + if frontier@.len() > 0 { 1int } else { 0int },
    {
        let nf = frontier.len();
        let mut a: usize = 0;
        proof {
            assert forall|i: int| 0 <= i < frontier@.len() implies strings_view(seen@).contains(#[trigger] strings_view(frontier@)[i]) by {
                assert(strings_view(frontier@).contains(strings_view(frontier@)[i]));
            }
        }
        while a < nf
            invariant
                a <= nf,
                nf == frontier@.len(),
                iri_valid(RDFS_SUBCLASS_OF@),
                mf == graph_facts(*main),
                root == uri@,
                forall|x: Seq<char>| #[trigger] strings_view(seen@).contains(x) <==> below(mf, root, d).contains(x),
                forall|i: int| 0 <= i < frontier@.len() ==> strings_view(seen@).contains(#[trigger] strings_view(frontier@)[i]),
                forall|i: int| 0 <= i < seen@.len() ==> ascii_head(#[trigger] strings_view(seen@)[i]),
                forall|i: int| 0 <= i < a ==> !query_matches(#[trigger] strings_view(frontier@)[i], query@),
            decreases nf - a,
        {
            proof {
                let x = strings_view(frontier@)[a as int];
                assert(strings_view(seen@).contains(x));
                let i = choose|i: int| 0 <= i < seen@.len() && strings_view(seen@)[i] == x;
                assert(ascii_head(strings_view(seen@)[i]));
                assert(frontier@[a as int]@ == x);
            }
            if matches_query(frontier[a].as_str(), query) {
                proof {
                    let x = strings_view(frontier@)[a as int];
                    assert(below(mf, root, d).contains(x));
                    assert(in_subtree(mf, root, x));
                }
                return Some(true);
            }
            a += 1;
        }
        let mut next: Vec<String> = Vec::new();
        let ghost seen0 = strings_view(seen@);
        let ghost front0 = strings_view(frontier@);
        let mut b: usize = 0;
        while b < nf
            invariant
                b <= nf,
                nf == frontier@.len(),
                front0 == strings_view(frontier@),
                mf == graph_facts(*main),
                bound == links@.len() + 1,
                pool == seq![root] + subjects_view(links@),
                forall|j: int| 0 <= j < links@.len() ==> mf.contains(#[trigger] triple_key(links@[j]))
                    && triple_key(links@[j]).1 == iri_key(RDFS_SUBCLASS_OF) && triple_valid(links@[j]),
                forall|k: Key3| #[trigger] mf.contains(k) && k.1 == iri_key(RDFS_SUBCLASS_OF)
                    ==> exists|j: int| 0 <= j < links@.len() && triple_key(links@[j]) == k,
                strings_view(seen@).no_duplicates(),
                forall|x: Seq<char>| #[trigger] strings_view(seen@).contains(x) <==> seen0.contains(x) || strings_view(next@).contains(x),
                forall|x: Seq<char>| #[trigger] strings_view(next@).contains(x) ==> !seen0.contains(x)
                    && exists|u: Seq<char>| front0.contains(u) && #[trigger] sub_step(mf, u, x),
                forall|u: Seq<char>, v: Seq<char>| front0.contains(u) && strings_view(frontier@).subrange(0, b as int).contains(u)
                    && #[trigger] sub_step(mf, u, v) ==> strings_view(seen@).contains(v),
                forall|i: int| 0 <= i < seen@.len() ==> pool.contains(#[trigger] strings_view(seen@)[i]),
                forall|i: int| 0 <= i < seen@.len() ==> ascii_head(#[trigger] strings_view(seen@)[i]),
                seen0.len() <= seen@.len(),
                strings_view(next@).len() + seen0.len() == strings_view(seen@).len(),
            decreases nf - b,
        {
            let f = &frontier[b];
            let nl = links.len();
            let mut c: usize = 0;
            let ghost seen_b = strings_view(seen@);
            while c < nl
                invariant
                    c <= nl,
                    forall|x: Seq<char>| seen_b.contains(x) ==> #[trigger] strings_view(seen@).contains(x),
                    nl == links@.len(),
                    b < nf,
                    nf == frontier@.len(),
                    front0 == strings_view(frontier@),
                    f@ == front0[b as int],
                    mf == graph_facts(*main),
                    pool == seq![root] + subjects_view(links@),
                    forall|j: int| 0 <= j < links@.len() ==> mf.contains(#[trigger] triple_key(links@[j]))
                        && triple_key(links@[j]).1 == iri_key(RDFS_SUBCLASS_OF) && triple_valid(links@[j]),
                    strings_view(seen@).no_duplicates(),
                    forall|x: Seq<char>| #[trigger] strings_view(seen@).contains(x) <==> seen0.contains(x) || strings_view(next@).contains(x),
                    forall|x: Seq<char>| #[trigger] strings_view(next@).contains(x) ==> !seen0.contains(x)
                        && exists|u: Seq<char>| front0.contains(u) && #[trigger] sub_step(mf, u, x),
                    forall|j: int| 0 <= j < c && term_key(links@[j].o) == f@ ==> strings_view(seen@).contains(#[trigger] term_key(links@[j].s)),
                    forall|i: int| 0 <= i < seen@.len() ==> pool.contains(#[trigger] strings_view(seen@)[i]),
                    forall|i: int| 0 <= i < seen@.len() ==> ascii_head(#[trigger] strings_view(seen@)[i]),
                    seen0.len() <= seen@.len(),
                    strings_view(next@).len() + seen0.len() == strings_view(seen@).len(),
                decreases nl - c,
            {
                let l = &links[c];
                if l.o.key() == *f {
                    let child = l.s.key();
                    if !string_in(&seen, &child) {
                        let ghost sv = strings_view(seen@);
                        let ghost nv = strings_view(next@);
                        proof {
                            assert(mf.contains(triple_key(links@[c as int])));
                            assert(sub_step(mf, f@, child@));
                            assert(front0.contains(f@));
                            assert(subjects_view(links@)[c as int] == child@);
                            assert(pool[c + 1] == child@);
                            crate::ui::lemma_key_ascii_head(l.s);
                        }
                        push_text(&mut seen, child.clone());
                        push_text(&mut next, child);
                        proof {
                            crate::plugins::lemma_push_contains(sv, child@);
                            assert forall|x: Seq<char>| seen_b.contains(x) implies #[trigger] strings_view(seen@).contains(x) by {
                                assert(sv.contains(x));
                                let y = choose|y: int| 0 <= y < sv.len() && sv[y] == x;
                                assert(strings_view(seen@)[y] == x);
                            }
                            assert forall|x: Seq<char>| #[trigger] strings_view(seen@).contains(x) <==> seen0.contains(x) || strings_view(next@).contains(x) by {
                                if sv.contains(x) {
                                    let y = choose|y: int| 0 <= y < sv.len() && sv[y] == x;
                                    assert(strings_view(seen@)[y] == x);
                                }
                                if nv.contains(x) {
                                    let y = choose|y: int| 0 <= y < nv.len() && nv[y] == x;
                                    assert(strings_view(next@)[y] == x);
                                }
                                if x == child@ {
                                    assert(strings_view(seen@)[sv.len() as int] == x);
                                    assert(strings_view(next@)[nv.len() as int] == x);
                                }
                                if strings_view(seen@).contains(x) {
                                    let y = choose|y: int| 0 <= y < strings_view(seen@).len() && strings_view(seen@)[y] == x;
                                    if y < sv.len() {
                                        assert(sv[y] == x);
                                    }
                                }
                                if strings_view(next@).contains(x) {
                                    let y = choose|y: int| 0 <= y < strings_view(next@).len() && strings_view(next@)[y] == x;
                                    if y < nv.len() {
                                        assert(nv[y] == x);
                                    }
                                }
                            }
                            assert forall|x: Seq<char>| #[trigger] strings_view(next@).contains(x) implies !seen0.contains(x)
                                && exists|u: Seq<char>| front0.contains(u) && #[trigger] sub_step(mf, u, x) by {
                                let y = choose|y: int| 0 <= y < strings_view(next@).len() && strings_view(next@)[y] == x;
                                if y < nv.len() {
                                    assert(nv[y] == x);
                                    assert(nv.contains(x));
                                }
                            }
                            assert forall|j: int| 0 <= j < c + 1 && term_key(links@[j].o) == f@
                                implies strings_view(seen@).contains(#[trigger] term_key(links@[j].s)) by {
                                if j < c {
                                    let w = term_key(links@[j].s);
                                    assert(sv.contains(w));
                                    let y = choose|y: int| 0 <= y < sv.len() && sv[y] == w;
                                    assert(strings_view(seen@)[y] == w);
                                } else {
                                    assert(strings_view(seen@)[sv.len() as int] == child@);
                                }
                            }
                        }
                    }
                }
                c += 1;
            }
            proof {
                let sub0 = strings_view(frontier@).subrange(0, b as int);
                let sub1 = strings_view(frontier@).subrange(0, b + 1);
                assert forall|u: Seq<char>, v: Seq<char>| front0.contains(u) && sub1.contains(u)
                    && #[trigger] sub_step(mf, u, v) implies strings_view(seen@).contains(v) by {
                    let y = choose|y: int| 0 <= y < sub1.len() && sub1[y] == u;
                    if y < b {
                        assert(sub0[y] == u);
                        assert(sub0.contains(u));
                        assert(seen_b.contains(v));
                    } else {
                        assert(u == f@);
                        let k = (v, iri_key(RDFS_SUBCLASS_OF), u);
                        let j = choose|j: int| 0 <= j < links@.len() && triple_key(links@[j]) == k;
                        assert(term_key(links@[j].o) == f@);
                    }
                }
            }
            b += 1;
        }
        proof {
            let nd = d + 1;
            let prev = below(mf, root, d);
            assert(strings_view(frontier@).subrange(0, nf as int) =~= strings_view(frontier@));
            assert forall|x: Seq<char>| #[trigger] strings_view(seen@).contains(x) <==> below(mf, root, nd).contains(x) by {
                if strings_view(next@).contains(x) {
                    let u = choose|u: Seq<char>| front0.contains(u) && #[trigger] sub_step(mf, u, x);
                    assert(seen0.contains(u));
                    assert(prev.contains(u));
                }
                if below(mf, root, nd).contains(x) && !prev.contains(x) {
                    let u = choose|u: Seq<char>| #[trigger] prev.contains(u) && sub_step(mf, u, x);
                    assert(seen0.contains(u));
                    if !front0.contains(u) {
                        assert(seen0.contains(x));
                    } else {
                        assert(strings_view(frontier@).subrange(0, nf as int).contains(u));
                    }
                }
            }
            d = nd;
            lemma_distinct_within(strings_view(seen@), pool);
            assert(pool.len() == bound);
            assert forall|u: Seq<char>, v: Seq<char>| front0.contains(u) && #[trigger] sub_step(mf, u, v)
                implies strings_view(seen@).contains(v) by {
                assert(strings_view(frontier@).subrange(0, nf as int).contains(u));
            }
            assert forall|i: int| 0 <= i < front0.len() implies !query_matches(#[trigger] front0[i], query@) by {
                assert(front0[i] == strings_view(frontier@)[i]);
            }
        }
        frontier = next;
        proof {
            assert forall|x: Seq<char>| strings_view(seen@).contains(x) && !strings_view(frontier@).contains(x)
                implies #[trigger] below(mf, root, d).contains(x) && !query_matches(x, query@) by {
                assert(seen0.contains(x));
                if front0.contains(x) {
                    let i = choose|i: int| 0 <= i < front0.len() && front0[i] == x;
                    assert(!query_matches(front0[i], query@));
                } else {
                    assert(below(mf, root, (d - 1) as nat).contains(x));
                }
            }
            assert forall|u: Seq<char>, v: Seq<char>| strings_view(seen@).contains(u) && !strings_view(frontier@).contains(u)
                && #[trigger] sub_step(mf, u, v) implies strings_view(seen@).contains(v) by {
                assert(seen0.contains(u));
                if !front0.contains(u) {
                    assert(seen0.contains(v));
                }
            }
        }
    }
    proof {
        assert forall|v: Seq<char>| #[trigger] in_subtree(mf, root, v) implies !query_matches(v, query@) by {
            let e = choose|e: nat| #[trigger] below(mf, root, e).contains(v);
            lemma_closed_below(mf, root, d, e, v, strings_view(seen@));
        }
    }
    Some(false)
}

/// Where the known classes are closed under the subclass step, every class
/// below the root is among them.
proof fn lemma_closed_below(main: Set<Key3>, root: Seq<char>, d: nat, e: nat, v: Seq<char>, known: Seq<Seq<char>>)
    requires
        forall|x: Seq<char>| #[trigger] known.contains(x) <==> below(main, root, d).contains(x),
        forall|u: Seq<char>, w: Seq<char>| known.contains(u) && #[trigger] sub_step(main, u, w) ==> known.contains(w),
        below(main, root, e).contains(v),
    ensures
        known.contains(v),
    decreases e,
{
    if e == 0 {
        lemma_below_grows(main, root, 0, d, v);
    } else {
        let prev = below(main, root, (e - 1) as nat);
        if !prev.contains(v) {
            let u = choose|u: Seq<char>| #[trigger] prev.contains(u) && sub_step(main, u, v);
            lemma_closed_below(main, root, d, (e - 1) as nat, u, known);
        } else {
            lemma_closed_below(main, root, d, (e - 1) as nat, v, known);
        }
    }
}

/// Classes, properties and the ontology header are schema, not individuals:
/// no type among `owl:Class`, `rdfs:Class`, `owl:ObjectProperty`,
/// `owl:DatatypeProperty`, `rdf:Property` and `owl:Ontology` is listed as a
/// group of individuals, and nothing with one of those types is listed as
/// a member of any group.
pub proof fn law_schema_not_individuals(main: Set<Key3>, g: Seq<TypeGroup>)
    requires
        forall|c: Seq<char>| #[trigger] group_types(g).contains(c) <==> exists|s: Seq<char>| individual_of(main, s, c),
        forall|i: int, s: Seq<char>| 0 <= i < g.len() ==> (#[trigger] strings_view(g[i].members@).contains(s)
            <==> individual_of(main, s, g[i].type_uri@)),
    ensures
        forall|i: int| 0 <= i < g.len() ==> {
            &&& (#[trigger] g[i]).type_uri@ != iri_key(OWL_CLASS)
            &&& g[i].type_uri@ != iri_key(RDFS_CLASS)
            &&& g[i].type_uri@ != iri_key(OWL_OBJECT_PROPERTY)
            &&& g[i].type_uri@ != iri_key(OWL_DATATYPE_PROPERTY)
            &&& g[i].type_uri@ != iri_key(RDF_PROPERTY)
            &&& g[i].type_uri@ != iri_key(OWL_ONTOLOGY)
        },
        forall|i: int, s: Seq<char>| 0 <= i < g.len() && #[trigger] strings_view(g[i].members@).contains(s) ==> {
            &&& !main.contains((s, iri_key(RDF_TYPE), iri_key(OWL_CLASS)))
            &&& !main.contains((s, iri_key(RDF_TYPE), iri_key(RDFS_CLASS)))
            &&& !main.contains((s, iri_key(RDF_TYPE), iri_key(OWL_OBJECT_PROPERTY)))
            &&& !main.contains((s, iri_key(RDF_TYPE), iri_key(OWL_DATATYPE_PROPERTY)))
            &&& !main.contains((s, iri_key(RDF_TYPE), iri_key(RDF_PROPERTY)))
            &&& !main.contains((s, iri_key(RDF_TYPE), iri_key(OWL_ONTOLOGY)))
        },
{
    assert forall|i: int| 0 <= i < g.len() implies {
        &&& (#[trigger] g[i]).type_uri@ != iri_key(OWL_CLASS)
        &&& g[i].type_uri@ != iri_key(RDFS_CLASS)
        &&& g[i].type_uri@ != iri_key(OWL_OBJECT_PROPERTY)
        &&& g[i].type_uri@ != iri_key(OWL_DATATYPE_PROPERTY)
        &&& g[i].type_uri@ != iri_key(RDF_PROPERTY)
        &&& g[i].type_uri@ != iri_key(OWL_ONTOLOGY)
    } by {
        let c = g[i].type_uri@;
        assert(group_types(g)[i] == c);
        assert(group_types(g).contains(c));
        let s = choose|s: Seq<char>| individual_of(main, s, c);
        assert(!meta_class(c));
    }
    assert forall|i: int, s: Seq<char>| 0 <= i < g.len() && #[trigger] strings_view(g[i].members@).contains(s) implies {
        &&& !main.contains((s, iri_key(RDF_TYPE), iri_key(OWL_CLASS)))
        &&& !main.contains((s, iri_key(RDF_TYPE), iri_key(RDFS_CLASS)))
        &&& !main.contains((s, iri_key(RDF_TYPE), iri_key(OWL_OBJECT_PROPERTY)))
        &&& !main.contains((s, iri_key(RDF_TYPE), iri_key(OWL_DATATYPE_PROPERTY)))
        &&& !main.contains((s, iri_key(RDF_TYPE), iri_key(RDF_PROPERTY)))
        &&& !main.contains((s, iri_key(RDF_TYPE), iri_key(OWL_ONTOLOGY)))
    } by {
        assert(individual_of(main, s, g[i].type_uri@));
        assert(!meta_typed(main, s));
        assert(meta_class(iri_key(OWL_CLASS)));
        assert(meta_class(iri_key(RDFS_CLASS)));
        assert(meta_class(iri_key(OWL_OBJECT_PROPERTY)));
        assert(meta_class(iri_key(OWL_DATATYPE_PROPERTY)));
        assert(meta_class(iri_key(RDF_PROPERTY)));
        assert(meta_class(iri_key(OWL_ONTOLOGY)));
    }
}

/// A list in text order holds no text twice.
pub proof fn law_sorted_distinct(v: Seq<Seq<char>>)
    requires
        texts_sorted(v),
    ensures
        v.no_duplicates(),
{
    assert forall|i: int, j: int| 0 <= i < v.len() && 0 <= j < v.len() && i != j implies v[i] != v[j] by {
        if i < j {
            assert(text_less(v[i], v[j]));
        } else {
            assert(text_less(v[j], v[i]));
        }
        lemma_text_less_irreflexive(v[i]);
    }
}

/// A class lies in its own subtree, and so does every class below a class
/// of the subtree.
pub proof fn law_subtree_closed(main: Set<Key3>, root: Seq<char>, u: Seq<char>, v: Seq<char>)
    ensures
        in_subtree(main, root, root),
        in_subtree(main, root, u) && sub_step(main, u, v) ==> in_subtree(main, root, v),
{
    assert(below(main, root, 0).contains(root));
    if in_subtree(main, root, u) && sub_step(main, u, v) {
        let d = choose|d: nat| #[trigger] below(main, root, d).contains(u);
        assert(below(main, root, d + 1).contains(v));
    }
}

/// Every link a property tree keeps is one of the links it grew by, both
/// its ends are properties of the tree and its child has a parent; the
/// properties it started from stay properties of the tree.
pub proof fn law_property_tree_links(start: Set<Seq<char>>, links: Seq<(Seq<char>, Seq<char>)>)
    ensures
        forall|i: int| 0 <= i < grow_tree(start, links).links.len() ==> {
            let l = #[trigger] grow_tree(start, links).links[i];
            &&& links.contains(l)
            &&& grow_tree(start, links).props.contains(l.0)
            &&& grow_tree(start, links).props.contains(l.1)
            &&& grow_tree(start, links).has_parent.contains(l.0)
        },
        start.subset_of(grow_tree(start, links).props),
    decreases links.len(),
{
    if links.len() > 0 {
        law_property_tree_links(start, links.drop_last());
        let prev = grow_tree(start, links.drop_last());
        assert forall|x: int| 0 <= x < links.drop_last().len() implies links.contains(#[trigger] links.drop_last()[x]) by {
            assert(links[x] == links.drop_last()[x]);
        }
        let g = grow_tree(start, links);
        assert forall|i: int| 0 <= i < g.links.len() implies {
            let l = #[trigger] g.links[i];
            &&& links.contains(l)
            &&& g.props.contains(l.0)
            &&& g.props.contains(l.1)
            &&& g.has_parent.contains(l.0)
        } by {
            if i < prev.links.len() {
                assert(g.links[i] == prev.links[i] || g == prev);
                let l = prev.links[i];
                assert(links.drop_last().contains(l));
                let x = choose|x: int| 0 <= x < links.drop_last().len() && links.drop_last()[x] == l;
                assert(links.contains(links.drop_last()[x]));
            } else {
                assert(links.last() == links[links.len() - 1]);
            }
        }
    }
}

} // verus!
