use vstd::prelude::*;
use crate::graph::{fact_matches, graph_facts, graph_match, key_valid, term_is_valid, term_valid, triple_key, triple_valid, Key3, TermTriple, TripleGraph};
use crate::rules::lists::{lemma_strings_view_push, string_in, strings_view};
use crate::term::RdfTerm;
use crate::manager::{OWL_CLASS, OWL_DATATYPE_PROPERTY, OWL_NAMED_INDIVIDUAL, OWL_OBJECT_PROPERTY};
use crate::plugins::{is_literal_key, starts_blank_label};
use crate::memory::EngineMemory;
use crate::rules::{iri, iri_key, RDF_TYPE};
use crate::rules::engine::InferenceEngine;
use crate::term::{canon, term_key};

verus! {

/// The screen the application shows.
#[derive(Debug, Clone, Copy, PartialEq, Eq)]
pub enum AppState {
    Splash,
    Onboarding,
    Main,
}

/// How the graph view places its nodes.
#[derive(Debug, Clone, Copy, PartialEq, Eq)]
pub enum LayoutMode {
    ForceDirected,
    Hierarchical,
    Radial,
    Grid,
    Circular,
    Concentric,
}

/// The kind of a node of the graph view.
#[derive(Debug, Clone, Copy, PartialEq, Eq, Hash)]
pub enum NodeType {
    Class,
    Property,
    Individual,
    Literal,
    Blank,
}

/// An edge of the graph view: a triple from its subject to its object,
/// labelled by its predicate.
pub struct GraphEdge {
    pub from: String,
    pub to: String,
    pub label: String,
    pub is_inferred: bool,
}

/// The tabs of the application's dock.
#[derive(Debug, Clone, PartialEq, Eq)]
pub enum DarkstarTab {
    Graph,
    Classes,
    ObjectProperties,
    DataProperties,
    Individuals,
    History,
    EntityEditor,
    SourceEditor,
    Plugin(String),
}

/// The text after the last `c` of `s`, or `s` where it holds none.
pub open spec fn after_last(s: Seq<char>, c: char) -> Seq<char> {
    if exists|i: int| 0 <= i < s.len() && s[i] == c {
        let i = choose|i: int| 0 <= i < s.len() && s[i] == c && forall|j: int| i < j < s.len() ==> s[j] != c;
        s.subrange(i + 1, s.len() as int)
    } else {
        s
    }
}

/// A string without the tag of a key, where it has one (a second character
/// `:`).
pub open spec fn untagged(s: Seq<char>) -> Seq<char> {
    if s.len() >= 2 && s[1] == ':' {
        s.subrange(2, s.len() as int)
    } else {
        s
    }
}

/// The short name that the user interface shows for a key: the text after
/// the last `/`, then after the last `#`, of the untagged text.
pub open spec fn label_of(s: Seq<char>) -> Seq<char> {
    after_last(after_last(untagged(s), '/'), '#')
}

/// Whether the first two characters, where there are any, are ASCII: the
/// strings whose tag can be cut.
pub open spec fn ascii_head(s: Seq<char>) -> bool {
    (s.len() >= 1 ==> (s[0] as u32) < 128) && (s.len() >= 2 ==> (s[1] as u32) < 128)
}

/// Whether the first two characters of a text, where it has them, are
/// ASCII.
pub fn starts_ascii(s: &str) -> (r: bool)
    ensures
        r == ascii_head(s@),
{
    let n = s.unicode_len();
    (n < 1 || (s.get_char(0) as u32) < 128) && (n < 2 || (s.get_char(1) as u32) < 128)
}

/// The text after the last `c` of `s`.
fn text_after_last(s: &str, c: char) -> (r: String)
    ensures
        r@ == after_last(s@, c),
{
    let n = s.unicode_len();
    let mut i: usize = n;
    while i > 0
        invariant
            i <= n,
            n == s@.len(),
            forall|j: int| i <= j < n ==> s@[j] != c,
        decreases i,
    {
        if s.get_char(i - 1) == c {
            proof {
                let k = (i - 1) as int;
                assert(s@[k] == c && forall|j: int| k < j < s@.len() ==> s@[j] != c);
                let w = choose|w: int| 0 <= w < s@.len() && s@[w] == c && forall|j: int| w < j < s@.len() ==> s@[j] != c;
                if w < k {
                    assert(s@[k] != c);
                }
                if w > k {
                    assert(s@[w] != c);
                }
            }
            return s.substring_char(i, n).to_owned();
        }
        i -= 1;
    }
    s.to_owned()
}

/// The short name that the user interface shows for a key.
pub fn get_label(prefixed_uri: &str) -> (r: String)
    requires
        ascii_head(prefixed_uri@),
    ensures
        r@ == label_of(prefixed_uri@),
{
    let n = prefixed_uri.unicode_len();
    let uri = if n >= 2 && prefixed_uri.get_char(1) == ':' {
        prefixed_uri.substring_char(2, n)
    } else {
        prefixed_uri
    };
    let tail = text_after_last(uri, '/');
    text_after_last(tail.as_str(), '#')
}

/// The decimal digit of `d`.
pub open spec fn digit(d: nat) -> char {
    if d == 0 { '0' } else if d == 1 { '1' } else if d == 2 { '2' } else if d == 3 { '3' } else if d == 4 { '4' }
    else if d == 5 { '5' } else if d == 6 { '6' } else if d == 7 { '7' } else if d == 8 { '8' } else { '9' }
}

/// The decimal writing of `n`, without leading zeros.
pub open spec fn decimal_of(n: nat) -> Seq<char>
    decreases n,
{
    if n < 10 {
        seq![digit(n)]
    } else {
        decimal_of(n / 10).push(digit(n % 10))
    }
}

/// The digit `d` as a string.
fn digit_text(d: u64) -> (r: &'static str)
    requires
        d < 10,
    ensures
        r@ == seq![digit(d as nat)],
{
    proof {
        reveal_strlit("0");
        reveal_strlit("1");
        reveal_strlit("2");
        reveal_strlit("3");
        reveal_strlit("4");
        reveal_strlit("5");
        reveal_strlit("6");
        reveal_strlit("7");
        reveal_strlit("8");
        reveal_strlit("9");
    }
    if d == 0 { "0" } else if d == 1 { "1" } else if d == 2 { "2" } else if d == 3 { "3" } else if d == 4 { "4" }
    else if d == 5 { "5" } else if d == 6 { "6" } else if d == 7 { "7" } else if d == 8 { "8" } else { "9" }
}

/// The decimal writing of `n`.
pub fn decimal(n: u64) -> (r: String)
    ensures
        r@ == decimal_of(n as nat),
    decreases n,
{
    if n < 10 {
        digit_text(n).to_owned()
    } else {
        let mut r = decimal(n / 10);
        r.append(digit_text(n % 10));
        r
    }
}

/// The `i`th name offered for a new entity with the given prefix:
/// `i:` followed by the prefix, `_` and the number.
pub open spec fn candidate_uri(prefix: Seq<char>, i: nat) -> Seq<char> {
    seq!['i', ':'] + prefix + seq!['_'] + decimal_of(i)
}

/// Whether `main` has a triple with the subject `k`.
pub open spec fn has_subject(main: Set<Key3>, k: Seq<char>) -> bool {
    exists|t: Key3| #[trigger] main.contains(t) && t.0 == k
}

/// Whether the `i`th name is taken: it names a valid IRI that is the
/// subject of a triple.
pub open spec fn candidate_taken(main: Set<Key3>, prefix: Seq<char>, i: nat) -> bool {
    key_valid(candidate_uri(prefix, i)) && has_subject(main, candidate_uri(prefix, i))
}

/// The first name `i:{prefix}_{i}`, counting from 1, that is no subject of
/// a triple of `main` (or is not a valid IRI); nothing where every number up
/// to `u64::MAX` is taken.
pub fn generate_unique_uri(main: &TripleGraph, prefix: &str) -> (r: Option<String>)
    ensures
        r matches Some(u) ==> exists|i: nat| 1 <= i <= u64::MAX && u@ == candidate_uri(prefix@, i)
            && !candidate_taken(graph_facts(*main), prefix@, i)
            && forall|j: nat| 1 <= j < i ==> #[trigger] candidate_taken(graph_facts(*main), prefix@, j),
        r is None ==> forall|j: nat| 1 <= j <= u64::MAX ==> #[trigger] candidate_taken(graph_facts(*main), prefix@, j),
{
    proof {
        reveal_strlit("i:");
        reveal_strlit("_");
    }
    let ghost mf = graph_facts(*main);
    let mut i: u64 = 1;
    loop
        invariant
            1 <= i,
            mf == graph_facts(*main),
            "i:"@ == seq!['i', ':'],
            "_"@ == seq!['_'],
            forall|j: nat| 1 <= j < i ==> #[trigger] candidate_taken(mf, prefix@, j),
        decreases u64::MAX - i,
    {
        let mut uri = "i:".to_owned();
        uri.append(prefix);
        uri.append("_");
        let num = decimal(i);
        uri.append(num.as_str());
        assert(uri@ == candidate_uri(prefix@, i as nat));
        let term = InferenceEngine::make_term(uri.as_str());
        assert(canon(uri@) == uri@);
        if !term_is_valid(&term) {
            return Some(uri);
        }
        let found = graph_match(main, Some(&term), None, None);
        if found.len() == 0 {
            proof {
                if has_subject(mf, uri@) {
                    let t = choose|t: Key3| #[trigger] mf.contains(t) && t.0 == uri@;
                    assert(fact_matches(t, Some(&term), None, None));
                }
            }
            return Some(uri);
        }
        proof {
            assert(mf.contains(triple_key(found@[0])));
            assert(candidate_taken(mf, prefix@, i as nat));
        }
        if i == u64::MAX {
            return None;
        }
        i += 1;
    }
}

/// What `str::to_lowercase` gives for a text.
pub uninterp spec fn lowercase(s: Seq<char>) -> Seq<char>;

/// `str::to_lowercase` of `std`: the text in lower case.
#[verifier::external_body]
pub(crate) fn to_lowercase(s: &str) -> (r: String)
    ensures
        r@ == lowercase(s@),
{
    s.to_lowercase()
}

/// Whether `pat` occurs in `s`.
pub open spec fn contains_text(s: Seq<char>, pat: Seq<char>) -> bool {
    exists|i: int| 0 <= i && i + pat.len() <= s.len() && #[trigger] s.subrange(i, i + pat.len()) == pat
}

/// Whether `s` ends with `pat`.
pub open spec fn ends_with_text(s: Seq<char>, pat: Seq<char>) -> bool {
    pat.len() <= s.len() && s.subrange(s.len() - pat.len(), s.len() as int) == pat
}

/// The characters of a text.
pub(crate) fn chars_of(s: &str) -> (r: Vec<char>)
    ensures
        r@ == s@,
{
    let n = s.unicode_len();
    let mut r: Vec<char> = Vec::new();
    let mut i: usize = 0;
    while i < n
        invariant
            i <= n,
            n == s@.len(),
            r@ == s@.subrange(0, i as int),
        decreases n - i,
    {
        r.push(s.get_char(i));
        i += 1;
        assert(r@ =~= s@.subrange(0, i as int));
    }
    assert(s@.subrange(0, n as int) =~= s@);
    r
}

/// Whether `pat` occurs in `s` at position `i`.
fn occurs_at(s: &Vec<char>, pat: &Vec<char>, i: usize) -> (r: bool)
    requires
        i + pat@.len() <= s@.len(),
    ensures
        r == (s@.subrange(i as int, i + pat@.len()) == pat@),
{
    let m = pat.len();
    let sn = s.len();
    let mut k: usize = 0;
    while k < m
        invariant
            k <= m,
            m == pat@.len(),
            sn == s@.len(),
            i + m <= s@.len(),
            forall|j: int| 0 <= j < k ==> s@[i + j] == pat@[j],
        decreases m - k,
    {
        if s[i + k] != pat[k] {
            assert(s@.subrange(i as int, i + pat@.len())[k as int] != pat@[k as int]);
            return false;
        }
        k += 1;
    }
    assert(s@.subrange(i as int, i + pat@.len()) =~= pat@);
    true
}

/// Whether `pat` occurs in `s`.
pub(crate) fn has_text(s: &Vec<char>, pat: &str) -> (r: bool)
    ensures
        r == contains_text(s@, pat@),
{
    let p = chars_of(pat);
    let m = p.len();
    let n = s.len();
    if m > n {
        return false;
    }
    if m == 0 {
        assert(pat@.len() == 0);
        assert(s@.subrange(0, 0 + pat@.len() as int) =~= pat@);
        return true;
    }
    let mut i: usize = 0;
    while i <= n - m
        invariant
            m == p@.len(),
            n == s@.len(),
            m <= n,
            i <= n - m + 1,
            n <= usize::MAX,
            m >= 1,
            p@ == pat@,
            forall|j: int| 0 <= j < i ==> #[trigger] s@.subrange(j, j + m) != pat@,
        decreases n + 1 - i,
    {
        if occurs_at(s, &p, i) {
            return true;
        }
        i += 1;
    }
    false
}

/// Whether `s` ends with `pat`.
fn has_ending(s: &Vec<char>, pat: &str) -> (r: bool)
    ensures
        r == ends_with_text(s@, pat@),
{
    let p = chars_of(pat);
    if p.len() > s.len() {
        return false;
    }
    occurs_at(s, &p, s.len() - p.len())
}

/// Whether a predicate belongs to the vocabulary of RDF, RDFS or OWL, by
/// the marks its lower-cased text carries.
pub open spec fn is_system_predicate(p: Seq<char>) -> bool {
    let l = lowercase(p);
    ||| contains_text(l, "#type"@) ||| contains_text(l, "#first"@) ||| contains_text(l, "#rest"@)
    ||| contains_text(l, "#onproperty"@) ||| contains_text(l, "#somevaluesfrom"@) ||| contains_text(l, "#allvaluesfrom"@)
    ||| contains_text(l, "#unionof"@) ||| contains_text(l, "#intersectionof"@) ||| contains_text(l, "#oneof"@)
    ||| contains_text(l, "#inverseof"@) ||| contains_text(l, "#equivalentclass"@) ||| contains_text(l, "#equivalentproperty"@)
    ||| contains_text(l, "#namedindividual"@) ||| contains_text(l, "#ontology"@) ||| contains_text(l, "#imports"@)
    ||| contains_text(l, "/22-rdf-syntax-ns#"@) ||| contains_text(l, "/owl#"@) ||| contains_text(l, "/rdf-schema#"@)
    ||| ends_with_text(l, "/type"@) ||| ends_with_text(l, "/first"@) ||| ends_with_text(l, "/rest"@)
}

/// Whether a predicate belongs to the vocabulary of RDF, RDFS or OWL.
pub fn is_system(p: &str) -> (r: bool)
    ensures
        r == is_system_predicate(p@),
{
    let lower = to_lowercase(p);
    let l = chars_of(lower.as_str());
    has_text(&l, "#type") || has_text(&l, "#first") || has_text(&l, "#rest")
        || has_text(&l, "#onproperty") || has_text(&l, "#somevaluesfrom") || has_text(&l, "#allvaluesfrom")
        || has_text(&l, "#unionof") || has_text(&l, "#intersectionof") || has_text(&l, "#oneof")
        || has_text(&l, "#inverseof") || has_text(&l, "#equivalentclass") || has_text(&l, "#equivalentproperty")
        || has_text(&l, "#namedindividual") || has_text(&l, "#ontology") || has_text(&l, "#imports")
        || has_text(&l, "/22-rdf-syntax-ns#") || has_text(&l, "/owl#") || has_text(&l, "/rdf-schema#")
        || has_ending(&l, "/type") || has_ending(&l, "/first") || has_ending(&l, "/rest")
}

/// Whether `v` is a neighbour of the node `u` in the asserted triples `a`
/// or the inferred triples `i`: the object of a triple with subject `u`, or
/// the subject of a triple with object `u`. Only valid terms have
/// neighbours.
pub open spec fn neighbour(a: Set<Key3>, i: Set<Key3>, u: Seq<char>, v: Seq<char>) -> bool {
    key_valid(canon(u)) && exists|t: Key3| #![trigger a.contains(t)] #![trigger i.contains(t)] (a.contains(t) || i.contains(t))
        && ((t.0 == canon(u) && t.2 == v) || (t.2 == canon(u) && t.0 == v))
}

/// The nodes at most `d` steps from the `roots`.
pub open spec fn reach(a: Set<Key3>, i: Set<Key3>, roots: Set<Seq<char>>, d: nat) -> Set<Seq<char>>
    decreases d,
{
    if d == 0 {
        roots
    } else {
        let prev = reach(a, i, roots, (d - 1) as nat);
        prev.union(Set::new(|v: Seq<char>| exists|u: Seq<char>| #[trigger] prev.contains(u) && neighbour(a, i, u, v)))
    }
}

/// Whether `w` is the object of one of the first `k` triples of `ts`.
pub open spec fn object_in_prefix(ts: Seq<crate::graph::TermTriple>, k: int, w: Seq<char>) -> bool {
    exists|j: int| #![trigger ts[j]] 0 <= j < k && triple_key(ts[j]).2 == w
}

/// Whether `w` is the subject of one of the first `k` triples of `ts`.
pub open spec fn subject_in_prefix(ts: Seq<crate::graph::TermTriple>, k: int, w: Seq<char>) -> bool {
    exists|j: int| #![trigger ts[j]] 0 <= j < k && triple_key(ts[j]).0 == w
}

/// Appends `v` to `next` unless `seen` or `next` holds it.
pub(crate) fn push_new(seen: &Vec<String>, next: &mut Vec<String>, v: String)
    ensures
        strings_view(old(next)@).no_duplicates() ==> strings_view(final(next)@).no_duplicates(),
        forall|w: Seq<char>| #[trigger] strings_view(final(next)@).contains(w) <==> strings_view(old(next)@).contains(w)
            || (w == v@ && !strings_view(seen@).contains(w)),
{
    let ghost before = strings_view(next@);
    if !string_in(seen, &v) && !string_in(next, &v) {
        proof {
            lemma_strings_view_push(next@, v);
            crate::plugins::lemma_push_contains(before, v@);
        }
        next.push(v);
    }
}

/// Adds the neighbours of `u` in one graph that are not yet listed.
fn add_neighbours(g: &TripleGraph, u: &RdfTerm, seen: &Vec<String>, next: &mut Vec<String>)
    requires
        term_valid(*u),
    ensures
        strings_view(old(next)@).no_duplicates() ==> strings_view(final(next)@).no_duplicates(),
        forall|v: Seq<char>| #[trigger] strings_view(final(next)@).contains(v) <==> strings_view(old(next)@).contains(v)
            || (!strings_view(seen@).contains(v) && exists|t: Key3| #[trigger] graph_facts(*g).contains(t)
                && ((t.0 == term_key(*u) && t.2 == v) || (t.2 == term_key(*u) && t.0 == v))),
{
    let outgoing = graph_match(g, Some(u), None, None);
    let incoming = graph_match(g, None, None, Some(u));
    let ghost start = strings_view(next@);
    let ghost gf = graph_facts(*g);
    let no = outgoing.len();
    let mut k: usize = 0;
    while k < no
        invariant
            k <= no,
            no == outgoing@.len(),
            gf == graph_facts(*g),
            start.no_duplicates() ==> strings_view(next@).no_duplicates(),
            forall|v: Seq<char>| #[trigger] strings_view(next@).contains(v) <==> start.contains(v)
                || (!strings_view(seen@).contains(v) && object_in_prefix(outgoing@, k as int, v)),
        decreases no - k,
    {
        let ghost before = strings_view(next@);
        let v = outgoing[k].o.key();
        push_new(seen, next, v);
        proof {
            assert forall|w: Seq<char>| #[trigger] strings_view(next@).contains(w) <==> start.contains(w)
                || (!strings_view(seen@).contains(w) && object_in_prefix(outgoing@, k + 1, w)) by {
                assert(object_in_prefix(outgoing@, k + 1, w) <==> object_in_prefix(outgoing@, k as int, w)
                    || triple_key(outgoing@[k as int]).2 == w);
            }
        }
        k += 1;
    }
    let ghost mid = strings_view(next@);
    let ni = incoming.len();
    let mut k: usize = 0;
    while k < ni
        invariant
            k <= ni,
            ni == incoming@.len(),
            gf == graph_facts(*g),
            start.no_duplicates() ==> strings_view(next@).no_duplicates(),
            forall|v: Seq<char>| #[trigger] strings_view(next@).contains(v) <==> mid.contains(v)
                || (!strings_view(seen@).contains(v) && subject_in_prefix(incoming@, k as int, v)),
        decreases ni - k,
    {
        let v = incoming[k].s.key();
        push_new(seen, next, v);
        proof {
            assert forall|w: Seq<char>| #[trigger] strings_view(next@).contains(w) <==> mid.contains(w)
                || (!strings_view(seen@).contains(w) && subject_in_prefix(incoming@, k + 1, w)) by {
                assert(subject_in_prefix(incoming@, k + 1, w) <==> subject_in_prefix(incoming@, k as int, w)
                    || triple_key(incoming@[k as int]).0 == w);
            }
        }
        k += 1;
    }
    proof {
        let fin = strings_view(next@);
        let uk = term_key(*u);
        assert forall|v: Seq<char>| #[trigger] fin.contains(v) <==> start.contains(v)
            || (!strings_view(seen@).contains(v) && exists|t: Key3| #[trigger] gf.contains(t)
                && ((t.0 == uk && t.2 == v) || (t.2 == uk && t.0 == v))) by {
            if fin.contains(v) && !start.contains(v) {
                if mid.contains(v) {
                    let j = choose|j: int| #![trigger outgoing@[j]] 0 <= j < no && triple_key(outgoing@[j]).2 == v;
                    assert(graph_facts(*g).contains(triple_key(outgoing@[j])));
                } else {
                    let j = choose|j: int| #![trigger incoming@[j]] 0 <= j < ni && triple_key(incoming@[j]).0 == v;
                    assert(graph_facts(*g).contains(triple_key(incoming@[j])));
                }
            }
            if !start.contains(v) && !strings_view(seen@).contains(v) && exists|t: Key3| #[trigger] gf.contains(t)
                && ((t.0 == uk && t.2 == v) || (t.2 == uk && t.0 == v)) {
                let t = choose|t: Key3| #[trigger] gf.contains(t) && ((t.0 == uk && t.2 == v) || (t.2 == uk && t.0 == v));
                if t.0 == uk && t.2 == v {
                    assert(fact_matches(t, Some(u), None, None));
                    let j = choose|j: int| 0 <= j < outgoing@.len() && triple_key(outgoing@[j]) == t;
                    assert(object_in_prefix(outgoing@, no as int, v));
                    assert(mid.contains(v));
                } else {
                    assert(fact_matches(t, None, None, Some(u)));
                    let j = choose|j: int| 0 <= j < incoming@.len() && triple_key(incoming@[j]) == t;
                    assert(subject_in_prefix(incoming@, ni as int, v));
                }
            }
        }
    }
}

/// The nodes within `depth` steps of the `roots` in the asserted and
/// inferred triples, each once: the nodes that the focus mode of the graph
/// view shows.
pub fn focus_nodes(asserted: &TripleGraph, inferred: &TripleGraph, roots: &Vec<String>, depth: usize) -> (r: Vec<String>)
    ensures
        strings_view(r@).no_duplicates(),
        forall|v: Seq<char>| #[trigger] strings_view(r@).contains(v)
            <==> reach(graph_facts(*asserted), graph_facts(*inferred), strings_view(roots@).to_set(), depth as nat).contains(v),
{
    let ghost a = graph_facts(*asserted);
    let ghost i = graph_facts(*inferred);
    let ghost rs = strings_view(roots@).to_set();
    let mut visible: Vec<String> = Vec::new();
    let mut frontier: Vec<String> = Vec::new();
    let nr = roots.len();
    let mut x: usize = 0;
    while x < nr
        invariant
            x <= nr,
            nr == roots@.len(),
            strings_view(visible@).no_duplicates(),
            strings_view(frontier@) == strings_view(visible@),
            forall|v: Seq<char>| #[trigger] strings_view(visible@).contains(v) <==> strings_view(roots@).subrange(0, x as int).contains(v),
        decreases nr - x,
    {
        let ghost before = strings_view(visible@);
        assert(forall|v: Seq<char>| #[trigger] before.contains(v) <==> strings_view(roots@).subrange(0, x as int).contains(v));
        let ghost sub = strings_view(roots@).subrange(0, x + 1);
        assert(sub =~= strings_view(roots@).subrange(0, x as int).push(roots@[x as int]@));
        proof {
            crate::plugins::lemma_push_contains(strings_view(roots@).subrange(0, x as int), roots@[x as int]@);
        }
        let present = string_in(&visible, &roots[x]);
        if !present {
            proof {
                lemma_strings_view_push(visible@, roots@[x as int]);
                lemma_strings_view_push(frontier@, roots@[x as int]);
                crate::plugins::lemma_push_contains(before, roots@[x as int]@);
            }
            visible.push(roots[x].clone());
            frontier.push(roots[x].clone());
        }
        proof {
            assert(!present ==> strings_view(visible@) == before.push(roots@[x as int]@));
            assert(present ==> strings_view(visible@) == before);
            let r0 = roots@[x as int]@;
            let pre = strings_view(roots@).subrange(0, x as int);
            assert(present == before.contains(r0));
            assert forall|v: Seq<char>| #[trigger] strings_view(visible@).contains(v) <==> sub.contains(v) by {
                assert(sub.contains(v) <==> pre.contains(v) || v == r0);
                assert(before.contains(v) <==> pre.contains(v));
                if present {
                    assert(strings_view(visible@).contains(v) <==> before.contains(v));
                } else {
                    assert(strings_view(visible@).contains(v) <==> before.contains(v) || v == r0);
                }
            }
        }
        x += 1;
    }
    proof {
        assert(strings_view(roots@).subrange(0, nr as int) =~= strings_view(roots@));
        assert forall|v: Seq<char>| #[trigger] strings_view(visible@).contains(v) <==> reach(a, i, rs, 0).contains(v) by {}
    }
    let mut d: usize = 0;
    while d < depth
        invariant
            d <= depth,
            a == graph_facts(*asserted),
            i == graph_facts(*inferred),
            strings_view(visible@).no_duplicates(),
            forall|v: Seq<char>| #[trigger] strings_view(visible@).contains(v) <==> reach(a, i, rs, d as nat).contains(v),
            forall|v: Seq<char>| #[trigger] strings_view(frontier@).contains(v) ==> reach(a, i, rs, d as nat).contains(v),
            forall|v: Seq<char>| #[trigger] reach(a, i, rs, d as nat).contains(v) ==> strings_view(frontier@).contains(v)
                || (d > 0 && reach(a, i, rs, (d - 1) as nat).contains(v)),
        decreases depth - d,
    {
        let ghost prev = reach(a, i, rs, d as nat);
        let mut next: Vec<String> = Vec::new();
        let nf = frontier.len();
        let mut y: usize = 0;
        while y < nf
            invariant
                y <= nf,
                nf == frontier@.len(),
                a == graph_facts(*asserted),
                i == graph_facts(*inferred),
                strings_view(next@).no_duplicates(),
                forall|w: Seq<char>| #[trigger] strings_view(next@).contains(w) <==> !strings_view(visible@).contains(w)
                    && exists|u: int| 0 <= u < y && #[trigger] neighbour(a, i, frontier@[u]@, w),
            decreases nf - y,
        {
            let term = InferenceEngine::make_term(frontier[y].as_str());
            let ghost uk = frontier@[y as int]@;
            let ghost before = strings_view(next@);
            if term_is_valid(&term) {
                add_neighbours(asserted, &term, &visible, &mut next);
                let ghost mid = strings_view(next@);
                add_neighbours(inferred, &term, &visible, &mut next);
                proof {
                    assert forall|w: Seq<char>| #[trigger] strings_view(next@).contains(w) <==> !strings_view(visible@).contains(w)
                        && exists|u: int| 0 <= u < y + 1 && #[trigger] neighbour(a, i, frontier@[u]@, w) by {
                        if neighbour(a, i, uk, w) && !strings_view(visible@).contains(w) {
                            let t = choose|t: Key3| #![trigger a.contains(t)] #![trigger i.contains(t)] (a.contains(t) || i.contains(t))
                                && ((t.0 == canon(uk) && t.2 == w) || (t.2 == canon(uk) && t.0 == w));
                            if a.contains(t) {
                                assert(mid.contains(w));
                            } else {
                                assert(i.contains(t));
                            }
                        }
                        if exists|u: int| 0 <= u < y + 1 && #[trigger] neighbour(a, i, frontier@[u]@, w) {
                            let u = choose|u: int| 0 <= u < y + 1 && #[trigger] neighbour(a, i, frontier@[u]@, w);
                            if u < y && !strings_view(visible@).contains(w) {
                                assert(before.contains(w));
                            }
                        }
                        if strings_view(next@).contains(w) && !before.contains(w) {
                            assert(neighbour(a, i, frontier@[y as int]@, w));
                        }
                    }
                }
            } else {
                proof {
                    assert forall|w: Seq<char>| #[trigger] strings_view(next@).contains(w) <==> !strings_view(visible@).contains(w)
                        && exists|u: int| 0 <= u < y + 1 && #[trigger] neighbour(a, i, frontier@[u]@, w) by {
                        if exists|u: int| 0 <= u < y + 1 && #[trigger] neighbour(a, i, frontier@[u]@, w) {
                            let u = choose|u: int| 0 <= u < y + 1 && #[trigger] neighbour(a, i, frontier@[u]@, w);
                            assert(u != y);
                        }
                    }
                }
            }
            y += 1;
        }
        let ghost vis0 = strings_view(visible@);
        let ghost nx = strings_view(next@);
        let nn = next.len();
        let mut z: usize = 0;
        while z < nn
            invariant
                z <= nn,
                nn == next@.len(),
                nx == strings_view(next@),
                nx.no_duplicates(),
                forall|w: Seq<char>| nx.contains(w) ==> !vis0.contains(w),
                vis0.no_duplicates(),
                strings_view(visible@) == vis0 + nx.subrange(0, z as int),
            decreases nn - z,
        {
            proof {
                lemma_strings_view_push(visible@, next@[z as int]);
                assert(nx.subrange(0, z + 1) =~= nx.subrange(0, z as int).push(nx[z as int]));
            }
            visible.push(next[z].clone());
            z += 1;
        }
        proof {
            assert(nx.subrange(0, nn as int) =~= nx);
            let vis = strings_view(visible@);
            assert(vis == vis0 + nx);
            assert forall|p: int, q: int| 0 <= p < vis.len() && 0 <= q < vis.len() && p != q implies vis[p] != vis[q] by {
                if p < vis0.len() && q >= vis0.len() {
                    assert(nx.contains(vis[q]));
                } else if q < vis0.len() && p >= vis0.len() {
                    assert(nx.contains(vis[p]));
                } else if p >= vis0.len() && q >= vis0.len() {
                    assert(vis[p] == nx[p - vis0.len()]);
                    assert(vis[q] == nx[q - vis0.len()]);
                }
            }
            let nxt = reach(a, i, rs, (d + 1) as nat);
            assert forall|v: Seq<char>| #[trigger] vis.contains(v) <==> nxt.contains(v) by {
                if vis.contains(v) {
                    let p = choose|p: int| 0 <= p < vis.len() && vis[p] == v;
                    if p < vis0.len() {
                        assert(vis0.contains(v));
                    } else {
                        assert(nx.contains(v));
                        let u = choose|u: int| 0 <= u < nf && #[trigger] neighbour(a, i, frontier@[u]@, v);
                        assert(strings_view(frontier@)[u] == frontier@[u]@);
                        assert(strings_view(frontier@).contains(frontier@[u]@));
                    }
                }
                if nxt.contains(v) {
                    if prev.contains(v) {
                        assert(vis0.contains(v));
                        let p = choose|p: int| 0 <= p < vis0.len() && vis0[p] == v;
                        assert(vis[p] == v);
                    } else {
                        let u = choose|u: Seq<char>| #[trigger] prev.contains(u) && neighbour(a, i, u, v);
                        if strings_view(frontier@).contains(u) {
                            let x = choose|x: int| 0 <= x < strings_view(frontier@).len() && strings_view(frontier@)[x] == u;
                            assert(frontier@[x]@ == u);
                            assert(nx.contains(v));
                            let p = choose|p: int| 0 <= p < nx.len() && nx[p] == v;
                            assert(vis[vis0.len() + p] == v);
                        } else {
                            assert(d > 0 && reach(a, i, rs, (d - 1) as nat).contains(u));
                            assert(prev.contains(v));
                        }
                    }
                }
            }
            assert forall|v: Seq<char>| #[trigger] nx.contains(v) ==> nxt.contains(v) by {
                if nx.contains(v) {
                    let u = choose|u: int| 0 <= u < nf && #[trigger] neighbour(a, i, frontier@[u]@, v);
                    assert(strings_view(frontier@)[u] == frontier@[u]@);
                    assert(strings_view(frontier@).contains(frontier@[u]@));
                }
            }
            assert forall|v: Seq<char>| #[trigger] nxt.contains(v) ==> nx.contains(v) || prev.contains(v) by {
                if nxt.contains(v) && !prev.contains(v) {
                    assert(vis.contains(v));
                    assert(!vis0.contains(v));
                    let p = choose|p: int| 0 <= p < vis.len() && vis[p] == v;
                    assert(p >= vis0.len());
                    assert(nx[p - vis0.len()] == v);
                }
            }
        }
        frontier = next;
        d += 1;
    }
    visible
}

/// The IRI of the RDFS class of classes.
pub const RDFS_CLASS: &'static str = "http://www.w3.org/2000/01/rdf-schema#Class";

/// The kind that a type gives a node: classes for `owl:Class` and
/// `rdfs:Class`, properties for object and data properties, individuals for
/// named individuals.
pub open spec fn kind_of_type(o: Seq<char>) -> Option<NodeType> {
    if o == iri_key(OWL_CLASS) || o == iri_key(RDFS_CLASS) {
        Some(NodeType::Class)
    } else if o == iri_key(OWL_OBJECT_PROPERTY) || o == iri_key(OWL_DATATYPE_PROPERTY) {
        Some(NodeType::Property)
    } else if o == iri_key(OWL_NAMED_INDIVIDUAL) {
        Some(NodeType::Individual)
    } else {
        None
    }
}

/// Whether `r` is a kind that the node `u` may be given: blank for `_:`,
/// literal for `l:`, otherwise the kind of one of its types in `main`, or
/// none where no type gives one. Where a node has types of several kinds,
/// any of them may be given.
pub open spec fn kind_allowed(main: Set<Key3>, u: Seq<char>, r: Option<NodeType>) -> bool {
    if starts_blank_label(u) {
        r == Some(NodeType::Blank)
    } else if is_literal_key(u) {
        r == Some(NodeType::Literal)
    } else if !key_valid(canon(u)) {
        r is None
    } else {
        match r {
            None => forall|o: Seq<char>| #[trigger] main.contains((canon(u), iri_key(RDF_TYPE), o)) ==> kind_of_type(o) is None,
            Some(k) => exists|o: Seq<char>| #[trigger] main.contains((canon(u), iri_key(RDF_TYPE), o)) && kind_of_type(o) == Some(k),
        }
    }
}

/// Whether the IRIs that give nodes their kinds are accepted as IRIs.
pub open spec fn view_vocab_valid() -> bool {
    crate::plugins::kinds_valid() && crate::graph::iri_valid(RDFS_CLASS@)
}

/// The kind that a term's type gives a node.
fn kind_of_term(o: &RdfTerm) -> (r: Option<NodeType>)
    ensures
        r == kind_of_type(term_key(*o)),
{
    let class = iri(OWL_CLASS);
    let rdfs_class = iri(RDFS_CLASS);
    let obj = iri(OWL_OBJECT_PROPERTY);
    let data = iri(OWL_DATATYPE_PROPERTY);
    let ind = iri(OWL_NAMED_INDIVIDUAL);
    if o.same(&class) || o.same(&rdfs_class) {
        Some(NodeType::Class)
    } else if o.same(&obj) || o.same(&data) {
        Some(NodeType::Property)
    } else if o.same(&ind) {
        Some(NodeType::Individual)
    } else {
        None
    }
}

/// Whether a text starts with `l:`.
fn has_literal_prefix(k: &String) -> (r: bool)
    ensures
        r == is_literal_key(k@),
{
    let s = k.as_str();
    s.unicode_len() >= 2 && s.get_char(0) == 'l' && s.get_char(1) == ':'
}

/// The kind of the node `u`, from its types in `main`.
fn node_kind(main: &TripleGraph, u: &String) -> (r: Option<NodeType>)
    requires
        view_vocab_valid(),
    ensures
        kind_allowed(graph_facts(*main), u@, r),
{
    if crate::plugins::has_blank_label_prefix(u) {
        return Some(NodeType::Blank);
    }
    if has_literal_prefix(u) {
        return Some(NodeType::Literal);
    }
    let term = InferenceEngine::make_term(u.as_str());
    if !term_is_valid(&term) {
        return None;
    }
    let ghost mf = graph_facts(*main);
    let ghost uk = canon(u@);
    let ty = iri(RDF_TYPE);
    let types = graph_match(main, Some(&term), Some(&ty), None);
    let mut kind: Option<NodeType> = None;
    let n = types.len();
    let mut j: usize = 0;
    while j < n
        invariant
            j <= n,
            n == types@.len(),
            mf == graph_facts(*main),
            uk == canon(u@),
            forall|x: int| 0 <= x < n ==> mf.contains(#[trigger] triple_key(types@[x])) && triple_key(types@[x]).0 == uk
                && triple_key(types@[x]).1 == iri_key(RDF_TYPE),
            kind is None ==> forall|x: int| 0 <= x < j ==> kind_of_type(#[trigger] triple_key(types@[x]).2) is None,
            kind matches Some(k) ==> exists|x: int| 0 <= x < j && kind_of_type(#[trigger] triple_key(types@[x]).2) == Some(k),
        decreases n - j,
    {
        proof {
            if j == 0 {
                assert forall|x: int| 0 <= x < n implies mf.contains(#[trigger] triple_key(types@[x])) && triple_key(types@[x]).0 == uk
                    && triple_key(types@[x]).1 == iri_key(RDF_TYPE) by {
                    assert(graph_facts(*main).contains(triple_key(types@[x])));
                }
            }
        }
        let k = kind_of_term(&types[j].o);
        assert(k == kind_of_type(triple_key(types@[j as int]).2));
        if k.is_some() {
            kind = k;
        }
        j += 1;
    }
    proof {
        match kind {
            None => {
                assert forall|o: Seq<char>| #[trigger] mf.contains((uk, iri_key(RDF_TYPE), o)) implies kind_of_type(o) is None by {
                    assert(fact_matches((uk, iri_key(RDF_TYPE), o), Some(&term), Some(&ty), None));
                    let x = choose|x: int| 0 <= x < types@.len() && triple_key(types@[x]) == (uk, iri_key(RDF_TYPE), o);
                    assert(kind_of_type(triple_key(types@[x]).2) is None);
                }
            },
            Some(k) => {
                let x = choose|x: int| 0 <= x < n && kind_of_type(#[trigger] triple_key(types@[x]).2) == Some(k);
                assert(mf.contains(triple_key(types@[x])));
            },
        }
    }
    kind
}

/// The switches of the graph view.
#[derive(Clone, Copy, Debug)]
pub struct ViewFlags {
    pub show_individuals: bool,
    pub show_schema: bool,
    pub show_inferred: bool,
    pub show_literals: bool,
    pub focus_mode: bool,
    pub expansion_depth: usize,
    pub show_system: bool,
}

impl Default for ViewFlags {
    /// Everything shown but the RDF, RDFS and OWL vocabulary, in focus mode
    /// with one step of expansion.
    fn default() -> (r: Self)
        ensures
            r.show_individuals && r.show_schema && r.show_inferred && r.show_literals,
            r.focus_mode,
            r.expansion_depth == 1,
            !r.show_system,
    {
        ViewFlags {
            show_individuals: true,
            show_schema: true,
            show_inferred: true,
            show_literals: true,
            focus_mode: true,
            expansion_depth: 1,
            show_system: false,
        }
    }
}

/// The kind given to the node `v` in the list `nodes`, none where it is not
/// listed.
pub open spec fn kind_in(nodes: Seq<Seq<char>>, kinds: Seq<Option<NodeType>>, v: Seq<char>) -> Option<NodeType> {
    if exists|x: int| 0 <= x < nodes.len() && nodes[x] == v {
        kinds[choose|x: int| 0 <= x < nodes.len() && nodes[x] == v]
    } else {
        None
    }
}

/// A kind, individuals where there is none.
pub open spec fn or_individual(k: Option<NodeType>) -> NodeType {
    match k {
        Some(t) => t,
        None => NodeType::Individual,
    }
}

/// Whether the switches let an edge through, given the kinds of its ends
/// and its predicate.
pub open spec fn passes(flags: ViewFlags, st: NodeType, ot: NodeType, p: Seq<char>) -> bool {
    &&& (flags.show_literals || ot != NodeType::Literal)
    &&& (flags.show_schema || !(st == NodeType::Class || ot == NodeType::Class || st == NodeType::Property))
    &&& (flags.show_individuals || !(st == NodeType::Individual || ot == NodeType::Individual))
    &&& (flags.show_system || !is_system_predicate(p))
}

/// The kind of the object end of an edge: literals are literals, other
/// nodes have their listed kind.
pub open spec fn object_kind(nodes: Seq<Seq<char>>, kinds: Seq<Option<NodeType>>, o: Seq<char>) -> NodeType {
    if is_literal_key(o) {
        NodeType::Literal
    } else {
        or_individual(kind_in(nodes, kinds, o))
    }
}

/// The model of an edge.
pub open spec fn edge_view(e: GraphEdge) -> (Seq<char>, Seq<char>, Seq<char>, bool) {
    (e.from@, e.to@, e.label@, e.is_inferred)
}

/// Whether the list of edges holds one with the given model.
pub open spec fn edges_have(v: Seq<GraphEdge>, ev: (Seq<char>, Seq<char>, Seq<char>, bool)) -> bool {
    exists|x: int| 0 <= x < v.len() && #[trigger] edge_view(v[x]) == ev
}

/// The kind of the listed node `v`.
fn lookup_kind(nodes: &Vec<String>, kinds: &Vec<Option<NodeType>>, v: &String) -> (r: Option<NodeType>)
    requires
        nodes@.len() == kinds@.len(),
        strings_view(nodes@).no_duplicates(),
    ensures
        r == kind_in(strings_view(nodes@), kinds@, v@),
{
    let ghost ns = strings_view(nodes@);
    let n = nodes.len();
    let mut x: usize = 0;
    while x < n
        invariant
            x <= n,
            n == nodes@.len(),
            n == kinds@.len(),
            ns == strings_view(nodes@),
            ns.no_duplicates(),
            forall|y: int| 0 <= y < x ==> ns[y] != v@,
        decreases n - x,
    {
        if nodes[x] == *v {
            proof {
                assert(ns[x as int] == v@);
                let c = choose|y: int| 0 <= y < ns.len() && ns[y] == v@;
                assert(c == x);
            }
            return kinds[x];
        }
        x += 1;
    }
    None
}

/// Keys of storable terms start with two ASCII characters.
pub(crate) proof fn lemma_key_ascii_head(t: RdfTerm)
    requires
        crate::term::storable(t),
    ensures
        ascii_head(term_key(t)),
{
    let k = term_key(t);
    match t {
        RdfTerm::Iri(_) => assert(k[0] == 'i' && k[1] == ':'),
        RdfTerm::Literal(_) => assert(k[0] == 'l' && k[1] == ':'),
        RdfTerm::Blank(_) => assert(k[0] == 'b' && k[1] == ':'),
        RdfTerm::Other => {},
    }
}

/// Whether the switches let an edge through.
fn passes_exec(flags: &ViewFlags, st: NodeType, ot: NodeType, p: &String) -> (r: bool)
    ensures
        r == passes(*flags, st, ot, p@),
{
    let ot_literal = matches!(ot, NodeType::Literal);
    let st_class = matches!(st, NodeType::Class);
    let ot_class = matches!(ot, NodeType::Class);
    let st_property = matches!(st, NodeType::Property);
    let st_individual = matches!(st, NodeType::Individual);
    let ot_individual = matches!(ot, NodeType::Individual);
    (flags.show_literals || !ot_literal)
        && (flags.show_schema || !(st_class || ot_class || st_property))
        && (flags.show_individuals || !(st_individual || ot_individual))
        && (flags.show_system || !is_system(p.as_str()))
}

/// A kind, individuals where there is none.
fn or_individual_exec(k: Option<NodeType>) -> (r: NodeType)
    ensures
        r == or_individual(k),
{
    match k {
        Some(t) => t,
        None => NodeType::Individual,
    }
}

/// Whether the triple `t` of `gset` with the subject `u` gives the edge
/// `ev`.
pub open spec fn edge_from(
    gset: Set<Key3>,
    nodes: Seq<Seq<char>>,
    kinds: Seq<Option<NodeType>>,
    flags: ViewFlags,
    inferred: bool,
    u: Seq<char>,
    t: Key3,
    ev: (Seq<char>, Seq<char>, Seq<char>, bool),
) -> bool {
    &&& gset.contains(t)
    &&& key_valid(canon(u))
    &&& t.0 == canon(u)
    &&& nodes.contains(t.2)
    &&& passes(flags, or_individual(kind_in(nodes, kinds, u)), object_kind(nodes, kinds, t.2), t.1)
    &&& ev == (u, t.2, label_of(t.1), inferred)
}

/// The triples of `g` that `skip`, where given, does not hold.
pub open spec fn graph_minus(g: TripleGraph, skip: Option<&TripleGraph>) -> Set<Key3> {
    match skip {
        Some(sg) => graph_facts(g).difference(graph_facts(*sg)),
        None => graph_facts(g),
    }
}

/// Whether every triple of the list is a valid triple of `gf` with the
/// subject `k`.
pub open spec fn triples_with_subject(gf: Set<Key3>, ts: Seq<crate::graph::TermTriple>, k: Seq<char>) -> bool {
    forall|j: int| 0 <= j < ts.len() ==> gf.contains(#[trigger] triple_key(ts[j])) && triple_valid(ts[j]) && triple_key(ts[j]).0 == k
}

/// Whether some edge appended from position `start` on has the model `ev`.
pub open spec fn edges_have_from(v: Seq<GraphEdge>, start: int, ev: (Seq<char>, Seq<char>, Seq<char>, bool)) -> bool {
    exists|y: int| start <= y < v.len() && #[trigger] edge_view(v[y]) == ev
}

/// Appends the edges that the triples of `g` with a listed subject and a
/// listed object give; with `skip`, the triples it holds give none.
fn edges_from(
    g: &TripleGraph,
    skip: Option<&TripleGraph>,
    inferred: bool,
    nodes: &Vec<String>,
    kinds: &Vec<Option<NodeType>>,
    flags: &ViewFlags,
    out: &mut Vec<GraphEdge>,
)
    requires
        nodes@.len() == kinds@.len(),
        strings_view(nodes@).no_duplicates(),
    ensures
        final(out)@.len() >= old(out)@.len(),
        forall|x: int| 0 <= x < old(out)@.len() ==> #[trigger] final(out)@[x] == old(out)@[x],
        forall|ev: (Seq<char>, Seq<char>, Seq<char>, bool)| edges_have_from(final(out)@, old(out)@.len() as int, ev)
            <==> exists|u: Seq<char>, t: Key3| strings_view(nodes@).contains(u) && #[trigger] edge_from(
                graph_minus(*g, skip),
                strings_view(nodes@), kinds@, *flags, inferred, u, t, ev),
{
    let ghost ns = strings_view(nodes@);
    let ghost gf = graph_facts(*g);
    let ghost gset = graph_minus(*g, skip);
    let ghost start = out@.len() as int;
    let n = nodes.len();
    let mut x: usize = 0;
    while x < n
        invariant
            x <= n,
            n == nodes@.len(),
            n == kinds@.len(),
            ns == strings_view(nodes@),
            ns.no_duplicates(),
            gf == graph_facts(*g),
            gset == graph_minus(*g, skip),
            start == old(out)@.len(),
            out@.len() >= start,
            forall|y: int| 0 <= y < start ==> #[trigger] out@[y] == old(out)@[y],
            forall|ev: (Seq<char>, Seq<char>, Seq<char>, bool)| edges_have_from(out@, start, ev)
                <==> exists|j: int, t: Key3| 0 <= j < x && #[trigger] edge_from(gset, ns, kinds@, *flags, inferred, ns[j], t, ev),
        decreases n - x,
    {
        let u = &nodes[x];
        let ghost uk = ns[x as int];
        assert(uk == u@);
        let ghost before = out@;
        let term = InferenceEngine::make_term(u.as_str());
        if term_is_valid(&term) {
            let ts = graph_match(g, Some(&term), None, None);
            proof {
                assert forall|j: int| 0 <= j < ts@.len() implies gf.contains(#[trigger] triple_key(ts@[j])) && triple_valid(ts@[j])
                    && triple_key(ts@[j]).0 == canon(uk) by {
                    assert(graph_facts(*g).contains(triple_key(ts@[j])));
                }
                assert(triples_with_subject(gf, ts@, canon(uk)));
            }
            let st = or_individual_exec(lookup_kind(nodes, kinds, u));
            let nt = ts.len();
            let mut k: usize = 0;
            while k < nt
                invariant
                    k <= nt,
                    nt == ts@.len(),
                    x < n,
                    n == nodes@.len(),
                    n == kinds@.len(),
                    ns == strings_view(nodes@),
                    ns.no_duplicates(),
                    uk == ns[x as int],
                    u@ == uk,
                    key_valid(canon(uk)),
                    st == or_individual(kind_in(ns, kinds@, uk)),
                    gf == graph_facts(*g),
                    gset == graph_minus(*g, skip),
                    triples_with_subject(gf, ts@, canon(uk)),
                    before.len() <= out@.len(),
                    forall|y: int| 0 <= y < before.len() ==> #[trigger] out@[y] == before[y],
                    forall|ev: (Seq<char>, Seq<char>, Seq<char>, bool)| edges_have_from(out@, before.len() as int, ev)
                        <==> exists|j: int| 0 <= j < k && #[trigger] edge_from(gset, ns, kinds@, *flags, inferred, uk, triple_key(ts@[j]), ev),
                decreases nt - k,
            {
                let t = &ts[k];
                let ghost tk = triple_key(ts@[k as int]);
                assert(gf.contains(tk) && triple_valid(ts@[k as int]) && tk.0 == canon(uk));
                let ghost mid = out@;
                let o = t.o.key();
                let mut pushed = false;
                if string_in(nodes, &o) {
                    let skipped = match skip {
                        Some(sg) => crate::graph::graph_contains(sg, &t.s, &t.p, &t.o),
                        None => false,
                    };
                    if !skipped {
                        proof {
                            crate::plugins::lemma_literal_key(t.o);
                        }
                        let ot = if t.o.is_literal() {
                            NodeType::Literal
                        } else {
                            or_individual_exec(lookup_kind(nodes, kinds, &o))
                        };
                        let p = t.p.key();
                        if passes_exec(flags, st, ot, &p) {
                            proof {
                                lemma_key_ascii_head(t.p);
                            }
                            let label = get_label(p.as_str());
                            let from = u.clone();
                            assert(from@ == uk);
                            assert(o@ == tk.2);
                            assert(p@ == tk.1);
                            assert(label@ == label_of(tk.1));
                            let edge = GraphEdge { from, to: o, label, is_inferred: inferred };
                            assert(edge_view(edge) == (uk, tk.2, label_of(tk.1), inferred));
                            out.push(edge);
                            pushed = true;
                        }
                    }
                }
                proof {
                    let ev0 = (uk, tk.2, label_of(tk.1), inferred);
                    assert(pushed ==> out@.len() == mid.len() + 1 && edge_view(out@[mid.len() as int]) == ev0);
                    assert(!pushed ==> out@ == mid);
                    assert(pushed == edge_from(gset, ns, kinds@, *flags, inferred, uk, tk, ev0));
                    assert forall|ev: (Seq<char>, Seq<char>, Seq<char>, bool)| edges_have_from(out@, before.len() as int, ev)
                        <==> exists|j: int| 0 <= j < k + 1 && #[trigger] edge_from(gset, ns, kinds@, *flags, inferred, uk, triple_key(ts@[j]), ev) by {
                        if edges_have_from(out@, before.len() as int, ev) {
                            let y = choose|y: int| before.len() <= y < out@.len() && #[trigger] edge_view(out@[y]) == ev;
                            if y < mid.len() {
                                assert(edges_have_from(mid, before.len() as int, ev));
                                let j = choose|j: int| 0 <= j < k && #[trigger] edge_from(gset, ns, kinds@, *flags, inferred, uk, triple_key(ts@[j]), ev);
                                assert(0 <= j < k + 1);
                            } else {
                                assert(ev == ev0);
                                assert(edge_from(gset, ns, kinds@, *flags, inferred, uk, triple_key(ts@[k as int]), ev));
                            }
                        }
                        if exists|j: int| 0 <= j < k + 1 && #[trigger] edge_from(gset, ns, kinds@, *flags, inferred, uk, triple_key(ts@[j]), ev) {
                            let j = choose|j: int| 0 <= j < k + 1 && #[trigger] edge_from(gset, ns, kinds@, *flags, inferred, uk, triple_key(ts@[j]), ev);
                            if j < k {
                                assert(edges_have_from(mid, before.len() as int, ev));
                                let y = choose|y: int| before.len() <= y < mid.len() && #[trigger] edge_view(mid[y]) == ev;
                                assert(out@[y] == mid[y]);
                            } else {
                                assert(ev == ev0);
                                assert(edge_view(out@[mid.len() as int]) == ev);
                            }
                        }
                    }
                }
                k += 1;
            }
            proof {
                assert forall|ev: (Seq<char>, Seq<char>, Seq<char>, bool)| edges_have_from(out@, before.len() as int, ev)
                    <==> exists|t: Key3| #[trigger] edge_from(gset, ns, kinds@, *flags, inferred, uk, t, ev) by {
                    if exists|t: Key3| #[trigger] edge_from(gset, ns, kinds@, *flags, inferred, uk, t, ev) {
                        let t = choose|t: Key3| #[trigger] edge_from(gset, ns, kinds@, *flags, inferred, uk, t, ev);
                        assert(gf.contains(t));
                        assert(fact_matches(t, Some(&term), None, None));
                        let j = choose|j: int| 0 <= j < ts@.len() && triple_key(ts@[j]) == t;
                        assert(edge_from(gset, ns, kinds@, *flags, inferred, uk, triple_key(ts@[j]), ev));
                    }
                }
            }
        } else {
            proof {
                assert forall|ev: (Seq<char>, Seq<char>, Seq<char>, bool)| edges_have_from(out@, before.len() as int, ev)
                    <==> exists|t: Key3| #[trigger] edge_from(gset, ns, kinds@, *flags, inferred, uk, t, ev) by {}
            }
        }
        proof {
            assert forall|ev: (Seq<char>, Seq<char>, Seq<char>, bool)| edges_have_from(out@, start, ev)
                <==> exists|j: int, t: Key3| 0 <= j < x + 1 && #[trigger] edge_from(gset, ns, kinds@, *flags, inferred, ns[j], t, ev) by {
                if edges_have_from(out@, start, ev) {
                    let y = choose|y: int| start <= y < out@.len() && #[trigger] edge_view(out@[y]) == ev;
                    if y < before.len() {
                        assert(edges_have_from(before, start, ev));
                        let (j, t) = choose|j: int, t: Key3| 0 <= j < x && #[trigger] edge_from(gset, ns, kinds@, *flags, inferred, ns[j], t, ev);
                        assert(0 <= j < x + 1);
                    } else {
                        assert(edges_have_from(out@, before.len() as int, ev));
                        let t = choose|t: Key3| #[trigger] edge_from(gset, ns, kinds@, *flags, inferred, uk, t, ev);
                        assert(edge_from(gset, ns, kinds@, *flags, inferred, ns[x as int], t, ev));
                    }
                }
                if exists|j: int, t: Key3| 0 <= j < x + 1 && #[trigger] edge_from(gset, ns, kinds@, *flags, inferred, ns[j], t, ev) {
                    let (j, t) = choose|j: int, t: Key3| 0 <= j < x + 1 && #[trigger] edge_from(gset, ns, kinds@, *flags, inferred, ns[j], t, ev);
                    if j < x {
                        assert(edges_have_from(before, start, ev));
                        let y = choose|y: int| start <= y < before.len() && #[trigger] edge_view(before[y]) == ev;
                        assert(out@[y] == before[y]);
                    } else {
                        assert(edge_from(gset, ns, kinds@, *flags, inferred, uk, t, ev));
                        assert(edges_have_from(out@, before.len() as int, ev));
                        let y = choose|y: int| before.len() <= y < out@.len() && #[trigger] edge_view(out@[y]) == ev;
                    }
                }
            }
        }
        x += 1;
    }
    proof {
        assert forall|ev: (Seq<char>, Seq<char>, Seq<char>, bool)| edges_have_from(out@, start, ev)
            <==> exists|u: Seq<char>, t: Key3| ns.contains(u) && #[trigger] edge_from(gset, ns, kinds@, *flags, inferred, u, t, ev) by {
            if exists|u: Seq<char>, t: Key3| ns.contains(u) && #[trigger] edge_from(gset, ns, kinds@, *flags, inferred, u, t, ev) {
                let (u, t) = choose|u: Seq<char>, t: Key3| ns.contains(u) && #[trigger] edge_from(gset, ns, kinds@, *flags, inferred, u, t, ev);
                let j = choose|j: int| 0 <= j < ns.len() && ns[j] == u;
                assert(edge_from(gset, ns, kinds@, *flags, inferred, ns[j], t, ev));
            }
            if edges_have_from(out@, start, ev) {
                let (j, t) = choose|j: int, t: Key3| 0 <= j < n && #[trigger] edge_from(gset, ns, kinds@, *flags, inferred, ns[j], t, ev);
                assert(ns.contains(ns[j]));
            }
        }
    }
}

/// The kind given to a node that has no listed kind: literals for `l:`,
/// blank nodes for `_:`, individuals otherwise.
pub open spec fn default_kind(v: Seq<char>) -> NodeType {
    if is_literal_key(v) {
        NodeType::Literal
    } else if starts_blank_label(v) {
        NodeType::Blank
    } else {
        NodeType::Individual
    }
}

/// The kind of a node of the view: its listed kind, else its default kind.
pub open spec fn shown_kind(nodes: Seq<Seq<char>>, kinds: Seq<Option<NodeType>>, v: Seq<char>) -> NodeType {
    match kind_in(nodes, kinds, v) {
        Some(t) => t,
        None => default_kind(v),
    }
}

/// What the graph view draws: the nodes it considered with their kinds,
/// its edges, and the ends of the edges with the kind each is drawn with.
pub struct GraphModel {
    pub visible: Vec<String>,
    pub kinds: Vec<Option<NodeType>>,
    pub edges: Vec<GraphEdge>,
    pub nodes: Vec<(String, NodeType)>,
}

/// Whether `v` is an end of one of the edges.
pub open spec fn edge_end(edges: Seq<GraphEdge>, v: Seq<char>) -> bool {
    exists|x: int| 0 <= x < edges.len() && #[trigger] touches(edges[x], v)
}

/// Whether `v` is the source or the target of `e`.
pub open spec fn touches(e: GraphEdge, v: Seq<char>) -> bool {
    e.from@ == v || e.to@ == v
}

/// Adds the node `v` with the kind it is drawn with, unless it is listed.
fn add_end(names: &mut Vec<String>, out: &mut Vec<(String, NodeType)>, v: &String, visible: &Vec<String>, kinds: &Vec<Option<NodeType>>)
    requires
        visible@.len() == kinds@.len(),
        strings_view(visible@).no_duplicates(),
        old(names)@.len() == old(out)@.len(),
        forall|y: int| 0 <= y < old(out)@.len() ==> #[trigger] old(out)@[y].0@ == old(names)@[y]@,
        strings_view(old(names)@).no_duplicates(),
        forall|y: int| 0 <= y < old(out)@.len() ==> #[trigger] old(out)@[y].1 == shown_kind(strings_view(visible@), kinds@, old(out)@[y].0@),
    ensures
        final(names)@.len() == final(out)@.len(),
        forall|y: int| 0 <= y < final(out)@.len() ==> #[trigger] final(out)@[y].0@ == final(names)@[y]@,
        strings_view(final(names)@).no_duplicates(),
        forall|y: int| 0 <= y < final(out)@.len() ==> #[trigger] final(out)@[y].1 == shown_kind(strings_view(visible@), kinds@, final(out)@[y].0@),
        forall|w: Seq<char>| #[trigger] strings_view(final(names)@).contains(w) <==> strings_view(old(names)@).contains(w) || w == v@,
{
    let ghost b2 = strings_view(names@);
    if !string_in(names, v) {
        let kind = match lookup_kind(visible, kinds, v) {
            Some(t) => t,
            None => {
                if has_literal_prefix(v) {
                    NodeType::Literal
                } else if crate::plugins::has_blank_label_prefix(v) {
                    NodeType::Blank
                } else {
                    NodeType::Individual
                }
            },
        };
        proof {
            lemma_strings_view_push(names@, *v);
            crate::plugins::lemma_push_contains(b2, v@);
        }
        names.push(v.clone());
        out.push((v.clone(), kind));
    }
}

/// The ends of the edges, each once, with the kind each is drawn with.
fn edge_ends(edges: &Vec<GraphEdge>, visible: &Vec<String>, kinds: &Vec<Option<NodeType>>) -> (r: Vec<(String, NodeType)>)
    requires
        visible@.len() == kinds@.len(),
        strings_view(visible@).no_duplicates(),
    ensures
        r@.map_values(|n: (String, NodeType)| n.0@).no_duplicates(),
        forall|v: Seq<char>| r@.map_values(|n: (String, NodeType)| n.0@).contains(v) <==> edge_end(edges@, v),
        forall|x: int| 0 <= x < r@.len() ==> #[trigger] r@[x].1 == shown_kind(strings_view(visible@), kinds@, r@[x].0@),
{
    let mut names: Vec<String> = Vec::new();
    let mut out: Vec<(String, NodeType)> = Vec::new();
    let n = edges.len();
    let mut x: usize = 0;
    while x < n
        invariant
            x <= n,
            n == edges@.len(),
            visible@.len() == kinds@.len(),
            strings_view(visible@).no_duplicates(),
            names@.len() == out@.len(),
            forall|y: int| 0 <= y < out@.len() ==> #[trigger] out@[y].0@ == names@[y]@,
            strings_view(names@).no_duplicates(),
            forall|v: Seq<char>| #[trigger] strings_view(names@).contains(v) <==> edge_end(edges@.subrange(0, x as int), v),
            forall|y: int| 0 <= y < out@.len() ==> #[trigger] out@[y].1 == shown_kind(strings_view(visible@), kinds@, out@[y].0@),
        decreases n - x,
    {
        let ghost before = strings_view(names@);
        assert(forall|v: Seq<char>| #[trigger] before.contains(v) <==> edge_end(edges@.subrange(0, x as int), v));
        let e = &edges[x];
        add_end(&mut names, &mut out, &e.from, visible, kinds);
        let ghost mid = strings_view(names@);
        assert(forall|w: Seq<char>| #[trigger] mid.contains(w) <==> before.contains(w) || w == e.from@);
        add_end(&mut names, &mut out, &e.to, visible, kinds);
        proof {
            let pre = edges@.subrange(0, x as int);
            let post = edges@.subrange(0, x + 1);
            assert(*e == edges@[x as int]);
            assert forall|v: Seq<char>| #[trigger] strings_view(names@).contains(v) <==> edge_end(post, v) by {
                assert(strings_view(names@).contains(v) <==> mid.contains(v) || v == e.to@);
                assert(mid.contains(v) <==> before.contains(v) || v == e.from@);
                assert(before.contains(v) <==> edge_end(pre, v));
                if edge_end(post, v) {
                    let y = choose|y: int| 0 <= y < post.len() && #[trigger] touches(post[y], v);
                    if y < x {
                        assert(touches(pre[y], v));
                    }
                }
                if edge_end(pre, v) {
                    let y = choose|y: int| 0 <= y < pre.len() && #[trigger] touches(pre[y], v);
                    assert(touches(post[y], v));
                }
                if v == e.from@ || v == e.to@ {
                    assert(touches(post[x as int], v));
                }
            }
        }
        x += 1;
    }
    proof {
        let m = out@.map_values(|p: (String, NodeType)| p.0@);
        assert(m =~= strings_view(names@));
        assert(edges@.subrange(0, n as int) =~= edges@);
    }
    out
}

/// The kinds of the listed nodes, from their types in `main`.
fn node_kinds(main: &TripleGraph, nodes: &Vec<String>) -> (r: Vec<Option<NodeType>>)
    requires
        view_vocab_valid(),
    ensures
        r@.len() == nodes@.len(),
        forall|x: int| 0 <= x < nodes@.len() ==> kind_allowed(graph_facts(*main), #[trigger] nodes@[x]@, r@[x]),
{
    let mut kinds: Vec<Option<NodeType>> = Vec::new();
    let n = nodes.len();
    let mut x: usize = 0;
    while x < n
        invariant
            x <= n,
            n == nodes@.len(),
            view_vocab_valid(),
            kinds@.len() == x,
            forall|y: int| 0 <= y < x ==> kind_allowed(graph_facts(*main), #[trigger] nodes@[y]@, kinds@[y]),
        decreases n - x,
    {
        let k = node_kind(main, &nodes[x]);
        kinds.push(k);
        x += 1;
    }
    kinds
}

/// The nodes the focus starts from: the selected node and the expanded ones.
pub open spec fn focus_roots(selected: Option<String>, expanded: Seq<String>) -> Set<Seq<char>> {
    let e = strings_view(expanded).to_set();
    match selected {
        Some(s) => e.insert(s@),
        None => e,
    }
}

/// Whether the triple `t` with the subject `u` gives the edge `ev` in the
/// focus mode: an asserted triple, or an inferred one that is not asserted.
pub open spec fn focus_edge(
    a: Set<Key3>,
    i: Set<Key3>,
    vis: Seq<Seq<char>>,
    kinds: Seq<Option<NodeType>>,
    flags: ViewFlags,
    u: Seq<char>,
    t: Key3,
    ev: (Seq<char>, Seq<char>, Seq<char>, bool),
) -> bool {
    edge_from(a, vis, kinds, flags, false, u, t, ev) || edge_from(i.difference(a), vis, kinds, flags, true, u, t, ev)
}

/// Whether `m` is what the focus mode draws from `memory` around `roots`:
/// the nodes within the expansion depth, each once, with kinds from their
/// types; the edges that the asserted triples between them give, and those
/// that the inferred triples not asserted give, as far as the switches let
/// them through; and the ends of those edges, each once, with their kinds.
pub open spec fn focus_model(memory: EngineMemory, flags: ViewFlags, roots: Set<Seq<char>>, m: GraphModel) -> bool {
    let a = graph_facts(memory.asserted_graph);
    let i = graph_facts(memory.inferred_graph);
    let vis = strings_view(m.visible@);
    let names = m.nodes@.map_values(|n: (String, NodeType)| n.0@);
    &&& vis.no_duplicates()
    &&& forall|v: Seq<char>| #[trigger] vis.contains(v) <==> reach(a, i, roots, flags.expansion_depth as nat).contains(v)
    &&& m.kinds@.len() == m.visible@.len()
    &&& forall|x: int| 0 <= x < m.visible@.len() ==> kind_allowed(graph_facts(memory.main_graph), #[trigger] m.visible@[x]@, m.kinds@[x])
    &&& forall|ev: (Seq<char>, Seq<char>, Seq<char>, bool)| #[trigger] edges_have(m.edges@, ev)
        <==> exists|u: Seq<char>, t: Key3| vis.contains(u) && #[trigger] focus_edge(a, i, vis, m.kinds@, flags, u, t, ev)
    &&& names.no_duplicates()
    &&& forall|v: Seq<char>| names.contains(v) <==> edge_end(m.edges@, v)
    &&& forall|x: int| 0 <= x < m.nodes@.len() ==> #[trigger] m.nodes@[x].1 == shown_kind(vis, m.kinds@, m.nodes@[x].0@)
}

/// The graph that the focus mode of the view draws around the selected
/// node and the expanded ones; none where the IRIs that give nodes their
/// kinds are not accepted as IRIs.
pub fn focus_graph(memory: &EngineMemory, flags: &ViewFlags, selected: &Option<String>, expanded: &Vec<String>) -> (r: Option<GraphModel>)
    ensures
        r is None <==> !view_vocab_valid(),
        r matches Some(m) ==> focus_model(*memory, *flags, focus_roots(*selected, expanded@), m),
{
    if !(crate::plugins::check_kinds() && crate::graph::check_iri(RDFS_CLASS)) {
        return None;
    }
    let mut roots: Vec<String> = Vec::new();
    match selected {
        Some(s) => roots.push(s.clone()),
        None => {},
    }
    let ghost pre = roots@;
    let mut tail = expanded.clone();
    roots.append(&mut tail);
    proof {
        let rs = strings_view(roots@);
        assert forall|v: Seq<char>| #[trigger] rs.to_set().contains(v) <==> focus_roots(*selected, expanded@).contains(v) by {
            if rs.to_set().contains(v) {
                let j = choose|j: int| 0 <= j < rs.len() && rs[j] == v;
                if j >= pre.len() {
                    assert(strings_view(expanded@)[j - pre.len()] == v);
                }
            }
            if strings_view(expanded@).contains(v) {
                let j = choose|j: int| 0 <= j < expanded@.len() && strings_view(expanded@)[j] == v;
                assert(rs[j + pre.len()] == v);
            }
            if selected is Some && v == selected->0@ {
                assert(rs[0] == v);
            }
        }
        assert(rs.to_set() =~= focus_roots(*selected, expanded@));
    }
    let visible = focus_nodes(&memory.asserted_graph, &memory.inferred_graph, &roots, flags.expansion_depth);
    let kinds = node_kinds(&memory.main_graph, &visible);
    let mut edges: Vec<GraphEdge> = Vec::new();
    let ghost a = graph_facts(memory.asserted_graph);
    let ghost i = graph_facts(memory.inferred_graph);
    let ghost vis = strings_view(visible@);
    edges_from(&memory.asserted_graph, None, false, &visible, &kinds, flags, &mut edges);
    let ghost first = edges@;
    assert(graph_minus(memory.asserted_graph, None) == a);
    assert(forall|ev: (Seq<char>, Seq<char>, Seq<char>, bool)| #[trigger] edges_have_from(first, 0, ev)
        <==> exists|u: Seq<char>, t: Key3| vis.contains(u) && #[trigger] edge_from(a, vis, kinds@, *flags, false, u, t, ev));
    edges_from(&memory.inferred_graph, Some(&memory.asserted_graph), true, &visible, &kinds, flags, &mut edges);
    assert(graph_minus(memory.inferred_graph, Some(&memory.asserted_graph)) == i.difference(a));
    assert(forall|ev: (Seq<char>, Seq<char>, Seq<char>, bool)| #[trigger] edges_have_from(edges@, first.len() as int, ev)
        <==> exists|u: Seq<char>, t: Key3| vis.contains(u) && #[trigger] edge_from(i.difference(a), vis, kinds@, *flags, true, u, t, ev));
    let nodes = edge_ends(&edges, &visible, &kinds);
    proof {
        assert forall|ev: (Seq<char>, Seq<char>, Seq<char>, bool)| #[trigger] edges_have(edges@, ev)
            <==> exists|u: Seq<char>, t: Key3| vis.contains(u) && #[trigger] focus_edge(a, i, vis, kinds@, *flags, u, t, ev) by {
            assert(edges_have_from(first, 0, ev) <==> exists|u: Seq<char>, t: Key3| vis.contains(u)
                && #[trigger] edge_from(a, vis, kinds@, *flags, false, u, t, ev));
            assert(edges_have_from(edges@, first.len() as int, ev) <==> exists|u: Seq<char>, t: Key3| vis.contains(u)
                && #[trigger] edge_from(i.difference(a), vis, kinds@, *flags, true, u, t, ev));
            if edges_have(edges@, ev) {
                let y = choose|y: int| 0 <= y < edges@.len() && #[trigger] edge_view(edges@[y]) == ev;
                if y < first.len() {
                    assert(edge_view(first[y]) == ev);
                    assert(edges_have_from(first, 0, ev));
                    let (u, t) = choose|u: Seq<char>, t: Key3| vis.contains(u) && #[trigger] edge_from(a, vis, kinds@, *flags, false, u, t, ev);
                    assert(vis.contains(u) && focus_edge(a, i, vis, kinds@, *flags, u, t, ev));
                } else {
                    assert(edges_have_from(edges@, first.len() as int, ev));
                }
            }
            if edges_have_from(first, 0, ev) {
                let y = choose|y: int| 0 <= y < first.len() && #[trigger] edge_view(first[y]) == ev;
                assert(edge_view(edges@[y]) == ev);
            }
            if edges_have_from(edges@, first.len() as int, ev) {
                let y = choose|y: int| first.len() <= y < edges@.len() && #[trigger] edge_view(edges@[y]) == ev;
                assert(edge_view(edges@[y]) == ev);
                let (u, t) = choose|u: Seq<char>, t: Key3| vis.contains(u) && #[trigger] edge_from(i.difference(a), vis, kinds@, *flags, true, u, t, ev);
                assert(vis.contains(u) && focus_edge(a, i, vis, kinds@, *flags, u, t, ev));
            }
            if exists|u: Seq<char>, t: Key3| vis.contains(u) && #[trigger] focus_edge(a, i, vis, kinds@, *flags, u, t, ev) {
                let (u, t) = choose|u: Seq<char>, t: Key3| vis.contains(u) && #[trigger] focus_edge(a, i, vis, kinds@, *flags, u, t, ev);
                if edge_from(a, vis, kinds@, *flags, false, u, t, ev) {
                    assert(edges_have_from(first, 0, ev));
                    let y = choose|y: int| 0 <= y < first.len() && #[trigger] edge_view(first[y]) == ev;
                    assert(edge_view(edges@[y]) == ev);
                } else {
                    assert(edges_have_from(edges@, first.len() as int, ev));
                    let y = choose|y: int| first.len() <= y < edges@.len() && #[trigger] edge_view(edges@[y]) == ev;
                    assert(edge_view(edges@[y]) == ev);
                }
            }
        }
    }
    Some(GraphModel { visible, kinds, edges, nodes })
}

/// How many of the first asserted triples give the nodes that the overview
/// types.
pub const SAMPLE_TRIPLES: usize = 1000;

/// How many edges the overview draws at most.
pub const MAX_OVERVIEW_EDGES: usize = 500;

/// Whether `v` is the subject or the object of the triple `t`.
pub open spec fn term_end(t: TermTriple, v: Seq<char>) -> bool {
    term_key(t.s) == v || term_key(t.o) == v
}

/// Whether `v` is the subject or the object of one of the first
/// `SAMPLE_TRIPLES` triples of the listing `ts`.
pub open spec fn sampled(ts: Seq<TermTriple>, v: Seq<char>) -> bool {
    exists|i: int| 0 <= i < ts.len() && i < SAMPLE_TRIPLES && #[trigger] term_end(ts[i], v)
}

/// The edge that the triple `t` gives in the overview, if any: none for a
/// triple of `skip`, else one where the switches let it through.
pub open spec fn overview_edge(
    t: TermTriple,
    skip: Set<Key3>,
    nodes: Seq<Seq<char>>,
    kinds: Seq<Option<NodeType>>,
    flags: ViewFlags,
    inferred: bool,
) -> Option<(Seq<char>, Seq<char>, Seq<char>, bool)> {
    let k = triple_key(t);
    if skip.contains(k) {
        None
    } else if passes(flags, or_individual(kind_in(nodes, kinds, k.0)), object_kind(nodes, kinds, k.2), k.1) {
        Some((k.0, k.2, label_of(k.1), inferred))
    } else {
        None
    }
}

/// The edges that the triples of the listing `ts` give in the overview, in
/// order, until `cap` edges are drawn.
pub open spec fn overview_edges(
    ts: Seq<TermTriple>,
    skip: Set<Key3>,
    nodes: Seq<Seq<char>>,
    kinds: Seq<Option<NodeType>>,
    flags: ViewFlags,
    inferred: bool,
    cap: int,
) -> Seq<(Seq<char>, Seq<char>, Seq<char>, bool)>
    decreases ts.len(),
{
    if ts.len() == 0 {
        Seq::empty()
    } else {
        let prev = overview_edges(ts.drop_last(), skip, nodes, kinds, flags, inferred, cap);
        if prev.len() >= cap {
            prev
        } else {
            match overview_edge(ts.last(), skip, nodes, kinds, flags, inferred) {
                Some(e) => prev.push(e),
                None => prev,
            }
        }
    }
}

/// The models of a list of edges.
pub open spec fn edges_view(v: Seq<GraphEdge>) -> Seq<(Seq<char>, Seq<char>, Seq<char>, bool)> {
    v.map_values(|e: GraphEdge| edge_view(e))
}

/// Appends the edges that the triples of `ts` give in the overview, while
/// fewer than `MAX_OVERVIEW_EDGES` edges are drawn.
fn overview_pass(
    ts: &Vec<TermTriple>,
    skip: Option<&TripleGraph>,
    inferred: bool,
    nodes: &Vec<String>,
    kinds: &Vec<Option<NodeType>>,
    flags: &ViewFlags,
    out: &mut Vec<GraphEdge>,
)
    requires
        nodes@.len() == kinds@.len(),
        strings_view(nodes@).no_duplicates(),
        forall|i: int| 0 <= i < ts@.len() ==> triple_valid(#[trigger] ts@[i]),
        old(out)@.len() <= MAX_OVERVIEW_EDGES,
    ensures
        edges_view(final(out)@) == edges_view(old(out)@) + overview_edges(ts@, graph_minus_set(skip), strings_view(nodes@), kinds@,
            *flags, inferred, MAX_OVERVIEW_EDGES - old(out)@.len()),
        final(out)@.len() <= MAX_OVERVIEW_EDGES,
{
    let ghost ns = strings_view(nodes@);
    let ghost sk = graph_minus_set(skip);
    let ghost base = edges_view(out@);
    let ghost cap = MAX_OVERVIEW_EDGES - out@.len();
    let n = ts.len();
    let mut i: usize = 0;
    assert(ts@.take(0) =~= Seq::<TermTriple>::empty());
    assert(base + Seq::<(Seq<char>, Seq<char>, Seq<char>, bool)>::empty() =~= base);
    while i < n
        invariant
            i <= n,
            n == ts@.len(),
            nodes@.len() == kinds@.len(),
            ns == strings_view(nodes@),
            ns.no_duplicates(),
            sk == graph_minus_set(skip),
            forall|j: int| 0 <= j < ts@.len() ==> triple_valid(#[trigger] ts@[j]),
            base.len() + cap == MAX_OVERVIEW_EDGES,
            out@.len() <= MAX_OVERVIEW_EDGES,
            edges_view(out@) == base + overview_edges(ts@.take(i as int), sk, ns, kinds@, *flags, inferred, cap),
        decreases n - i,
    {
        let ghost prev = overview_edges(ts@.take(i as int), sk, ns, kinds@, *flags, inferred, cap);
        assert(ts@.take(i + 1).drop_last() =~= ts@.take(i as int));
        assert(ts@.take(i + 1).last() == ts@[i as int]);
        assert(edges_view(out@).len() == out@.len());
        if out.len() < MAX_OVERVIEW_EDGES {
            let t = &ts[i];
            let ghost tk = triple_key(ts@[i as int]);
            assert(triple_valid(ts@[i as int]));
            let skipped = match skip {
                Some(sg) => crate::graph::graph_contains(sg, &t.s, &t.p, &t.o),
                None => false,
            };
            let ghost before = out@;
            if !skipped {
                let s = t.s.key();
                let o = t.o.key();
                let p = t.p.key();
                proof {
                    crate::plugins::lemma_literal_key(t.o);
                }
                let st = or_individual_exec(lookup_kind(nodes, kinds, &s));
                let ot = if t.o.is_literal() {
                    NodeType::Literal
                } else {
                    or_individual_exec(lookup_kind(nodes, kinds, &o))
                };
                if passes_exec(flags, st, ot, &p) {
                    proof {
                        lemma_key_ascii_head(t.p);
                    }
                    let label = get_label(p.as_str());
                    let edge = GraphEdge { from: s, to: o, label, is_inferred: inferred };
                    assert(edge_view(edge) == (tk.0, tk.2, label_of(tk.1), inferred));
                    out.push(edge);
                    assert(edges_view(out@) =~= edges_view(before).push(edge_view(edge)));
                }
            }
        }
        i += 1;
    }
    assert(ts@.take(n as int) =~= ts@);
}

/// The triples of `skip`, none where there is no graph to skip.
pub open spec fn graph_minus_set(skip: Option<&TripleGraph>) -> Set<Key3> {
    match skip {
        Some(g) => graph_facts(*g),
        None => Set::empty(),
    }
}

/// The subjects and objects of the first `SAMPLE_TRIPLES` triples of the
/// listing `ts`, each once.
fn sample_nodes(ts: &Vec<TermTriple>) -> (r: Vec<String>)
    ensures
        strings_view(r@).no_duplicates(),
        forall|v: Seq<char>| #[trigger] strings_view(r@).contains(v) <==> sampled(ts@, v),
{
    let none: Vec<String> = Vec::new();
    let mut out: Vec<String> = Vec::new();
    let n = ts.len();
    let mut i: usize = 0;
    while i < n && i < SAMPLE_TRIPLES
        invariant
            i <= n,
            i <= SAMPLE_TRIPLES,
            n == ts@.len(),
            none@.len() == 0,
            strings_view(out@).no_duplicates(),
            forall|v: Seq<char>| #[trigger] strings_view(out@).contains(v)
                <==> exists|j: int| 0 <= j < i && #[trigger] term_end(ts@[j], v),
        decreases n - i,
    {
        assert(forall|w: Seq<char>| !strings_view(none@).contains(w));
        push_new(&none, &mut out, ts[i].s.key());
        push_new(&none, &mut out, ts[i].o.key());
        proof {
            assert forall|v: Seq<char>| #[trigger] strings_view(out@).contains(v)
                <==> exists|j: int| 0 <= j < i + 1 && #[trigger] term_end(ts@[j], v) by {
                if exists|j: int| 0 <= j < i + 1 && #[trigger] term_end(ts@[j], v) {
                    let j = choose|j: int| 0 <= j < i + 1 && #[trigger] term_end(ts@[j], v);
                    if j < i {
                        assert(exists|j: int| 0 <= j < i && #[trigger] term_end(ts@[j], v));
                    }
                }
                if strings_view(out@).contains(v) && !(exists|j: int| 0 <= j < i && #[trigger] term_end(ts@[j], v)) {
                    assert(term_end(ts@[i as int], v));
                }
            }
        }
        i += 1;
    }
    proof {
        assert forall|v: Seq<char>| #[trigger] strings_view(out@).contains(v) <==> sampled(ts@, v) by {
            if sampled(ts@, v) {
                let j = choose|j: int| 0 <= j < ts@.len() && j < SAMPLE_TRIPLES && #[trigger] term_end(ts@[j], v);
                assert(j < i);
            }
        }
    }
    out
}

/// Whether `ts` lists every triple of `g` once, each valid.
pub open spec fn lists_graph(g: TripleGraph, ts: Seq<TermTriple>) -> bool {
    &&& forall|i: int| 0 <= i < ts.len() ==> graph_facts(g).contains(#[trigger] triple_key(ts[i])) && triple_valid(ts[i])
    &&& forall|f: Key3| #[trigger] graph_facts(g).contains(f) ==> exists|i: int| 0 <= i < ts.len() && triple_key(ts[i]) == f
    &&& ts.map_values(|t: TermTriple| triple_key(t)).no_duplicates()
}

/// Whether `m` is what the overview draws from the asserted triples listed
/// by `la` and the inferred ones listed by `li`: the nodes of the first
/// asserted triples with kinds from their types; the edges that the asserted
/// triples give, in order, then, where inferred triples are shown, those
/// that the inferred triples not asserted give, at most `MAX_OVERVIEW_EDGES`
/// in all; and the ends of those edges, each once, with their kinds.
pub open spec fn overview_model(memory: EngineMemory, flags: ViewFlags, la: Seq<TermTriple>, li: Seq<TermTriple>, m: GraphModel) -> bool {
    let vis = strings_view(m.visible@);
    let names = m.nodes@.map_values(|n: (String, NodeType)| n.0@);
    let first = overview_edges(la, Set::empty(), vis, m.kinds@, flags, false, MAX_OVERVIEW_EDGES as int);
    let second = if flags.show_inferred {
        overview_edges(li, graph_facts(memory.asserted_graph), vis, m.kinds@, flags, true, MAX_OVERVIEW_EDGES - first.len())
    } else {
        Seq::empty()
    };
    &&& vis.no_duplicates()
    &&& forall|v: Seq<char>| #[trigger] vis.contains(v) <==> sampled(la, v)
    &&& m.kinds@.len() == m.visible@.len()
    &&& forall|x: int| 0 <= x < m.visible@.len() ==> kind_allowed(graph_facts(memory.main_graph), #[trigger] m.visible@[x]@, m.kinds@[x])
    &&& edges_view(m.edges@) == first + second
    &&& names.no_duplicates()
    &&& forall|v: Seq<char>| names.contains(v) <==> edge_end(m.edges@, v)
    &&& forall|x: int| 0 <= x < m.nodes@.len() ==> #[trigger] m.nodes@[x].1 == shown_kind(vis, m.kinds@, m.nodes@[x].0@)
}

/// The graph that the view draws outside focus mode: an overview of the
/// first triples of the graphs, in the order in which they list their
/// triples; none where the IRIs that give nodes their kinds are refused.
pub fn overview_graph(memory: &EngineMemory, flags: &ViewFlags) -> (r: Option<GraphModel>)
    ensures
        r is None <==> !view_vocab_valid(),
        r matches Some(m) ==> exists|la: Seq<TermTriple>, li: Seq<TermTriple>|
            #![trigger lists_graph(memory.asserted_graph, la), lists_graph(memory.inferred_graph, li)] {
            &&& lists_graph(memory.asserted_graph, la)
            &&& lists_graph(memory.inferred_graph, li)
            &&& overview_model(*memory, *flags, la, li, m)
        },
{
    if !(crate::plugins::check_kinds() && crate::graph::check_iri(RDFS_CLASS)) {
        return None;
    }
    let la = graph_match(&memory.asserted_graph, None, None, None);
    let li = graph_match(&memory.inferred_graph, None, None, None);
    proof {
        assert forall|i: int| 0 <= i < la@.len() implies graph_facts(memory.asserted_graph).contains(#[trigger] triple_key(la@[i]))
            && triple_valid(la@[i]) by {
            assert(graph_facts(memory.asserted_graph).contains(triple_key(la@[i])));
        }
        assert forall|f: Key3| #[trigger] graph_facts(memory.asserted_graph).contains(f) implies exists|i: int| 0 <= i < la@.len()
            && triple_key(la@[i]) == f by {
            assert(fact_matches(f, None, None, None));
        }
        assert forall|i: int| 0 <= i < li@.len() implies graph_facts(memory.inferred_graph).contains(#[trigger] triple_key(li@[i]))
            && triple_valid(li@[i]) by {
            assert(graph_facts(memory.inferred_graph).contains(triple_key(li@[i])));
        }
        assert forall|f: Key3| #[trigger] graph_facts(memory.inferred_graph).contains(f) implies exists|i: int| 0 <= i < li@.len()
            && triple_key(li@[i]) == f by {
            assert(fact_matches(f, None, None, None));
        }
        assert(lists_graph(memory.asserted_graph, la@));
        assert(lists_graph(memory.inferred_graph, li@));
        assert forall|i: int| 0 <= i < la@.len() implies triple_valid(#[trigger] la@[i]) by {
            assert(graph_facts(memory.asserted_graph).contains(triple_key(la@[i])));
        }
        assert forall|i: int| 0 <= i < li@.len() implies triple_valid(#[trigger] li@[i]) by {
            assert(graph_facts(memory.inferred_graph).contains(triple_key(li@[i])));
        }
    }
    let visible = sample_nodes(&la);
    let kinds = node_kinds(&memory.main_graph, &visible);
    let mut edges: Vec<GraphEdge> = Vec::new();
    assert(edges_view(edges@) =~= Seq::<(Seq<char>, Seq<char>, Seq<char>, bool)>::empty());
    overview_pass(&la, None, false, &visible, &kinds, flags, &mut edges);
    let ghost first = edges_view(edges@);
    assert(graph_minus_set(None) =~= Set::<Key3>::empty());
    assert(first =~= overview_edges(la@, Set::empty(), strings_view(visible@), kinds@, *flags, false, MAX_OVERVIEW_EDGES as int));
    if flags.show_inferred {
        overview_pass(&li, Some(&memory.asserted_graph), true, &visible, &kinds, flags, &mut edges);
        assert(first.len() == MAX_OVERVIEW_EDGES - (MAX_OVERVIEW_EDGES - first.len()));
    } else {
        assert(edges_view(edges@) =~= first + Seq::<(Seq<char>, Seq<char>, Seq<char>, bool)>::empty());
    }
    let nodes = edge_ends(&edges, &visible, &kinds);
    let m = GraphModel { visible, kinds, edges, nodes };
    assert(overview_model(*memory, *flags, la@, li@, m));
    Some(m)
}

/// The graph that the view draws: the focus around the selected and
/// expanded nodes in focus mode, the overview otherwise; none where the
/// IRIs that give nodes their kinds are refused.
pub fn view_graph(memory: &EngineMemory, flags: &ViewFlags, selected: &Option<String>, expanded: &Vec<String>) -> (r: Option<GraphModel>)
    ensures
        r is None <==> !view_vocab_valid(),
        flags.focus_mode ==> (r matches Some(m) ==> focus_model(*memory, *flags, focus_roots(*selected, expanded@), m)),
        !flags.focus_mode ==> (r matches Some(m) ==> exists|la: Seq<TermTriple>, li: Seq<TermTriple>|
            #![trigger lists_graph(memory.asserted_graph, la), lists_graph(memory.inferred_graph, li)] {
            &&& lists_graph(memory.asserted_graph, la)
            &&& lists_graph(memory.inferred_graph, li)
            &&& overview_model(*memory, *flags, la, li, m)
        }),
        r matches Some(m) ==> forall|y: int| 0 <= y < m.edges@.len()
            ==> edge_respects_switches(*flags, strings_view(m.visible@), m.kinds@, #[trigger] m.edges@[y]),
        r matches Some(m) ==> forall|y: int| 0 <= y < m.edges@.len() ==> edge_drawn_from(
            graph_facts(memory.asserted_graph).union(graph_facts(memory.inferred_graph)), *flags, #[trigger] m.edges@[y]),
        !flags.show_individuals ==> (r matches Some(m) ==> forall|x: int| 0 <= x < m.nodes@.len()
            ==> (#[trigger] m.nodes@[x]).1 != NodeType::Individual),
        !flags.show_schema ==> (r matches Some(m) ==> forall|x: int| 0 <= x < m.nodes@.len()
            ==> (#[trigger] m.nodes@[x]).1 != NodeType::Class),
{
    if flags.focus_mode {
        let r = focus_graph(memory, flags, selected, expanded);
        proof {
            if r is Some {
                law_focus_filters(*memory, *flags, focus_roots(*selected, expanded@), r->0);
            }
        }
        r
    } else {
        let r = overview_graph(memory, flags);
        proof {
            if r is Some {
                let m = r->0;
                let (la, li) = choose|la: Seq<TermTriple>, li: Seq<TermTriple>|
                    #![trigger lists_graph(memory.asserted_graph, la), lists_graph(memory.inferred_graph, li)] {
                    &&& lists_graph(memory.asserted_graph, la)
                    &&& lists_graph(memory.inferred_graph, li)
                    &&& overview_model(*memory, *flags, la, li, m)
                };
                law_overview_filters(*memory, *flags, la, li, m);
            }
        }
        r
    }
}

/// What the switches keep out of a drawn edge: with individuals hidden,
/// neither end is drawn as an individual; with literals hidden, its target
/// is no literal; with the schema hidden, neither end is drawn as a class
/// and its source is not drawn as a property.
pub open spec fn edge_respects_switches(flags: ViewFlags, vis: Seq<Seq<char>>, kinds: Seq<Option<NodeType>>, e: GraphEdge) -> bool {
    let sk = shown_kind(vis, kinds, e.from@);
    let ok = shown_kind(vis, kinds, e.to@);
    &&& !flags.show_individuals ==> sk != NodeType::Individual && ok != NodeType::Individual
    &&& !flags.show_literals ==> !is_literal_key(e.to@)
    &&& !flags.show_schema ==> sk != NodeType::Class && sk != NodeType::Property && ok != NodeType::Class
}

/// Whether the drawn edge `e` stands for the triple `t` of `g`: from its
/// subject to its object, labelled with its predicate.
pub open spec fn edge_stands_for(g: Set<Key3>, e: GraphEdge, t: Key3) -> bool {
    g.contains(t) && t.0 == canon(e.from@) && t.2 == e.to@ && e.label@ == label_of(t.1)
}

/// Whether the drawn edge `e` stands for a triple of `g` whose predicate,
/// while the RDF, RDFS and OWL vocabulary is hidden, is not part of it.
pub open spec fn edge_drawn_from(g: Set<Key3>, flags: ViewFlags, e: GraphEdge) -> bool {
    exists|t: Key3| #[trigger] edge_stands_for(g, e, t) && (!flags.show_system ==> !is_system_predicate(t.1))
}

/// An edge from `u` to `o` by the predicate `p` that the switches let
/// through is drawn with ends of the kinds the switches allow.
proof fn lemma_edge_switches(
    main: Set<Key3>,
    vis: Seq<Seq<char>>,
    kinds: Seq<Option<NodeType>>,
    flags: ViewFlags,
    u: Seq<char>,
    o: Seq<char>,
    p: Seq<char>,
    e: GraphEdge,
)
    requires
        passes(flags, or_individual(kind_in(vis, kinds, u)), object_kind(vis, kinds, o), p),
        kinds.len() == vis.len(),
        forall|x: int| 0 <= x < vis.len() ==> kind_allowed(main, #[trigger] vis[x], kinds[x]),
        e.from@ == u,
        e.to@ == o,
    ensures
        edge_respects_switches(flags, vis, kinds, e),
{
    if exists|x: int| 0 <= x < vis.len() && vis[x] == o {
        let x = choose|x: int| 0 <= x < vis.len() && vis[x] == o;
        assert(kind_allowed(main, vis[x], kinds[x]));
    }
    if exists|x: int| 0 <= x < vis.len() && vis[x] == u {
        let x = choose|x: int| 0 <= x < vis.len() && vis[x] == u;
        assert(kind_allowed(main, vis[x], kinds[x]));
    }
}

/// Every node drawn is an end of a drawn edge, so it is drawn with a kind
/// that one of those edges allows.
proof fn lemma_nodes_switches(flags: ViewFlags, vis: Seq<Seq<char>>, kinds: Seq<Option<NodeType>>, m: GraphModel)
    requires
        forall|v: Seq<char>| m.nodes@.map_values(|n: (String, NodeType)| n.0@).contains(v) <==> edge_end(m.edges@, v),
        forall|x: int| 0 <= x < m.nodes@.len() ==> #[trigger] m.nodes@[x].1 == shown_kind(vis, kinds, m.nodes@[x].0@),
        forall|y: int| 0 <= y < m.edges@.len() ==> edge_respects_switches(flags, vis, kinds, #[trigger] m.edges@[y]),
    ensures
        !flags.show_individuals ==> forall|x: int| 0 <= x < m.nodes@.len() ==> (#[trigger] m.nodes@[x]).1 != NodeType::Individual,
        !flags.show_schema ==> forall|x: int| 0 <= x < m.nodes@.len() ==> (#[trigger] m.nodes@[x]).1 != NodeType::Class,
{
    let names = m.nodes@.map_values(|n: (String, NodeType)| n.0@);
    assert forall|x: int| 0 <= x < m.nodes@.len() implies {
        &&& !flags.show_individuals ==> (#[trigger] m.nodes@[x]).1 != NodeType::Individual
        &&& !flags.show_schema ==> m.nodes@[x].1 != NodeType::Class
    } by {
        let v = m.nodes@[x].0@;
        assert(names[x] == v);
        assert(names.contains(v));
        assert(edge_end(m.edges@, v));
        let y = choose|y: int| 0 <= y < m.edges@.len() && #[trigger] touches(m.edges@[y], v);
        assert(edge_respects_switches(flags, vis, kinds, m.edges@[y]));
    }
}

/// The switches hold in the focus mode: every drawn edge keeps to them and
/// stands for an asserted or inferred triple, whose predicate is no RDF,
/// RDFS or OWL term while those are hidden; no node is drawn as an
/// individual while individuals are hidden, and none as a class while the
/// schema is hidden. An edge with an individual at either end is left out
/// when individuals are hidden.
pub proof fn law_focus_filters(memory: EngineMemory, flags: ViewFlags, roots: Set<Seq<char>>, m: GraphModel)
    requires
        focus_model(memory, flags, roots, m),
    ensures
        forall|y: int| 0 <= y < m.edges@.len()
            ==> edge_respects_switches(flags, strings_view(m.visible@), m.kinds@, #[trigger] m.edges@[y]),
        !flags.show_individuals ==> forall|x: int| 0 <= x < m.nodes@.len() ==> (#[trigger] m.nodes@[x]).1 != NodeType::Individual,
        !flags.show_schema ==> forall|x: int| 0 <= x < m.nodes@.len() ==> (#[trigger] m.nodes@[x]).1 != NodeType::Class,
        forall|y: int| 0 <= y < m.edges@.len() ==> edge_drawn_from(
            graph_facts(memory.asserted_graph).union(graph_facts(memory.inferred_graph)), flags, #[trigger] m.edges@[y]),
{
    let a = graph_facts(memory.asserted_graph);
    let i = graph_facts(memory.inferred_graph);
    let vis = strings_view(m.visible@);
    let main = graph_facts(memory.main_graph);
    assert forall|x: int| 0 <= x < vis.len() implies kind_allowed(main, #[trigger] vis[x], m.kinds@[x]) by {
        assert(kind_allowed(main, m.visible@[x]@, m.kinds@[x]));
    }
    assert forall|y: int| 0 <= y < m.edges@.len() implies edge_respects_switches(flags, vis, m.kinds@, #[trigger] m.edges@[y]) by {
        let ev = edge_view(m.edges@[y]);
        assert(edges_have(m.edges@, ev));
        let (u, t) = choose|u: Seq<char>, t: Key3| vis.contains(u) && #[trigger] focus_edge(a, i, vis, m.kinds@, flags, u, t, ev);
        lemma_edge_switches(main, vis, m.kinds@, flags, u, t.2, t.1, m.edges@[y]);
    }
    assert forall|y: int| 0 <= y < m.edges@.len() implies edge_drawn_from(a.union(i), flags, #[trigger] m.edges@[y]) by {
        let ev = edge_view(m.edges@[y]);
        assert(edges_have(m.edges@, ev));
        let (u, t) = choose|u: Seq<char>, t: Key3| vis.contains(u) && #[trigger] focus_edge(a, i, vis, m.kinds@, flags, u, t, ev);
        assert(edge_stands_for(a.union(i), m.edges@[y], t));
    }
    lemma_nodes_switches(flags, vis, m.kinds@, m);
}

/// Every edge of the overview is one that the switches let through.
proof fn lemma_overview_passes(
    ts: Seq<TermTriple>,
    skip: Set<Key3>,
    nodes: Seq<Seq<char>>,
    kinds: Seq<Option<NodeType>>,
    flags: ViewFlags,
    inferred: bool,
    cap: int,
)
    ensures
        forall|j: int| 0 <= j < overview_edges(ts, skip, nodes, kinds, flags, inferred, cap).len() ==> exists|k: Key3| {
            &&& #[trigger] overview_edges(ts, skip, nodes, kinds, flags, inferred, cap)[j] == (k.0, k.2, label_of(k.1), inferred)
            &&& passes(flags, or_individual(kind_in(nodes, kinds, k.0)), object_kind(nodes, kinds, k.2), k.1)
            &&& exists|x: int| 0 <= x < ts.len() && #[trigger] triple_key(ts[x]) == k
        },
    decreases ts.len(),
{
    if ts.len() > 0 {
        lemma_overview_passes(ts.drop_last(), skip, nodes, kinds, flags, inferred, cap);
        let prev = overview_edges(ts.drop_last(), skip, nodes, kinds, flags, inferred, cap);
        let cur = overview_edges(ts, skip, nodes, kinds, flags, inferred, cap);
        assert forall|j: int| 0 <= j < cur.len() implies exists|k: Key3| {
            &&& #[trigger] cur[j] == (k.0, k.2, label_of(k.1), inferred)
            &&& passes(flags, or_individual(kind_in(nodes, kinds, k.0)), object_kind(nodes, kinds, k.2), k.1)
            &&& exists|x: int| 0 <= x < ts.len() && #[trigger] triple_key(ts[x]) == k
        } by {
            if j < prev.len() {
                assert(cur[j] == prev[j]);
                let k = choose|k: Key3| {
                    &&& #[trigger] prev[j] == (k.0, k.2, label_of(k.1), inferred)
                    &&& passes(flags, or_individual(kind_in(nodes, kinds, k.0)), object_kind(nodes, kinds, k.2), k.1)
                    &&& exists|x: int| 0 <= x < ts.drop_last().len() && #[trigger] triple_key(ts.drop_last()[x]) == k
                };
                let x = choose|x: int| 0 <= x < ts.drop_last().len() && #[trigger] triple_key(ts.drop_last()[x]) == k;
                assert(ts.drop_last()[x] == ts[x]);
            } else {
                let k = triple_key(ts.last());
                assert(cur[j] == (k.0, k.2, label_of(k.1), inferred));
                assert(triple_key(ts[ts.len() - 1]) == k);
            }
        }
    }
}

/// The switches hold in the overview: every drawn edge keeps to them and
/// stands for an asserted or inferred triple, whose predicate is no RDF,
/// RDFS or OWL term while those are hidden; no node is drawn as an
/// individual while individuals are hidden, and none as a class while the
/// schema is hidden. An edge with an individual at either end is left out
/// when individuals are hidden.
pub proof fn law_overview_filters(memory: EngineMemory, flags: ViewFlags, la: Seq<TermTriple>, li: Seq<TermTriple>, m: GraphModel)
    requires
        lists_graph(memory.asserted_graph, la),
        lists_graph(memory.inferred_graph, li),
        overview_model(memory, flags, la, li, m),
    ensures
        forall|y: int| 0 <= y < m.edges@.len()
            ==> edge_respects_switches(flags, strings_view(m.visible@), m.kinds@, #[trigger] m.edges@[y]),
        !flags.show_individuals ==> forall|x: int| 0 <= x < m.nodes@.len() ==> (#[trigger] m.nodes@[x]).1 != NodeType::Individual,
        !flags.show_schema ==> forall|x: int| 0 <= x < m.nodes@.len() ==> (#[trigger] m.nodes@[x]).1 != NodeType::Class,
        forall|y: int| 0 <= y < m.edges@.len() ==> edge_drawn_from(
            graph_facts(memory.asserted_graph).union(graph_facts(memory.inferred_graph)), flags, #[trigger] m.edges@[y]),
{
    let vis = strings_view(m.visible@);
    let main = graph_facts(memory.main_graph);
    let first = overview_edges(la, Set::empty(), vis, m.kinds@, flags, false, MAX_OVERVIEW_EDGES as int);
    let second = if flags.show_inferred {
        overview_edges(li, graph_facts(memory.asserted_graph), vis, m.kinds@, flags, true, MAX_OVERVIEW_EDGES - first.len())
    } else {
        Seq::empty()
    };
    lemma_overview_passes(la, Set::empty(), vis, m.kinds@, flags, false, MAX_OVERVIEW_EDGES as int);
    lemma_overview_passes(li, graph_facts(memory.asserted_graph), vis, m.kinds@, flags, true, MAX_OVERVIEW_EDGES - first.len());
    assert forall|x: int| 0 <= x < vis.len() implies kind_allowed(main, #[trigger] vis[x], m.kinds@[x]) by {
        assert(kind_allowed(main, m.visible@[x]@, m.kinds@[x]));
    }
    let g = graph_facts(memory.asserted_graph).union(graph_facts(memory.inferred_graph));
    assert forall|y: int| 0 <= y < m.edges@.len() implies edge_respects_switches(flags, vis, m.kinds@, #[trigger] m.edges@[y])
        && edge_drawn_from(g, flags, m.edges@[y]) by {
        let ev = edge_view(m.edges@[y]);
        let all = first + second;
        assert(edges_view(m.edges@).len() == m.edges@.len());
        assert(edges_view(m.edges@)[y] == ev);
        assert(all[y] == ev);
        if y < first.len() {
            assert(first[y] == ev);
            let k = choose|k: Key3| {
                &&& #[trigger] first[y] == (k.0, k.2, label_of(k.1), false)
                &&& passes(flags, or_individual(kind_in(vis, m.kinds@, k.0)), object_kind(vis, m.kinds@, k.2), k.1)
                &&& exists|x: int| 0 <= x < la.len() && #[trigger] triple_key(la[x]) == k
            };
            lemma_edge_switches(main, vis, m.kinds@, flags, k.0, k.2, k.1, m.edges@[y]);
            let x = choose|x: int| 0 <= x < la.len() && #[trigger] triple_key(la[x]) == k;
            assert(graph_facts(memory.asserted_graph).contains(triple_key(la[x])) && triple_valid(la[x]));
            crate::term::lemma_term_key_tagged(la[x].s);
            assert(edge_stands_for(g, m.edges@[y], k));
        } else {
            assert(all[y] == second[y - first.len()]);
            assert(flags.show_inferred);
            let k = choose|k: Key3| {
                &&& #[trigger] second[y - first.len()] == (k.0, k.2, label_of(k.1), true)
                &&& passes(flags, or_individual(kind_in(vis, m.kinds@, k.0)), object_kind(vis, m.kinds@, k.2), k.1)
                &&& exists|x: int| 0 <= x < li.len() && #[trigger] triple_key(li[x]) == k
            };
            lemma_edge_switches(main, vis, m.kinds@, flags, k.0, k.2, k.1, m.edges@[y]);
            let x = choose|x: int| 0 <= x < li.len() && #[trigger] triple_key(li[x]) == k;
            assert(graph_facts(memory.inferred_graph).contains(triple_key(li[x])) && triple_valid(li[x]));
            crate::term::lemma_term_key_tagged(li[x].s);
            assert(edge_stands_for(g, m.edges@[y], k));
        }
    }
    lemma_nodes_switches(flags, vis, m.kinds@, m);
}

/// The type `t` gives the kind `k`: `owl:Class` and `rdfs:Class` give
/// classes, `owl:ObjectProperty` and `owl:DatatypeProperty` give
/// properties, `owl:NamedIndividual` gives individuals.
pub open spec fn gives_kind(t: Seq<char>, k: NodeType) -> bool {
    ||| t == iri_key(OWL_CLASS) && k == NodeType::Class
    ||| t == iri_key(RDFS_CLASS) && k == NodeType::Class
    ||| t == iri_key(OWL_OBJECT_PROPERTY) && k == NodeType::Property
    ||| t == iri_key(OWL_DATATYPE_PROPERTY) && k == NodeType::Property
    ||| t == iri_key(OWL_NAMED_INDIVIDUAL) && k == NodeType::Individual
}

/// Whether `t` is one of the types that give a node its kind.
pub open spec fn kind_giving(t: Seq<char>) -> bool {
    ||| t == iri_key(OWL_CLASS)
    ||| t == iri_key(RDFS_CLASS)
    ||| t == iri_key(OWL_OBJECT_PROPERTY)
    ||| t == iri_key(OWL_DATATYPE_PROPERTY)
    ||| t == iri_key(OWL_NAMED_INDIVIDUAL)
}

/// The five IRIs that give kinds are told apart by their lengths.
proof fn lemma_kind_iris_differ()
    ensures
        iri_key(OWL_CLASS).len() == 37,
        iri_key(RDFS_CLASS).len() == 44,
        iri_key(OWL_OBJECT_PROPERTY).len() == 46,
        iri_key(OWL_NAMED_INDIVIDUAL).len() == 47,
        iri_key(OWL_DATATYPE_PROPERTY).len() == 48,
{
    reveal_strlit("http://www.w3.org/2002/07/owl#Class");
    reveal_strlit("http://www.w3.org/2000/01/rdf-schema#Class");
    reveal_strlit("http://www.w3.org/2002/07/owl#ObjectProperty");
    reveal_strlit("http://www.w3.org/2002/07/owl#NamedIndividual");
    reveal_strlit("http://www.w3.org/2002/07/owl#DatatypeProperty");
}

/// A node takes its kind from its types: a node, neither blank nor a
/// literal, whose only kind-giving type is `t` has the kind that `t`
/// gives, and one with no kind-giving type has none. So a node typed
/// `owl:DatatypeProperty` alone is a property.
pub proof fn law_kind_from_type(main: Set<Key3>, u: Seq<char>, r: Option<NodeType>, t: Seq<char>, k: NodeType)
    requires
        kind_allowed(main, u, r),
        !starts_blank_label(u),
        !is_literal_key(u),
        key_valid(canon(u)),
    ensures
        gives_kind(t, k) && main.contains((canon(u), iri_key(RDF_TYPE), t))
            && (forall|o: Seq<char>| #[trigger] main.contains((canon(u), iri_key(RDF_TYPE), o)) && kind_giving(o) ==> o == t)
            ==> r == Some(k),
        (forall|o: Seq<char>| #[trigger] main.contains((canon(u), iri_key(RDF_TYPE), o)) ==> !kind_giving(o)) ==> r is None,
{
    lemma_kind_iris_differ();
    match r {
        None => {},
        Some(j) => {
            let o = choose|o: Seq<char>| #[trigger] main.contains((canon(u), iri_key(RDF_TYPE), o)) && kind_of_type(o) == Some(j);
            assert(kind_giving(o));
        },
    }
    if gives_kind(t, k) && main.contains((canon(u), iri_key(RDF_TYPE), t))
        && (forall|o: Seq<char>| #[trigger] main.contains((canon(u), iri_key(RDF_TYPE), o)) && kind_giving(o) ==> o == t) {
        assert(kind_giving(t));
        if r is None {
            assert(kind_of_type(t) is None);
        }
    }
}

/// In the focus mode, a node whose only kind-giving type is `t` is listed,
/// and drawn, with the kind that `t` gives.
pub proof fn law_focus_kind_from_type(memory: EngineMemory, flags: ViewFlags, roots: Set<Seq<char>>, m: GraphModel, x: int, t: Seq<char>, k: NodeType)
    requires
        focus_model(memory, flags, roots, m),
        0 <= x < m.visible@.len(),
        !starts_blank_label(m.visible@[x]@),
        !is_literal_key(m.visible@[x]@),
        key_valid(canon(m.visible@[x]@)),
        gives_kind(t, k),
        graph_facts(memory.main_graph).contains((canon(m.visible@[x]@), iri_key(RDF_TYPE), t)),
        forall|o: Seq<char>| #[trigger] graph_facts(memory.main_graph).contains((canon(m.visible@[x]@), iri_key(RDF_TYPE), o))
            && kind_giving(o) ==> o == t,
    ensures
        m.kinds@[x] == Some(k),
        shown_kind(strings_view(m.visible@), m.kinds@, m.visible@[x]@) == k,
{
    let vis = strings_view(m.visible@);
    let u = m.visible@[x]@;
    law_kind_from_type(graph_facts(memory.main_graph), u, m.kinds@[x], t, k);
    assert(vis[x] == u);
    let y = choose|y: int| 0 <= y < vis.len() && vis[y] == u;
    assert(y == x);
}

/// The nodes the focus starts from are always shown, and a deeper focus
/// shows every node a shallower one shows.
pub proof fn law_focus_grows(a: Set<Key3>, i: Set<Key3>, roots: Set<Seq<char>>, d: nat, e: nat)
    requires
        d <= e,
    ensures
        roots.subset_of(reach(a, i, roots, d)),
        reach(a, i, roots, d).subset_of(reach(a, i, roots, e)),
    decreases e,
{
    if d < e {
        law_focus_grows(a, i, roots, d, (e - 1) as nat);
    } else if d > 0 {
        law_focus_grows(a, i, roots, (d - 1) as nat, (d - 1) as nat);
    }
}

/// The overview stops at `cap` edges.
proof fn lemma_overview_cap(
    ts: Seq<TermTriple>,
    skip: Set<Key3>,
    nodes: Seq<Seq<char>>,
    kinds: Seq<Option<NodeType>>,
    flags: ViewFlags,
    inferred: bool,
    cap: int,
)
    requires
        cap >= 0,
    ensures
        overview_edges(ts, skip, nodes, kinds, flags, inferred, cap).len() <= cap,
    decreases ts.len(),
{
    if ts.len() > 0 {
        lemma_overview_cap(ts.drop_last(), skip, nodes, kinds, flags, inferred, cap);
    }
}

/// The overview draws at most `MAX_OVERVIEW_EDGES` edges.
pub proof fn law_overview_bounded(memory: EngineMemory, flags: ViewFlags, la: Seq<TermTriple>, li: Seq<TermTriple>, m: GraphModel)
    requires
        overview_model(memory, flags, la, li, m),
    ensures
        m.edges@.len() <= MAX_OVERVIEW_EDGES,
{
    let vis = strings_view(m.visible@);
    let first = overview_edges(la, Set::empty(), vis, m.kinds@, flags, false, MAX_OVERVIEW_EDGES as int);
    lemma_overview_cap(la, Set::empty(), vis, m.kinds@, flags, false, MAX_OVERVIEW_EDGES as int);
    if flags.show_inferred {
        lemma_overview_cap(li, graph_facts(memory.asserted_graph), vis, m.kinds@, flags, true, MAX_OVERVIEW_EDGES - first.len());
    }
    assert(edges_view(m.edges@).len() == m.edges@.len());
}

} // verus!
