use vstd::prelude::*;

verus! {

/// An RDF term as the reasoner sees it: an IRI, a literal (by its lexical
/// form), a blank node (by its identifier), or any other kind of term.
#[derive(Debug)]
pub enum RdfTerm {
    Iri(String),
    Literal(String),
    Blank(String),
    Other,
}

/// The two characters that start the key of an IRI.
pub open spec fn iri_tag() -> Seq<char> {
    seq!['i', ':']
}

/// The two characters that start the key of a literal.
pub open spec fn literal_tag() -> Seq<char> {
    seq!['l', ':']
}

/// The two characters that start the key of a blank node.
pub open spec fn blank_tag() -> Seq<char> {
    seq!['b', ':']
}

/// The key of the terms that are neither IRIs, literals nor blank nodes.
pub open spec fn other_key() -> Seq<char> {
    seq!['b', ':', 'a', 'n', 'o', 'n']
}

/// The string that stands for a term in facts and in the user interface:
/// a tag of two characters followed by the term's text.
pub open spec fn term_key(t: RdfTerm) -> Seq<char> {
    match t {
        RdfTerm::Iri(s) => iri_tag() + s@,
        RdfTerm::Literal(s) => literal_tag() + s@,
        RdfTerm::Blank(s) => blank_tag() + s@,
        RdfTerm::Other => other_key(),
    }
}

/// Whether `s` starts with one of the three tags.
pub open spec fn has_tag(s: Seq<char>) -> bool {
    s.len() >= 2 && s[1] == ':' && (s[0] == 'i' || s[0] == 'l' || s[0] == 'b')
}

/// The key of the term that a string denotes: a tagged string stands for
/// itself, and an untagged one is the text of an IRI.
pub open spec fn canon(s: Seq<char>) -> Seq<char> {
    if has_tag(s) {
        s
    } else {
        iri_tag() + s
    }
}

/// Whether a term can be stored in a graph: the "other" terms cannot.
pub open spec fn storable(t: RdfTerm) -> bool {
    !(t is Other)
}

/// Every storable term's key is tagged, and keys tell storable terms apart.
pub proof fn lemma_term_key_tagged(t: RdfTerm)
    requires
        storable(t),
    ensures
        has_tag(term_key(t)),
        canon(term_key(t)) == term_key(t),
{
}

/// Builds `tag` followed by `text`.
fn tagged(tag: &str, text: &str) -> (r: String)
    ensures
        r@ == tag@ + text@,
{
    let mut r = String::new();
    r.append(tag);
    r.append(text);
    r
}

impl RdfTerm {
    /// The key of this term: `i:` and the IRI, `l:` and the lexical form,
    /// `b:` and the blank node's identifier, and `b:anon` for any other
    /// term.
    pub fn key(&self) -> (r: String)
        ensures
            r@ == term_key(*self),
    {
        proof {
            reveal_strlit("i:");
            reveal_strlit("l:");
            reveal_strlit("b:");
            reveal_strlit("b:anon");
        }
        match self {
            RdfTerm::Iri(s) => tagged("i:", s.as_str()),
            RdfTerm::Literal(s) => tagged("l:", s.as_str()),
            RdfTerm::Blank(s) => tagged("b:", s.as_str()),
            RdfTerm::Other => "b:anon".to_owned(),
        }
    }

    /// A copy of this term.
    pub fn duplicate(&self) -> (r: RdfTerm)
        ensures
            term_key(r) == term_key(*self),
            storable(r) == storable(*self),
    {
        match self {
            RdfTerm::Iri(s) => RdfTerm::Iri(s.clone()),
            RdfTerm::Literal(s) => RdfTerm::Literal(s.clone()),
            RdfTerm::Blank(s) => RdfTerm::Blank(s.clone()),
            RdfTerm::Other => RdfTerm::Other,
        }
    }

    /// Whether this term is a literal.
    pub fn is_literal(&self) -> (r: bool)
        ensures
            r == (*self is Literal),
    {
        matches!(self, RdfTerm::Literal(_))
    }

    /// Whether two terms have the same key.
    pub fn same(&self, other: &RdfTerm) -> (r: bool)
        ensures
            r == (term_key(*self) == term_key(*other)),
    {
        let a = self.key();
        let b = other.key();
        a == b
    }
}

} // verus!
