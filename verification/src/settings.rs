use vstd::prelude::*;
use crate::rules::lists::{lemma_strings_view_push, strings_view};

verus! {

/// The language of the user interface.
#[derive(Clone, Copy, PartialEq, Eq, Debug)]
pub enum Language {
    English,
    Korean,
}

/// Which families of rules the reasoner applies besides the core rules.
#[derive(Clone, Copy, Debug)]
pub struct ReasonerRules {
    pub equality: bool,
    pub property_chains: bool,
    pub class_expressions: bool,
    pub restrictions: bool,
    pub datatypes: bool,
    pub schema: bool,
}

impl Default for ReasonerRules {
    /// All families enabled.
    fn default() -> (r: Self)
        ensures
            r.equality && r.property_chains && r.class_expressions && r.restrictions && r.datatypes && r.schema,
    {
        ReasonerRules {
            equality: true,
            property_chains: true,
            class_expressions: true,
            restrictions: true,
            datatypes: true,
            schema: true,
        }
    }
}

/// How many recent files are remembered.
pub const MAX_RECENT: usize = 5;

/// Whether two texts name the same path, compared component by component
/// as `std::path::Path` compares paths.
pub uninterp spec fn paths_equal(a: Seq<char>, b: Seq<char>) -> bool;

/// `Path == Path`: whether two texts name the same path.
#[verifier::external_body]
fn same_path(a: &str, b: &str) -> (r: bool)
    ensures
        r == paths_equal(a@, b@),
{
    std::path::Path::new(a) == std::path::Path::new(b)
}

/// The recent files after `path` was opened: `path` first, then the
/// earlier entries that name another path, at most five in all.
pub open spec fn recent_after(recent: Seq<Seq<char>>, path: Seq<char>) -> Seq<Seq<char>> {
    let kept = seq![path] + recent.filter(|p: Seq<char>| !paths_equal(p, path));
    if kept.len() > MAX_RECENT {
        kept.take(MAX_RECENT as int)
    } else {
        kept
    }
}

/// Puts `path` at the front of the recent files, drops the other entries
/// that name the same path and keeps at most five.
pub fn add_recent(recent_files: &mut Vec<String>, path: String)
    ensures
        strings_view(final(recent_files)@) == recent_after(strings_view(old(recent_files)@), path@),
{
    let ghost old_view = strings_view(recent_files@);
    let ghost keep = |p: Seq<char>| !paths_equal(p, path@);
    let mut kept: Vec<String> = Vec::new();
    kept.push(path.clone());
    proof {
        lemma_strings_view_push(Seq::<String>::empty(), path);
        reveal_with_fuel(Seq::filter, 1);
        assert(old_view.take(0) =~= Seq::<Seq<char>>::empty());
        assert(strings_view(kept@) =~= seq![path@] + old_view.take(0).filter(keep));
    }
    let n = recent_files.len();
    let mut i: usize = 0;
    while i < n
        invariant
            i <= n,
            n == recent_files@.len(),
            old_view == strings_view(recent_files@),
            keep == (|p: Seq<char>| !paths_equal(p, path@)),
            strings_view(kept@) == seq![path@] + old_view.take(i as int).filter(keep),
        decreases n - i,
    {
        let ghost before = kept@;
        assert(old_view.take(i + 1) =~= old_view.take(i as int).push(old_view[i as int]));
        assert(old_view.take(i + 1).drop_last() =~= old_view.take(i as int));
        proof {
            reveal_with_fuel(Seq::filter, 1);
        }
        if !same_path(recent_files[i].as_str(), path.as_str()) {
            let item = recent_files[i].clone();
            kept.push(item);
            proof {
                lemma_strings_view_push(before, recent_files@[i as int]);
                assert(strings_view(kept@) =~= seq![path@] + old_view.take(i + 1).filter(keep));
            }
        } else {
            assert(strings_view(kept@) =~= seq![path@] + old_view.take(i + 1).filter(keep));
        }
        i += 1;
    }
    assert(old_view.take(n as int) =~= old_view);
    kept.truncate(MAX_RECENT);
    proof {
        let full = seq![path@] + old_view.filter(keep);
        if full.len() > MAX_RECENT {
            assert(strings_view(kept@) =~= full.take(MAX_RECENT as int));
        }
    }
    *recent_files = kept;
}

/// The file just opened comes first among the recent files, no other entry
/// names the same path, and at most five are kept.
pub proof fn law_recent_first(recent: Seq<Seq<char>>, path: Seq<char>)
    ensures
        recent_after(recent, path).len() >= 1,
        recent_after(recent, path)[0] == path,
        recent_after(recent, path).len() <= MAX_RECENT,
        forall|i: int| 1 <= i < recent_after(recent, path).len() ==> !paths_equal(#[trigger] recent_after(recent, path)[i], path),
{
    let keep = |p: Seq<char>| !paths_equal(p, path);
    let rest = recent.filter(keep);
    let kept = seq![path] + rest;
    assert forall|i: int| 1 <= i < kept.len() implies !paths_equal(#[trigger] kept[i], path) by {
        assert(kept[i] == rest[i - 1]);
        recent.lemma_filter_pred(keep, i - 1);
    }
}

} // verus!
