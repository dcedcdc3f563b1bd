use darkstar::settings::{add_recent, ReasonerRules};

fn paths(v: &[&str]) -> Vec<String> {
    v.iter().map(|s| s.to_string()).collect()
}

#[test]
fn default_rules_enable_every_family() {
    let r = ReasonerRules::default();
    assert!(r.equality && r.property_chains && r.class_expressions && r.restrictions && r.datatypes && r.schema);
}

#[test]
fn a_recent_file_goes_first() {
    let mut recent = paths(&["/a.ttl", "/b.ttl"]);
    add_recent(&mut recent, "/c.ttl".to_string());
    assert_eq!(recent, paths(&["/c.ttl", "/a.ttl", "/b.ttl"]));
}

#[test]
fn reopening_a_file_moves_it_to_the_front_once() {
    let mut recent = paths(&["/a.ttl", "/b.ttl", "/c.ttl"]);
    add_recent(&mut recent, "/b.ttl".to_string());
    assert_eq!(recent, paths(&["/b.ttl", "/a.ttl", "/c.ttl"]));
}

#[test]
fn paths_are_compared_by_component() {
    let mut recent = paths(&["/a//b.ttl", "/c.ttl"]);
    add_recent(&mut recent, "/a/b.ttl".to_string());
    assert_eq!(recent, paths(&["/a/b.ttl", "/c.ttl"]));
}

#[test]
fn at_most_five_recent_files_are_kept() {
    let mut recent = paths(&["/1", "/2", "/3", "/4", "/5"]);
    add_recent(&mut recent, "/6".to_string());
    assert_eq!(recent, paths(&["/6", "/1", "/2", "/3", "/4"]));
}

#[test]
fn the_opened_file_is_first_and_appears_once() {
    let mut recent = paths(&["/x", "/y", "/x", "/z"]);
    add_recent(&mut recent, "/x".to_string());
    assert_eq!(recent[0], "/x");
    assert_eq!(recent.iter().filter(|p| p.as_str() == "/x").count(), 1);
    assert!(recent.len() <= 5);
}
