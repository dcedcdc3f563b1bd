use darkstar::history::{ChangeHistory, DarkstarEvent};

fn added(s: &str, p: &str, o: &str) -> DarkstarEvent {
    DarkstarEvent::AxiomAdded { s: s.to_string(), p: p.to_string(), o: o.to_string() }
}

fn removed(s: &str, p: &str, o: &str) -> DarkstarEvent {
    DarkstarEvent::AxiomRemoved { s: s.to_string(), p: p.to_string(), o: o.to_string() }
}

#[test]
fn reverse_turns_an_addition_into_a_removal() {
    assert_eq!(added("a", "p", "b").reverse(), removed("a", "p", "b"));
    assert_eq!(removed("a", "p", "b").reverse(), added("a", "p", "b"));
}

#[test]
fn reverse_of_a_batch_undoes_its_members_in_the_opposite_order() {
    let batch = DarkstarEvent::Batch(vec![added("a", "p", "b"), removed("c", "q", "d")]);
    let expected = DarkstarEvent::Batch(vec![added("c", "q", "d"), removed("a", "p", "b")]);
    assert_eq!(batch.reverse(), expected);
}

#[test]
fn reversing_twice_gives_the_change_back() {
    let batch = DarkstarEvent::Batch(vec![
        added("a", "p", "b"),
        DarkstarEvent::Batch(vec![removed("c", "q", "d"), added("e", "r", "f")]),
    ]);
    assert_eq!(batch.reverse().reverse(), batch);
}

#[test]
fn duplicate_and_clone_copy_a_change() {
    let batch = DarkstarEvent::Batch(vec![added("a", "p", "b")]);
    assert_eq!(batch.duplicate(), batch);
    assert_eq!(batch.clone(), batch);
}

#[test]
fn new_history_is_empty() {
    let h = ChangeHistory::new();
    assert!(h.is_undo_empty());
    assert!(h.is_redo_empty());
    assert_eq!(h.get_undo_stack().len(), 0);
}

#[test]
fn undo_then_redo_gives_the_same_change() {
    let mut h = ChangeHistory::new();
    h.push_change(added("a", "p", "b"));
    let undone = h.pop_undo();
    assert_eq!(undone, Some(added("a", "p", "b")));
    assert!(h.is_undo_empty());
    assert_eq!(h.get_redo_stack(), &[added("a", "p", "b")][..]);
    let redone = h.pop_redo();
    assert_eq!(redone, Some(added("a", "p", "b")));
    assert!(h.is_redo_empty());
    assert_eq!(h.get_undo_stack(), &[added("a", "p", "b")][..]);
}

#[test]
fn pushing_a_change_clears_the_redo_stack() {
    let mut h = ChangeHistory::new();
    h.push_change(added("a", "p", "b"));
    h.pop_undo();
    assert!(!h.is_redo_empty());
    h.push_change(added("c", "p", "d"));
    assert!(h.is_redo_empty());
    assert_eq!(h.get_undo_stack(), &[added("c", "p", "d")][..]);
}

#[test]
fn popping_an_empty_stack_gives_nothing() {
    let mut h = ChangeHistory::new();
    assert_eq!(h.pop_undo(), None);
    assert_eq!(h.pop_redo(), None);
    assert!(h.is_undo_empty() && h.is_redo_empty());
}

#[test]
fn undo_takes_the_most_recent_change_first() {
    let mut h = ChangeHistory::new();
    h.push_change(added("a", "p", "b"));
    h.push_change(added("c", "p", "d"));
    assert_eq!(h.pop_undo(), Some(added("c", "p", "d")));
    assert_eq!(h.pop_undo(), Some(added("a", "p", "b")));
    assert_eq!(h.pop_redo(), Some(added("a", "p", "b")));
}

#[test]
fn clear_empties_both_stacks() {
    let mut h = ChangeHistory::new();
    h.push_change(added("a", "p", "b"));
    h.push_change(added("c", "p", "d"));
    h.pop_undo();
    h.clear();
    assert!(h.is_undo_empty());
    assert!(h.is_redo_empty());
}
