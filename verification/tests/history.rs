use jigsaw::history::History;

#[test]
fn undo_and_redo() {
    let mut h = History::new(0);
    assert!(!h.undo());
    assert!(!h.redo());
    h.append_history(1);
    h.append_history(2);
    assert_eq!(*h.comp_spec(), 2);
    assert!(h.undo());
    assert_eq!(*h.comp_spec(), 1);
    assert!(h.undo());
    assert_eq!(*h.comp_spec(), 0);
    assert!(!h.undo());
    assert!(h.redo());
    assert!(h.redo());
    assert_eq!(*h.comp_spec(), 2);
    assert!(!h.redo());
}

#[test]
fn edit_drops_redo_steps() {
    let mut h = History::new("a");
    h.append_history("b");
    h.append_history("c");
    assert!(h.undo());
    assert!(h.undo());
    h.append_history("d");
    assert_eq!(*h.comp_spec(), "d");
    assert!(!h.redo());
    assert!(h.undo());
    assert_eq!(*h.comp_spec(), "a");
}
