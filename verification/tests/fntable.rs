use pairlang::FnTable;

#[test]
fn fresh_table_is_empty() {
    let t = FnTable::new();
    assert!(!t.contains_fn('a'));
    assert!(!t.is_creating('a'));
    assert!(!t.any_creating());
    assert!(t.get('a').is_none());
}

#[test]
fn begin_marks_identifier_as_creating() {
    let mut t = FnTable::new();
    t.begin('a', 4);
    assert!(t.contains_fn('a'));
    assert!(t.is_creating('a'));
    assert!(t.any_creating());
    // a being-defined identifier is not yet callable
    assert!(t.get('a').is_none());
}

#[test]
fn put_appends_to_every_open_definition() {
    let mut t = FnTable::new();
    t.begin('a', 1);
    t.begin('b', 2);
    t.put('+');
    t.end('a');
    t.put('-');
    t.end('b');
    let (body_a, start_a) = t.get('a').unwrap();
    assert_eq!(body_a, vec!['+']);
    assert_eq!(start_a, 1);
    let (body_b, start_b) = t.get('b').unwrap();
    assert_eq!(body_b, vec!['+', '-']);
    assert_eq!(start_b, 2);
    assert!(!t.any_creating());
}

#[test]
fn end_leaves_entry_in_place() {
    let mut t = FnTable::new();
    t.begin('a', 0);
    t.put('+');
    t.end('a');
    assert!(t.contains_fn('a'));
    assert!(!t.is_creating('a'));
    let (body, start) = t.get('a').unwrap();
    assert_eq!(body, vec!['+']);
    assert_eq!(start, 0);
}

#[test]
fn redefinition_hides_prior_body() {
    let mut t = FnTable::new();
    t.begin('a', 0);
    t.put('+');
    t.end('a');
    t.begin('a', 9);
    assert!(t.get('a').is_none());
    t.put('-');
    t.end('a');
    let (body, start) = t.get('a').unwrap();
    assert_eq!(body, vec!['-']);
    assert_eq!(start, 9);
}

#[test]
fn copy_fn_clones_entry_wholesale() {
    let mut t = FnTable::new();
    t.begin('a', 3);
    t.put('+');
    t.put('+');
    t.end('a');
    t.copy_fn('a', 'b');
    let (body, start) = t.get('b').unwrap();
    assert_eq!(body, vec!['+', '+']);
    assert_eq!(start, 3);
    // an independent copy, not an alias
    t.begin('a', 7);
    t.end('a');
    let (body_b, _) = t.get('b').unwrap();
    assert_eq!(body_b, vec!['+', '+']);
}

#[test]
fn copy_fn_without_source_is_a_no_op() {
    let mut t = FnTable::new();
    t.copy_fn('x', 'y');
    assert!(!t.contains_fn('y'));
}
