use pairlang::Tape;

#[test]
fn fresh_tape_reads_zero() {
    let t = Tape::new();
    assert_eq!(t.get(), 0);
    assert_eq!(t.get_next(), 0);
}

#[test]
fn set_and_get() {
    let mut t = Tape::new();
    t.set(200);
    assert_eq!(t.get(), 200);
}

#[test]
fn set_next_materialises_cell() {
    let mut t = Tape::new();
    assert_eq!(t.get_next(), 0);
    t.set_next(9);
    assert_eq!(t.get_next(), 9);
    t.next();
    assert_eq!(t.get(), 9);
}

#[test]
fn next_then_prev_restores_fresh_tape() {
    let mut t = Tape::new();
    t.next();
    t.prev();
    assert_eq!(t.get(), 0);
    assert_eq!(t.get_next(), 0);
    assert_eq!(t.delete_left(), 0);
}

#[test]
fn next_then_prev_restores_visited_cells() {
    let mut t = Tape::new();
    t.set(7);
    t.insert_left(3);
    t.insert_right(5);
    t.next();
    t.prev();
    assert_eq!(t.get(), 7);
    assert_eq!(t.get_next(), 5);
    assert_eq!(t.delete_left(), 3);
}

#[test]
fn insert_left_then_delete_left_returns_value() {
    let mut t = Tape::new();
    t.set(11);
    t.insert_left(42);
    assert_eq!(t.delete_left(), 42);
    assert_eq!(t.get(), 11);
    assert_eq!(t.get_next(), 0);
    assert_eq!(t.delete_left(), 0);
}

#[test]
fn delete_right_returns_nearest_cell() {
    let mut t = Tape::new();
    t.insert_right(8);
    t.insert_right(9);
    assert_eq!(t.delete_right(), 9);
    assert_eq!(t.delete_right(), 8);
    assert_eq!(t.delete_right(), 0);
}

#[test]
fn expand_2_doubles_each_visited_cell() {
    let mut t = Tape::new();
    t.insert_left(1);
    t.insert_left(2);
    t.expand_2();
    assert_eq!(t.delete_left(), 2);
    assert_eq!(t.delete_left(), 2);
    assert_eq!(t.delete_left(), 1);
    assert_eq!(t.delete_left(), 1);
    assert_eq!(t.delete_left(), 0);
}

#[test]
fn expand_2_twice_quadruples_each_visited_cell() {
    let mut t = Tape::new();
    t.insert_left(1);
    t.insert_left(2);
    t.expand_2();
    t.expand_2();
    for want in [2, 2, 2, 2, 1, 1, 1, 1] {
        assert_eq!(t.delete_left(), want);
    }
    assert_eq!(t.delete_left(), 0);
}

#[test]
fn expand_2_queues_copy_of_active_cell() {
    let mut t = Tape::new();
    t.set(77);
    t.expand_2();
    assert_eq!(t.get_next(), 77);
    t.next();
    assert_eq!(t.get(), 77);
}

#[test]
fn expand_3_triples_each_visited_cell() {
    let mut t = Tape::new();
    t.insert_left(4);
    t.set(9);
    t.expand_3();
    assert_eq!(t.delete_left(), 4);
    assert_eq!(t.delete_left(), 4);
    assert_eq!(t.delete_left(), 4);
    assert_eq!(t.delete_left(), 0);
    assert_eq!(t.get_next(), 9);
    t.next();
    assert_eq!(t.get(), 9);
    t.next();
    assert_eq!(t.get(), 9);
}

#[test]
fn randomize_keeps_cells_within_wrapping_offset() {
    let mut t = Tape::new();
    t.insert_left(100);
    t.insert_right(100);
    t.set(100);
    t.randomize();
    let c = t.get() as i32;
    assert!((95..=105).contains(&c));
    let l = t.delete_left() as i32;
    assert!((95..=105).contains(&l));
    let r = t.delete_right() as i32;
    assert!((95..=105).contains(&r));
    assert_eq!(t.delete_left(), 0);
    assert_eq!(t.delete_right(), 0);
}
