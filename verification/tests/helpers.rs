use sudoku::utils::{
    contains_change, names_a_cell, no_candidates, same_candidates, same_change, same_reference, same_value,
    Change, Reference, Value,
};

#[test]
fn reference_and_change_equality() {
    assert!(same_reference(&Reference::Ord(3), &Reference::Ord(3)));
    assert!(!same_reference(&Reference::Ord(3), &Reference::XY((4, 1))));
    assert!(same_reference(&Reference::XY((2, 5)), &Reference::XY((2, 5))));
    assert!(!same_reference(&Reference::XY((2, 5)), &Reference::XY((5, 2))));
    let a = Change(Reference::Ord(0), Value::Def(1));
    let b = Change(Reference::Ord(0), Value::Def(2));
    assert!(same_change(&a, &a));
    assert!(!same_change(&a, &b));
    assert!(contains_change(&vec![b, a], &a));
    assert!(!contains_change(&vec![b], &a));
    assert!(!contains_change(&Vec::new(), &a));
}

#[test]
fn value_and_candidate_equality() {
    let p = [true, false, true, false, true, false, true, false, true];
    assert!(same_candidates(&p, &p));
    assert!(!same_candidates(&p, &[true; 9]));
    assert!(same_value(&Value::Pos(p), &Value::Pos(p)));
    assert!(!same_value(&Value::Pos(p), &Value::Def(1)));
    assert!(same_value(&Value::Def(4), &Value::Def(4)));
    assert!(no_candidates(&[false; 9]));
    assert!(!no_candidates(&p));
}

#[test]
fn references_that_name_cells() {
    assert!(names_a_cell(&Reference::Ord(0)));
    assert!(names_a_cell(&Reference::Ord(80)));
    assert!(!names_a_cell(&Reference::Ord(81)));
    assert!(names_a_cell(&Reference::XY((9, 9))));
    assert!(!names_a_cell(&Reference::XY((1, 10))));
    assert!(!names_a_cell(&Reference::XY((0, 1))));
    assert!(!names_a_cell(&Reference::XY((5, 0))));
}
