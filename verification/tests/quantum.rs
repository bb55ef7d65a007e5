use sudoku::board_utils::{get_references_for_box, BoxCoord};
use sudoku::quantum_utils::{
    check_solos, check_solos_with_slice, cut_down, def_bools, get_certainties, get_def_refs, get_defs,
    get_possibilities, Certainties,
};
use sudoku::utils::{Board, Change, Reference, Value};

fn without(digits: &[u8]) -> [bool; 9] {
    let mut p = [true; 9];
    for d in digits {
        p[(*d - 1) as usize] = false;
    }
    p
}

fn set(b: Board, i: usize, v: Value) -> Board {
    b.fill_board(&Reference::Ord(i), v).ok().unwrap()
}

#[test]
fn possibilities_of_a_box() {
    let mut b = Board::create_board();
    b = set(b, 0, Value::Def(4));
    for i in [9usize, 10, 11, 18, 19, 20] {
        b = set(b, i, Value::Pos(without(&[1])));
    }
    let nodes = b.nodes_of(&get_references_for_box(BoxCoord::Ord(0)));
    let (rows, cols, defs) = get_possibilities(&nodes);
    assert_eq!(rows[0], [true, false, false, false, false, false, false, false, false]);
    assert_eq!(cols[0], [false, true, true, false, false, false, false, false, false]);
    assert_eq!(rows[1], [true, true, true, false, false, false, false, false, false]);
    assert_eq!(defs.len(), 1);
    assert_eq!((defs[0].0, defs[0].1, defs[0].2), (4, 1, 1));
    let cert = get_certainties((rows, cols));
    assert_eq!(cert.rows[0], 1);
    assert_eq!(cert.cols[0], 0);
    assert_eq!(cert.rows[1], 0);
    let solos = check_solos(&cert);
    assert_eq!(solos, [None; 9]);
    assert_eq!(check_solos_with_slice(&nodes), [None; 9]);
}

#[test]
fn single_cell_solo() {
    let mut b = Board::create_board();
    for i in [1usize, 2, 9, 10, 11, 18, 19, 20] {
        b = set(b, i, Value::Pos(without(&[3])));
    }
    let nodes = b.nodes_of(&get_references_for_box(BoxCoord::Ord(0)));
    let solos = check_solos_with_slice(&nodes);
    assert_eq!(solos[2], Some((1, 1)));
    assert_eq!(solos[0], None);
}

#[test]
fn definites_of_a_slice() {
    let mut b = Board::create_board();
    b = set(b, 3, Value::Def(9));
    b = set(b, 5, Value::Def(2));
    let refs = get_def_refs(&b.spaces[0..9]);
    assert_eq!(refs.len(), 2);
    assert_eq!((refs[0].0, refs[0].1, refs[0].2), (9, 4, 1));
    assert_eq!((refs[1].0, refs[1].1, refs[1].2), (2, 6, 1));
    let defs = get_defs(&b.spaces[0..9]);
    assert_eq!(defs[8], Some((4, 1)));
    assert_eq!(defs[1], Some((6, 1)));
    assert_eq!(defs[0], None);
    let bools = def_bools(&defs);
    assert_eq!(bools, [false, true, false, false, false, false, false, false, true]);
}

#[test]
fn certainties_sum_and_cut() {
    let mut all = [Certainties::initialize(); 9];
    all[0].rows[0] = 2;
    all[1].rows[0] = 2;
    all[3].cols[4] = 7;
    let (rows, cols) = Certainties::sum_except(&all, 1);
    assert!(rows[0][1]);
    assert!(cols[4][6]);
    assert_eq!(rows[0].iter().filter(|b| **b).count(), 1);
    let (rows0, _) = Certainties::sum_except(&all, 0);
    assert!(rows0[0][1]);
    let cut = cut_down(rows, 0);
    assert_eq!(cut[0], [false, true, false]);
    let cut2 = cut_down(rows, 3);
    assert_eq!(cut2[0], [false, false, false]);
}

#[test]
fn final_quantum_pins_a_row() {
    let mut b = Board::create_board();
    for i in [9usize, 10, 11, 18, 19, 20] {
        b = set(b, i, Value::Pos(without(&[1])));
    }
    let (b2, changes) = b.final_quantum().ok().unwrap();
    let cleared = Value::Pos(without(&[1]));
    let expected: Vec<Change> =
        [(4u8, 1u8), (5, 1), (6, 1), (7, 1), (8, 1), (9, 1)].iter().map(|p| Change(Reference::XY(*p), cleared)).collect();
    assert_eq!(changes, expected);
    for i in 3..9usize {
        assert_eq!(b2.spaces[i].value, cleared);
    }
    assert_eq!(b2.spaces[0].value, Value::Pos([true; 9]));
}

#[test]
fn quantum_double_in_a_band() {
    let mut b = Board::create_board();
    for i in [18usize, 19, 20, 21, 22, 23] {
        b = set(b, i, Value::Pos(without(&[1])));
    }
    let (b2, changes) = b.quantum_double().ok().unwrap();
    let cleared = Value::Pos(without(&[1]));
    let expected: Vec<Change> = [6usize, 15, 7, 16, 8, 17].iter().map(|i| Change(Reference::Ord(*i), cleared)).collect();
    assert_eq!(changes, expected);
    assert_eq!(b2.spaces[26].value, Value::Pos([true; 9]));
    assert_eq!(b2.spaces[6].value, cleared);
}

#[test]
fn quantum_steps_on_a_fresh_board_change_nothing() {
    let b = Board::create_board();
    let (b2, c2) = b.final_quantum().ok().unwrap();
    assert!(c2.is_empty());
    assert!(b2 == b);
    let (b3, c3) = b.quantum_double().ok().unwrap();
    assert!(c3.is_empty());
    assert!(b3 == b);
}

#[test]
fn final_quantum_finds_contradiction() {
    let mut b = Board::create_board();
    for i in [9usize, 10, 11, 18, 19, 20] {
        b = set(b, i, Value::Pos(without(&[1])));
    }
    b = set(b, 3, Value::Pos([true, false, false, false, false, false, false, false, false]));
    assert!(b.final_quantum().is_err());
}

#[test]
fn quantum_double_finds_contradiction() {
    let mut b = Board::create_board();
    for i in [18usize, 19, 20, 21, 22, 23] {
        b = set(b, i, Value::Pos(without(&[1])));
    }
    b = set(b, 6, Value::Pos([true, false, false, false, false, false, false, false, false]));
    assert!(b.quantum_double().is_err());
}

#[test]
fn quantum_double_column_pass_acts_on_the_boxes_of_a_stack() {
    // Digit 1 is confined to the first two columns of boxes 0 and 3; the
    // column pass then clears those columns of box 6.
    let mut b = Board::create_board();
    for y in 1u8..=6 {
        b = b.fill_board(&Reference::XY((3, y)), Value::Pos(without(&[1]))).ok().unwrap();
    }
    let (b2, changes) = b.quantum_double().ok().unwrap();
    let cleared = Value::Pos(without(&[1]));
    let expected: Vec<Change> =
        [54usize, 63, 72, 55, 64, 73].iter().map(|i| Change(Reference::Ord(*i), cleared)).collect();
    assert_eq!(changes, expected);
    for i in 0..81usize {
        let want = if [54usize, 55, 63, 64, 72, 73].contains(&i) { cleared } else { b.spaces[i].value };
        assert_eq!(b2.spaces[i].value, want);
        assert_eq!((b2.spaces[i].x, b2.spaces[i].y), (b.spaces[i].x, b.spaces[i].y));
    }
}

#[test]
fn quantum_double_treats_bands_and_stacks_alike() {
    // The band board of `quantum_double_in_a_band`, transposed, gives the
    // transposed result.
    let mut rows = Board::create_board();
    let mut cols = Board::create_board();
    for i in [18usize, 19, 20, 21, 22, 23] {
        rows = set(rows, i, Value::Pos(without(&[1])));
        cols = set(cols, 9 * (i % 9) + i / 9, Value::Pos(without(&[1])));
    }
    let (r2, _) = rows.quantum_double().ok().unwrap();
    let (c2, _) = cols.quantum_double().ok().unwrap();
    for i in 0..81usize {
        assert_eq!(c2.spaces[9 * (i % 9) + i / 9].value, r2.spaces[i].value);
    }
}

#[test]
fn quantum_double_ignores_a_column_pair_across_a_band() {
    // Digit 3 is confined to two columns in boxes 0 and 1, which share a
    // band, not a stack: nothing follows.
    let mut b = Board::create_board();
    for i in [2usize, 11, 20, 5, 14, 23] {
        b = set(b, i, Value::Pos(without(&[3])));
    }
    let (b2, changes) = b.quantum_double().ok().unwrap();
    assert!(changes.is_empty());
    assert!(b2 == b);
}

#[test]
fn final_quantum_treats_rows_and_columns_alike() {
    // The board of `final_quantum_pins_a_row`, transposed, gives the
    // transposed result: digit 1 leaves column 1 outside box 0.
    let mut rows = Board::create_board();
    let mut cols = Board::create_board();
    for i in [9usize, 10, 11, 18, 19, 20] {
        rows = set(rows, i, Value::Pos(without(&[1])));
        cols = set(cols, 9 * (i % 9) + i / 9, Value::Pos(without(&[1])));
    }
    let (r2, _) = rows.final_quantum().ok().unwrap();
    let (c2, _) = cols.final_quantum().ok().unwrap();
    for i in 0..81usize {
        assert_eq!(c2.spaces[9 * (i % 9) + i / 9].value, r2.spaces[i].value);
    }
    assert_eq!(c2.spaces[27].value, Value::Pos(without(&[1])));
    assert_eq!(c2.spaces[0].value, Value::Pos([true; 9]));
}
