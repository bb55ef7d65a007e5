use sudoku::board_utils::{get_references_for_box, BoxCoord};
use sudoku::input::parse_board;
use sudoku::utils::{Board, Change, Reference, Value};

const ALL: [bool; 9] = [true; 9];

fn without(digits: &[u8]) -> [bool; 9] {
    let mut p = [true; 9];
    for d in digits {
        p[(*d - 1) as usize] = false;
    }
    p
}

fn only(digits: &[u8]) -> [bool; 9] {
    let mut p = [false; 9];
    for d in digits {
        p[(*d - 1) as usize] = true;
    }
    p
}

fn board_with(cells: &[(usize, char)]) -> Board {
    let mut chars: Vec<char> = vec!['0'; 81];
    for (i, c) in cells {
        chars[*i] = *c;
    }
    let changes = parse_board(&chars);
    Board::create_board().fill_board_x(&changes).ok().unwrap()
}

fn set(b: Board, i: usize, v: Value) -> Board {
    b.fill_board(&Reference::Ord(i), v).ok().unwrap()
}

#[test]
fn direct_elimination_clears_row_and_column() {
    let b = board_with(&[(40, '3')]);
    let (b2, changes) = b.direct_elimination().ok().unwrap();
    let expected: Vec<usize> = vec![4, 13, 22, 31, 36, 37, 38, 39, 41, 42, 43, 44, 49, 58, 67, 76];
    assert_eq!(changes.len(), expected.len());
    for (k, i) in expected.iter().enumerate() {
        assert_eq!(changes[k], Change(Reference::Ord(*i), Value::Pos(without(&[3]))));
        assert_eq!(b2.spaces[*i].value, Value::Pos(without(&[3])));
    }
    assert_eq!(b2.spaces[30].value, Value::Pos(ALL));
    assert_eq!(b2.spaces[40].value, Value::Def(3));
}

#[test]
fn direct_elimination_finds_contradiction() {
    let b = set(board_with(&[(1, '1')]), 0, Value::Pos(only(&[1])));
    assert!(b.direct_elimination().is_err());
}

#[test]
fn direct_elimination_without_definites_changes_nothing() {
    let b = Board::create_board();
    let (b2, changes) = b.direct_elimination().ok().unwrap();
    assert!(changes.is_empty());
    assert!(b2 == b);
}

#[test]
fn box_elimination_clears_box() {
    let b = board_with(&[(40, '3')]);
    let (b2, changes) = b.box_elimination().ok().unwrap();
    let expected: Vec<usize> = vec![30, 31, 32, 39, 41, 48, 49, 50];
    assert_eq!(changes.len(), 8);
    for (k, i) in expected.iter().enumerate() {
        assert_eq!(changes[k], Change(Reference::Ord(*i), Value::Pos(without(&[3]))));
        assert_eq!(b2.spaces[*i].value, Value::Pos(without(&[3])));
    }
    assert_eq!(b2.spaces[4].value, Value::Pos(ALL));
}

#[test]
fn box_elimination_finds_contradiction() {
    let b = set(board_with(&[(10, '4')]), 0, Value::Pos(only(&[4])));
    assert!(b.box_elimination().is_err());
}

#[test]
fn depossibilize_makes_single_candidates_definite() {
    let b = set(set(Board::create_board(), 0, Value::Pos(only(&[7]))), 80, Value::Pos(only(&[2, 3])));
    let (b2, changes) = b.depossibilize().ok().unwrap();
    assert_eq!(changes, vec![Change(Reference::Ord(0), Value::Def(7))]);
    assert_eq!(b2.spaces[0].value, Value::Def(7));
    assert_eq!(b2.spaces[80].value, Value::Pos(only(&[2, 3])));
}

#[test]
fn reset_possibilities_keeps_definites() {
    let b = set(set(Board::create_board(), 0, Value::Pos(without(&[1]))), 1, Value::Def(2));
    let r = b.reset_possibilities();
    assert_eq!(r.spaces[0].value, Value::Pos(ALL));
    assert_eq!(r.spaces[1].value, Value::Def(2));
    assert_eq!(r.spaces[0].x, 1);
}

#[test]
fn certain_elimination_records_every_open_cell() {
    let b = board_with(&[(40, '3')]);
    let (b2, changes) = b.certain_elimination().ok().unwrap();
    assert!(b2 == b);
    assert_eq!(changes.len(), 80);
    assert_eq!(changes[0], Change(Reference::Ord(0), Value::Pos(ALL)));
    assert_eq!(changes[4], Change(Reference::Ord(4), Value::Pos(without(&[3]))));
    assert_eq!(changes[40], Change(Reference::Ord(41), Value::Pos(without(&[3]))));
}

#[test]
fn solos_in_a_box() {
    let mut b = Board::create_board();
    for i in [1usize, 2, 9, 10, 11, 18, 19, 20] {
        b = set(b, i, Value::Pos(without(&[1])));
    }
    let solos = b.solo_changes();
    assert_eq!(solos, vec![Change(Reference::XY((1, 1)), Value::Def(1))]);
    let (b2, changes) = b.fill_all_solos().ok().unwrap();
    assert_eq!(changes, solos);
    assert_eq!(b2.spaces[0].value, Value::Def(1));
}

#[test]
fn solos_in_a_row_and_column() {
    let mut b = Board::create_board();
    for i in 1..9usize {
        b = set(b, 9 * 4 + i, Value::Pos(without(&[6])));
    }
    for k in 0..9usize {
        if k == 4 {
            b = set(b, 9 * k + 8, Value::Pos(without(&[5, 6])));
        } else if k != 2 {
            b = set(b, 9 * k + 8, Value::Pos(without(&[5])));
        }
    }
    let solos = b.solo_changes();
    assert_eq!(
        solos,
        vec![Change(Reference::XY((1, 5)), Value::Def(6)), Change(Reference::XY((9, 3)), Value::Def(5))]
    );
}

#[test]
fn can_take_changes_checks_definite_cells_and_names() {
    let b = Board::create_board();
    let same = vec![Change(Reference::Ord(0), Value::Def(1)), Change(Reference::XY((1, 1)), Value::Def(1))];
    assert!(b.can_take_changes(&same));
    let clash = vec![Change(Reference::Ord(0), Value::Def(1)), Change(Reference::Ord(0), Value::Def(2))];
    assert!(!b.can_take_changes(&clash));
    assert!(!b.can_take_changes(&vec![Change(Reference::Ord(81), Value::Def(1))]));
    let stopped = vec![
        Change(Reference::Ord(0), Value::Pos([false; 9])),
        Change(Reference::Ord(99), Value::Def(1)),
    ];
    assert!(b.can_take_changes(&stopped));
}

#[test]
fn fill_solo_makes_each_found_solo_definite() {
    let mut b = Board::create_board();
    for i in [1usize, 2, 9, 10, 11, 18, 19, 20] {
        b = set(b, i, Value::Pos(without(&[5])));
    }
    b = set(b, 20, Value::Pos(only(&[2, 7])));
    let refs = get_references_for_box(BoxCoord::Ord(0));
    let solos = b.find_solos(refs);
    let mut expected_solos = [None; 9];
    expected_solos[0] = Some(4);
    assert_eq!(solos, expected_solos);
    let changes = b.fill_solo(refs);
    assert_eq!(changes, vec![Change(refs[0], Value::Def(5))]);
}
