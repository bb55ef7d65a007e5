use sudoku::input::parse_board;
use sudoku::process::Simulation;
use sudoku::utils::{Board, Change, Reference, Value};

const PUZZLE: &str = "530070000600195000098000060800060003400803001700020006060000280000419005000080079";
const SOLUTION: &str = "534678912672195348198342567859761423426853791713924856961537284287419635345286179";

fn board_of(line: &str) -> Board {
    let chars: Vec<char> = line.chars().collect();
    let changes = parse_board(&chars);
    Board::create_board().fill_board_x(&changes).ok().unwrap()
}

fn digits_of(b: &Board) -> String {
    b.spaces
        .iter()
        .map(|n| match n.value {
            Value::Def(d) => (b'0' + d) as char,
            Value::Pos(_) => '0',
        })
        .collect()
}

fn candidates_left(b: &Board) -> usize {
    b.spaces
        .iter()
        .map(|n| match n.value {
            Value::Def(_) => 0,
            Value::Pos(p) => p.iter().filter(|x| **x).count(),
        })
        .sum()
}

fn agrees_with(b: &Board, solution: &str) -> bool {
    solution.bytes().enumerate().all(|(i, ch)| {
        let d = ch - b'0';
        match b.spaces[i].value {
            Value::Def(e) => e == d,
            Value::Pos(p) => p[(d - 1) as usize],
        }
    })
}

fn narrows(before: &Board, after: &Board) -> bool {
    (0..81).all(|i| {
        let a = before.spaces[i];
        let b = after.spaces[i];
        if a == b {
            return true;
        }
        if a.x != b.x || a.y != b.y {
            return false;
        }
        match (a.value, b.value) {
            (Value::Pos(p), Value::Pos(q)) => (0..9).all(|k| !q[k] || p[k]),
            (Value::Pos(p), Value::Def(d)) => (1..=9).contains(&d) && p[(d - 1) as usize],
            _ => false,
        }
    })
}

#[test]
fn classic_puzzle_is_solved_by_processing() {
    let mut board = board_of(PUZZLE);
    let mut rounds = 0;
    while board.get_spaces_with(0).len() > 0 {
        assert!(!board.full_processing_clash());
        let before = board;
        let (next, changes) = board.full_processing().ok().unwrap();
        assert!(!changes.is_empty());
        assert!(narrows(&before, &next));
        assert!(candidates_left(&next) < candidates_left(&before));
        assert!(agrees_with(&next, SOLUTION));
        board = next;
        rounds += 1;
        assert!(rounds < 100);
    }
    assert_eq!(digits_of(&board), SOLUTION);
}

#[test]
fn processing_a_fresh_board_changes_nothing() {
    let b = Board::create_board();
    assert!(!b.full_processing_clash());
    let (b2, changes) = b.full_processing().ok().unwrap();
    assert!(changes.is_empty());
    assert!(b2 == b);
}

#[test]
fn processing_a_solved_board_changes_nothing() {
    let b = board_of(SOLUTION);
    let (b2, changes) = b.full_processing().ok().unwrap();
    assert!(changes.is_empty());
    assert!(b2 == b);
}

#[test]
fn processing_reports_contradiction() {
    let mut b = board_of("110000000000000000000000000000000000000000000000000000000000000000000000000000000");
    b = b.fill_board(&Reference::Ord(2), Value::Pos([true, false, false, false, false, false, false, false, false])).ok().unwrap();
    assert!(b.full_processing().is_err());
}

#[test]
fn clashing_solos_are_detected() {
    let mut b = Board::create_board();
    let no1 = [false, true, true, true, true, true, true, true, true];
    let no2 = [true, false, true, true, true, true, true, true, true];
    for i in [9usize, 10, 11, 18, 19, 20] {
        b = b.fill_board(&Reference::Ord(i), Value::Pos(no1)).ok().unwrap();
    }
    for i in [1usize, 2] {
        b = b.fill_board(&Reference::Ord(i), Value::Pos([false, false, true, true, true, true, true, true, true])).ok().unwrap();
    }
    for i in 3..9usize {
        b = b.fill_board(&Reference::Ord(i), Value::Pos(no2)).ok().unwrap();
    }
    assert!(b.full_processing_clash());
    assert!(!Board::create_board().full_processing_clash());
}

#[test]
fn find_change_takes_first_untried() {
    let b = Board::create_board();
    let first = b.find_change(&Vec::new());
    assert_eq!(first, Some(Change(Reference::XY((1, 1)), Value::Def(1))));
    let second = b.find_change(&vec![Change(Reference::XY((1, 1)), Value::Def(1))]);
    assert_eq!(second, Some(Change(Reference::XY((1, 1)), Value::Def(2))));
    assert_eq!(board_of(SOLUTION).find_change(&Vec::new()), None);
    let b2 = board_of(SOLUTION).fill_board(&Reference::Ord(80), Value::Def(9)).ok().unwrap();
    assert_eq!(b2.find_change(&Vec::new()), None);
}

#[test]
fn simulation_refutes_then_solves() {
    let pair = Value::Pos([false, false, true, false, true, false, false, false, false]);
    let mut b = board_of(SOLUTION);
    b = b.fill_board(&Reference::Ord(0), pair).ok().unwrap();
    b = b.fill_board(&Reference::Ord(1), pair).ok().unwrap();
    match b.simulate() {
        Simulation::Solved(s) => assert_eq!(digits_of(&s), SOLUTION),
        _ => panic!("expected a solved board"),
    }
}

#[test]
fn simulation_exhausts_refuted_hypotheses() {
    let five = Value::Pos([false, false, false, false, true, false, false, false, false]);
    let mut b = board_of(SOLUTION);
    b = b.fill_board(&Reference::Ord(0), five).ok().unwrap();
    b = b.fill_board(&Reference::Ord(1), five).ok().unwrap();
    assert!(matches!(b.simulate(), Simulation::Exhausted));
}

#[test]
fn processing_keeps_the_solution_when_boxes_of_a_band_pair_on_columns() {
    // Digit 3 is confined to the first two columns of boxes 0 and 1: boxes
    // of one band, not of one stack, so no column double follows from it.
    let no3 = [true, true, false, true, true, true, true, true, true];
    let mut b = Board::create_board();
    for i in [2usize, 11, 20, 5, 14, 23] {
        b = b.fill_board(&Reference::Ord(i), Value::Pos(no3)).ok().unwrap();
    }
    assert!(agrees_with(&b, SOLUTION));
    let (q, qc) = b.quantum_double().ok().unwrap();
    assert!(qc.is_empty());
    assert!(q == b);
    let (next, _) = b.full_processing().ok().unwrap();
    assert!(narrows(&b, &next));
    assert!(agrees_with(&next, SOLUTION));
    assert_eq!(next.spaces[72].value, Value::Pos([true; 9]));
}

#[test]
fn column_double_keeps_the_solution() {
    // Digit 5 leaves the third column of boxes 0 and 3; SOLUTION has it in
    // the third column of box 6, which keeps it while the first two lose it.
    let no5 = [true, true, true, true, false, true, true, true, true];
    let mut b = Board::create_board();
    for i in [2usize, 11, 20, 29, 38, 47] {
        b = b.fill_board(&Reference::Ord(i), Value::Pos(no5)).ok().unwrap();
    }
    assert!(agrees_with(&b, SOLUTION));
    let (q, changes) = b.quantum_double().ok().unwrap();
    let expected: Vec<Change> =
        [54usize, 63, 72, 55, 64, 73].iter().map(|i| Change(Reference::Ord(*i), Value::Pos(no5))).collect();
    assert_eq!(changes, expected);
    assert!(agrees_with(&q, SOLUTION));
    assert_eq!(q.spaces[56].value, Value::Pos([true; 9]));
    let (next, _) = b.full_processing().ok().unwrap();
    assert!(narrows(&b, &next));
    assert!(agrees_with(&next, SOLUTION));
}
