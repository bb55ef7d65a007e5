use sudoku::input::{char_value, parse_board, parse_row, RowInput};
use sudoku::text::{change_to_text, push_decimal};
use sudoku::utils::{Board, Change, Reference, Value};

const ALL: [bool; 9] = [true; 9];

#[test]
fn value_text() {
    let p = Value::Pos([true, false, true, false, false, false, false, false, true]);
    assert_eq!(p.to_text(), "139");
    assert_eq!(Value::Pos([false; 9]).to_text(), "");
    assert_eq!(Value::Pos(ALL).to_text(), "123456789");
    assert_eq!(Value::Def(7).to_text(), "7");
    assert_eq!(Value::Def(0).to_text(), "0");
    assert_eq!(Value::Def(42).to_text(), "42");
    assert_eq!(Value::Def(205).to_text(), "205");
}

#[test]
fn decimal_text() {
    let mut s = String::from("n=");
    push_decimal(&mut s, 100);
    assert_eq!(s, "n=100");
    let mut t = String::new();
    push_decimal(&mut t, 9);
    push_decimal(&mut t, 10);
    push_decimal(&mut t, 255);
    assert_eq!(t, "910255");
}

#[test]
fn board_text() {
    let chars: Vec<char> = "5".chars().chain(std::iter::repeat('0').take(79)).chain("8".chars()).collect();
    let b = Board::create_board().fill_board_x(&parse_board(&chars)).ok().unwrap();
    let text = b.to_text();
    let mut expected = String::from("\n5________");
    for _ in 0..7 {
        expected.push_str("\n_________");
    }
    expected.push_str("\n________8");
    assert_eq!(text, expected);
}

#[test]
fn change_text() {
    assert_eq!(change_to_text(&Change(Reference::Ord(40), Value::Def(3))), "(5, 5) to 3");
    assert_eq!(change_to_text(&Change(Reference::XY((1, 9)), Value::Def(9))), "(1, 9) to 9");
}

#[test]
fn characters_to_values() {
    assert_eq!(char_value('0'), Value::Pos(ALL));
    assert_eq!(char_value('1'), Value::Def(1));
    assert_eq!(char_value('9'), Value::Def(9));
    assert_eq!(char_value('x'), Value::Pos(ALL));
    assert_eq!(char_value(' '), Value::Pos(ALL));
}

#[test]
fn rows_as_typed() {
    let row: Vec<char> = "1203".chars().collect();
    match parse_row(2, &row) {
        RowInput::Cells(cs) => assert_eq!(
            cs,
            vec![
                Change(Reference::XY((1, 3)), Value::Def(1)),
                Change(Reference::XY((2, 3)), Value::Def(2)),
                Change(Reference::XY((3, 3)), Value::Pos(ALL)),
                Change(Reference::XY((4, 3)), Value::Def(3)),
            ]
        ),
        _ => panic!("expected cells"),
    }
    let z: Vec<char> = "z123".chars().collect();
    assert!(matches!(parse_row(0, &z), RowInput::WholeBoard));
    let long: Vec<char> = "1234567891".chars().collect();
    assert!(matches!(parse_row(0, &long), RowInput::Skip));
    let nine: Vec<char> = "123456789".chars().collect();
    match parse_row(8, &nine) {
        RowInput::Cells(cs) => {
            assert_eq!(cs.len(), 9);
            assert_eq!(cs[8], Change(Reference::XY((9, 9)), Value::Def(9)));
        },
        _ => panic!("expected cells"),
    }
}

#[test]
fn whole_board_as_typed() {
    let line: Vec<char> = "40a".chars().collect();
    assert_eq!(
        parse_board(&line),
        vec![
            Change(Reference::Ord(0), Value::Def(4)),
            Change(Reference::Ord(1), Value::Pos(ALL)),
            Change(Reference::Ord(2), Value::Pos(ALL)),
        ]
    );
    assert!(parse_board(&Vec::new()).is_empty());
}
