use sudoku::board_utils::{
    filter_changes, get_references_for_box, get_rows_and_columns, get_spaces_with, get_spaces_with_poss,
    BoxCoord,
};
use sudoku::input::parse_board;
use sudoku::utils::{
    is_pos, match_value, ord, ordinal, ordinal2, poss_as_vec, sum_bool, sum_bool_3, sum_option, xy, Board,
    Change, Node, Reference, Value,
};

const ALL: [bool; 9] = [true; 9];

fn without(digits: &[u8]) -> [bool; 9] {
    let mut p = [true; 9];
    for d in digits {
        p[(*d - 1) as usize] = false;
    }
    p
}

fn board_with(cells: &[(usize, char)]) -> Board {
    let mut chars: Vec<char> = vec!['0'; 81];
    for (i, c) in cells {
        chars[*i] = *c;
    }
    let changes = parse_board(&chars);
    Board::create_board().fill_board_x(&changes).ok().unwrap()
}

#[test]
fn ordinal_of_both_forms() {
    assert_eq!(ordinal(&Reference::Ord(40)), 40);
    assert_eq!(ordinal(&Reference::XY((1, 1))), 0);
    assert_eq!(ordinal(&Reference::XY((9, 9))), 80);
    assert_eq!(ordinal(&Reference::XY((4, 2))), 12);
    assert_eq!(ordinal2(&3, &5), 38);
}

#[test]
fn xy_round_trip() {
    for n in 0..81usize {
        let (x, y) = xy(&Reference::Ord(n));
        assert_eq!(ordinal2(&x, &y), n);
    }
    assert_eq!(xy(&Reference::Ord(12)), (4, 2));
    assert_eq!(xy(&Reference::XY((7, 3))), (7, 3));
}

#[test]
fn is_pos_and_match_value() {
    let v = Value::Pos(without(&[2, 5]));
    assert!(is_pos(&v, &1));
    assert!(!is_pos(&v, &2));
    assert!(!is_pos(&v, &0));
    assert!(!is_pos(&v, &10));
    assert!(!is_pos(&Value::Def(3), &3));
    assert_eq!(match_value(&v, 0), 0);
    assert_eq!(match_value(&Value::Def(7), 0), 7);
    assert_eq!(ord(&1), 0);
    assert_eq!(ord(&9), 8);
}

#[test]
fn counting_helpers() {
    assert_eq!(sum_bool(ALL), 9);
    assert_eq!(sum_bool(without(&[1, 2, 3])), 6);
    assert_eq!(sum_bool([false; 9]), 0);
    assert_eq!(sum_bool_3([true, false, true]), 2);
    assert_eq!(sum_option(&[Some(1), None, Some(3), None]), 2);
    assert_eq!(sum_option::<u8>(&[]), 0);
    assert_eq!(poss_as_vec(without(&[1, 3, 5, 7, 9])), vec![2, 4, 6, 8]);
    assert_eq!(poss_as_vec([false; 9]), Vec::<u8>::new());
}

#[test]
fn empty_node_and_change_value() {
    let n = Node::make_empty_node();
    assert_eq!(n, Node { x: 0, y: 0, value: Value::Pos(ALL) });
    let m = n.change_value(Value::Def(4)).ok().unwrap();
    assert_eq!(m.value, Value::Def(4));
    assert!(n.change_value(Value::Pos([false; 9])).is_err());
    let k = n.change_value(Value::Pos(without(&[9]))).ok().unwrap();
    assert_eq!(k.value, Value::Pos(without(&[9])));
}

#[test]
fn created_board_is_fresh() {
    let b = Board::create_board();
    for i in 0..81usize {
        let n = b.return_space_ord(i);
        assert_eq!(n.x as usize, i % 9 + 1);
        assert_eq!(n.y as usize, i / 9 + 1);
        assert_eq!(n.value, Value::Pos(ALL));
    }
    assert_eq!(b.get_spaces_with(0).len(), 81);
}

#[test]
fn fill_board_sets_one_cell() {
    let b = Board::create_board();
    let b2 = b.fill_board(&Reference::XY((3, 2)), Value::Def(6)).ok().unwrap();
    assert_eq!(b2.return_space(&Reference::Ord(11)).value, Value::Def(6));
    assert_eq!(b2.return_space(&Reference::Ord(12)).value, Value::Pos(ALL));
    assert!(b.fill_board(&Reference::Ord(5), Value::Pos([false; 9])).is_err());
}

#[test]
fn fill_board_x_applies_in_order() {
    let changes = vec![
        Change(Reference::Ord(0), Value::Pos(without(&[1]))),
        Change(Reference::Ord(0), Value::Def(2)),
        Change(Reference::XY((9, 9)), Value::Def(9)),
    ];
    let b = Board::create_board().fill_board_x(&changes).ok().unwrap();
    assert_eq!(b.spaces[0].value, Value::Def(2));
    assert_eq!(b.spaces[80].value, Value::Def(9));
    let bad = vec![Change(Reference::Ord(3), Value::Pos([false; 9]))];
    assert!(Board::create_board().fill_board_x(&bad).is_err());
}

#[test]
fn spaces_with_digit_or_candidate() {
    let b = board_with(&[(0, '1'), (1, '2'), (80, '2')]);
    assert_eq!(b.get_spaces_with(1), vec![Reference::XY((1, 1))]);
    assert_eq!(b.get_spaces_with(2), vec![Reference::XY((2, 1)), Reference::XY((9, 9))]);
    assert_eq!(b.get_spaces_with(0).len(), 78);
    assert_eq!(get_spaces_with(&b.spaces[0..3], 0), vec![Reference::XY((3, 1))]);
    assert_eq!(get_spaces_with_poss(&b.spaces[0..3], 5), vec![Reference::XY((3, 1))]);
    assert_eq!(get_spaces_with_poss(&b.spaces[0..3], 0), Vec::<Reference>::new());
}

#[test]
fn rows_and_columns_of_definites() {
    let b = board_with(&[(40, '3')]);
    // cell 40 is (5, 5)
    let (rows, cols) = b.get_rows_and_columns();
    assert!(rows[2][4]);
    assert!(cols[2][4]);
    let mut count = 0;
    for d in 0..9 {
        for k in 0..9 {
            if rows[d][k] {
                count += 1;
            }
        }
    }
    assert_eq!(count, 1);
    let (rows2, cols2) = get_rows_and_columns(&b.spaces);
    assert_eq!(rows2, rows);
    assert_eq!(cols2, cols);
}

#[test]
fn def_exists_in_slice() {
    let b = board_with(&[(0, '1'), (8, '5')]);
    let refs = get_references_for_box(BoxCoord::Ord(0));
    let slice = b.nodes_of(&refs);
    let e = b.get_def_exists(slice);
    assert_eq!(e, [true, false, false, false, false, false, false, false, false]);
    let slice2 = b.nodes_of(&get_references_for_box(BoxCoord::Ord(2)));
    assert_eq!(b.get_def_exists(slice2), [false, false, false, false, true, false, false, false, false]);
}

#[test]
fn references_for_box() {
    let r = get_references_for_box(BoxCoord::Ord(4));
    assert_eq!(r[0], Reference::XY((4, 4)));
    assert_eq!(r[4], Reference::XY((5, 5)));
    assert_eq!(r[8], Reference::XY((6, 6)));
    let r2 = get_references_for_box(BoxCoord::XY((2, 0)));
    assert_eq!(r2[0], Reference::XY((7, 1)));
    assert_eq!(r2[5], Reference::XY((9, 2)));
}

#[test]
fn filter_changes_texts() {
    let changes = vec![
        Change(Reference::Ord(12), Value::Def(7)),
        Change(Reference::Ord(0), Value::Pos(without(&[3]))),
        Change(Reference::XY((9, 8)), Value::Def(1)),
    ];
    let (texts, any_pos) = filter_changes(&changes);
    assert_eq!(texts, vec!["(4, 2) to 7".to_string(), "(9, 8) to 1".to_string()]);
    assert!(any_pos);
    let (texts2, any_pos2) = filter_changes(&vec![Change(Reference::Ord(80), Value::Def(9))]);
    assert_eq!(texts2, vec!["(9, 9) to 9".to_string()]);
    assert!(!any_pos2);
}
