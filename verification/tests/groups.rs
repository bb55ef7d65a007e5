use sudoku::disclusion::BitSet;
use sudoku::utils::{Board, Change, Reference, Value};

fn bits(positions: &[usize]) -> [bool; 9] {
    let mut c = [false; 9];
    for p in positions {
        c[*p] = true;
    }
    c
}

fn without(digits: &[u8]) -> [bool; 9] {
    let mut p = [true; 9];
    for d in digits {
        p[(*d - 1) as usize] = false;
    }
    p
}

fn set(b: Board, i: usize, v: Value) -> Board {
    b.fill_board(&Reference::Ord(i), v).ok().unwrap()
}

#[test]
fn bitset_counts() {
    let s = BitSet::create(bits(&[0, 4, 8]));
    assert_eq!(s.size, 3);
    assert_eq!(BitSet::empty().size, 0);
    assert_eq!(BitSet::full().size, 9);
    assert_eq!(BitSet::full().c, [true; 9]);
    let mut t = BitSet::empty();
    t.add(3);
    assert_eq!(t.c, bits(&[3]));
    assert_eq!(t.size, 1);
    t.remove(3);
    assert_eq!(t, BitSet::empty());
}

#[test]
fn bitset_moves() {
    let mut a = BitSet::create(bits(&[0]));
    let mut b = BitSet::create(bits(&[0, 2, 5]));
    a.move_one_from(&mut b);
    assert_eq!(a, BitSet::create(bits(&[0, 2])));
    assert_eq!(b, BitSet::create(bits(&[0, 5])));
    let mut c = BitSet::create(bits(&[1, 7]));
    let d = a.move_from(&mut c, 7);
    assert_eq!(d, BitSet::create(bits(&[0, 2, 7])));
    assert_eq!(a, BitSet::create(bits(&[0, 2])));
    assert_eq!(c, BitSet::create(bits(&[1])));
    let mut e = BitSet::create(bits(&[4]));
    let mut f = BitSet::create(bits(&[4]));
    e.move_one_from(&mut f);
    assert_eq!(e, BitSet::create(bits(&[4])));
    assert_eq!(f, BitSet::create(bits(&[4])));
}

#[test]
fn bitset_union() {
    let u = BitSet::create(bits(&[0, 1])).union_of(&BitSet::create(bits(&[1, 6])));
    assert_eq!(u, BitSet::create(bits(&[0, 1, 6])));
    assert_eq!(u.size, 3);
}

#[test]
fn find_group_hidden_pair() {
    let mut mapping: [Option<BitSet>; 9] = [Some(BitSet::full()); 9];
    mapping[0] = Some(BitSet::create(bits(&[0, 1])));
    mapping[1] = Some(BitSet::create(bits(&[0, 1])));
    let found = BitSet::find_group(mapping, 2);
    assert_eq!(found, Some((BitSet::create(bits(&[0, 1])), BitSet::create(bits(&[0, 1])))));
}

#[test]
fn find_group_needs_four_digits() {
    let mut mapping: [Option<BitSet>; 9] = [None; 9];
    mapping[0] = Some(BitSet::create(bits(&[0, 1])));
    mapping[1] = Some(BitSet::create(bits(&[0, 1])));
    mapping[2] = Some(BitSet::create(bits(&[2, 3])));
    assert_eq!(BitSet::find_group(mapping, 2), None);
}

#[test]
fn find_group_respects_minimum_depth() {
    let mut mapping: [Option<BitSet>; 9] = [Some(BitSet::full()); 9];
    mapping[0] = Some(BitSet::create(bits(&[0, 1])));
    mapping[1] = Some(BitSet::create(bits(&[0, 1])));
    assert_eq!(BitSet::find_group(mapping, 3), None);
}

#[test]
fn groups_in_a_box() {
    let mut b = Board::create_board();
    for i in [2usize, 9, 10, 11, 18, 19, 20] {
        b = set(b, i, Value::Pos(without(&[1, 2])));
    }
    let pair = Value::Pos([true, true, false, false, false, false, false, false, false]);
    let (b2, changes) = b.find_all_groups().ok().unwrap();
    assert_eq!(changes, vec![Change(Reference::XY((1, 1)), pair), Change(Reference::XY((2, 1)), pair)]);
    assert_eq!(b2.spaces[0].value, pair);
    assert_eq!(b2.spaces[1].value, pair);
    assert_eq!(b2.spaces[2].value, Value::Pos(without(&[1, 2])));
}

#[test]
fn groups_in_a_row_when_boxes_give_nothing() {
    let mut b = Board::create_board();
    for i in [2usize, 3, 4, 5, 6, 7, 8] {
        b = set(b, 9 * 4 + i, Value::Pos(without(&[8, 9])));
    }
    let (rows_board, row_changes) = b.find_groups(Some(true)).ok().unwrap();
    let (all_board, all_changes) = b.find_all_groups().ok().unwrap();
    let pair = Value::Pos([false, false, false, false, false, false, false, true, true]);
    assert_eq!(row_changes, vec![Change(Reference::Ord(36), pair), Change(Reference::Ord(37), pair)]);
    assert_eq!(all_changes, row_changes);
    assert!(all_board == rows_board);
    let (_, box_changes) = b.find_groups(None).ok().unwrap();
    assert!(box_changes.is_empty());
}

#[test]
fn groups_on_a_fresh_board_change_nothing() {
    let b = Board::create_board();
    let (b2, changes) = b.find_all_groups().ok().unwrap();
    assert!(changes.is_empty());
    assert!(b2 == b);
}

#[test]
fn find_group_takes_the_smallest_group() {
    let mut mapping: [Option<BitSet>; 9] = [Some(BitSet::full()); 9];
    mapping[0] = Some(BitSet::create(bits(&[0, 1])));
    mapping[1] = Some(BitSet::create(bits(&[0, 1])));
    mapping[2] = Some(BitSet::create(bits(&[2, 3, 4])));
    mapping[3] = Some(BitSet::create(bits(&[2, 3, 4])));
    mapping[4] = Some(BitSet::create(bits(&[2, 3, 4])));
    let pair = BitSet::create(bits(&[0, 1]));
    assert_eq!(BitSet::find_group(mapping, 2), Some((pair, pair)));
    let triple = BitSet::create(bits(&[2, 3, 4]));
    assert_eq!(BitSet::find_group(mapping, 3), Some((triple, triple)));
}

#[test]
fn group_search_keeps_a_group_digit_in_each_of_its_cells() {
    let mut b = Board::create_board();
    for i in [9usize, 10, 11, 18, 19, 20] {
        b = set(b, i, Value::Pos(without(&[1, 2, 3])));
    }
    b = set(b, 0, Value::Pos(bits(&[0, 1, 6])));
    b = set(b, 1, Value::Pos(bits(&[1, 2, 7])));
    b = set(b, 2, Value::Pos(bits(&[0, 2, 8])));
    let (b2, changes) = b.find_all_groups().ok().unwrap();
    let expected = vec![
        Change(Reference::XY((1, 1)), Value::Pos(bits(&[0, 1]))),
        Change(Reference::XY((2, 1)), Value::Pos(bits(&[1, 2]))),
        Change(Reference::XY((3, 1)), Value::Pos(bits(&[0, 2]))),
    ];
    assert_eq!(changes, expected);
    assert_eq!(b2.spaces[0].value, Value::Pos(bits(&[0, 1])));
    assert_eq!(b2.spaces[9].value, b.spaces[9].value);
}
