use vstd::prelude::*;

use crate::board_utils::{
    box_cell, box_cells, box_of, box_pos, box_reference, def_among, def_in_col, def_in_row,
    defs_in_range, get_references_for_box, lemma_box_cell, lemma_box_reference, lemma_cell_box,
    BoxCoord,
};
use crate::utils::{
    Board, Change, Node, Reference, SudokuError, Value, arr9, candidate_digits,
    collect, coords_in_range, count_true, lemma_arr9_ext,
    none_possible, opt_seq, ord, poss_as_vec, same_candidates, value_wf,
};

verus! {

// ---------------------------------------------------------------------------
// Model of a solving step
// ---------------------------------------------------------------------------
/// What a step on the cells `s` gives: the new cells and the changes made,
/// or `None` where the step finds a contradiction.
pub open spec fn step_matches(
    r: Result<(Board, Vec<Change>), SudokuError>,
    o: Option<(Seq<Node>, Seq<Change>)>,
) -> bool {
    match o {
        None => r is Err,
        Some((t, cs)) => r is Ok && r->Ok_0.0.spaces@ == t && r->Ok_0.1@ == cs,
    }
}

/// Every cell carries coordinates from 1 to 9, and every definite cell a
/// digit from 1 to 9.
pub open spec fn cells_in_range(s: Seq<Node>) -> bool {
    forall|i: int|
        0 <= i < s.len() ==> coords_in_range(#[trigger] s[i]) && value_wf(s[i].value)
}

/// The cell `s[i]` with the candidates `q`.
pub open spec fn with_candidates(n: Node, q: [bool; 9]) -> Node {
    Node { value: Value::Pos(q), ..n }
}

// --- direct elimination ----------------------------------------------------
/// Digit `k + 1` is definite on the row or the column of cell `i`.
pub open spec fn de_hit(s: Seq<Node>, i: int, k: int) -> bool {
    def_in_row(s, k, s[i].y - 1) || def_in_col(s, k, s[i].x - 1)
}

/// The candidates of cell `i` without the digits definite on its row or
/// column.
pub open spec fn de_new(s: Seq<Node>, i: int) -> [bool; 9] {
    arr9(|k: int| s[i].value->Pos_0[k] && !de_hit(s, i, k))
}

/// Cell `i` is not definite and loses a candidate.
pub open spec fn de_changed(s: Seq<Node>, i: int) -> bool {
    s[i].value is Pos && exists|k: int| 0 <= k < 9 && s[i].value->Pos_0[k] && de_hit(s, i, k)
}

pub open spec fn de_node(s: Seq<Node>, i: int) -> Node {
    if de_changed(s, i) {
        with_candidates(s[i], de_new(s, i))
    } else {
        s[i]
    }
}

pub open spec fn de_change(s: Seq<Node>) -> spec_fn(int) -> Option<Change> {
    |i: int|
        if de_changed(s, i) {
            Some(Change(Reference::Ord(i as usize), Value::Pos(de_new(s, i))))
        } else {
            None
        }
}

/// Removes from every cell that is not definite the digits that are definite
/// on its row or column. Fails if a cell is left without candidates.
pub open spec fn direct_elimination_spec(s: Seq<Node>) -> Option<(Seq<Node>, Seq<Change>)> {
    if exists|i: int| 0 <= i < 81 && de_changed(s, i) && none_possible(#[trigger] de_new(s, i)) {
        None
    } else {
        Some((Seq::new(81, |i: int| de_node(s, i)), collect(81, de_change(s))))
    }
}

/// For every cell that is not definite, its candidates without the digits
/// definite on its row or column, whether or not that removes any.
pub open spec fn ce_change(s: Seq<Node>) -> spec_fn(int) -> Option<Change> {
    |i: int|
        if s[i].value is Pos {
            Some(Change(Reference::Ord(i as usize), Value::Pos(de_new(s, i))))
        } else {
            None
        }
}

// --- box elimination -------------------------------------------------------
/// Digit `k + 1` is definite in box `b`.
pub open spec fn box_has(s: Seq<Node>, b: int, k: int) -> bool {
    def_among(box_cells(s, b), k)
}

pub open spec fn be_new(s: Seq<Node>, c: int) -> [bool; 9] {
    arr9(|k: int| s[c].value->Pos_0[k] && !box_has(s, box_of(c), k))
}

pub open spec fn be_changed(s: Seq<Node>, c: int) -> bool {
    s[c].value is Pos && exists|k: int|
        0 <= k < 9 && s[c].value->Pos_0[k] && box_has(s, box_of(c), k)
}

pub open spec fn be_node(s: Seq<Node>, c: int) -> Node {
    if be_changed(s, c) {
        with_candidates(s[c], be_new(s, c))
    } else {
        s[c]
    }
}

/// Changes in box order: box `t / 9`, cell `t % 9` of that box.
pub open spec fn be_change(s: Seq<Node>) -> spec_fn(int) -> Option<Change> {
    |t: int|
        {
            let c = box_cell(t / 9, t % 9);
            if be_changed(s, c) {
                Some(Change(Reference::Ord(c as usize), Value::Pos(be_new(s, c))))
            } else {
                None
            }
        }
}

/// Removes from every cell that is not definite the digits definite in its
/// box. Fails if a cell is left without candidates.
pub open spec fn box_elimination_spec(s: Seq<Node>) -> Option<(Seq<Node>, Seq<Change>)> {
    if exists|c: int| 0 <= c < 81 && be_changed(s, c) && none_possible(#[trigger] be_new(s, c)) {
        None
    } else {
        Some((Seq::new(81, |c: int| be_node(s, c)), collect(81, be_change(s))))
    }
}

// --- depossibilize ---------------------------------------------------------
/// Cell `i` is not definite and has exactly one candidate.
pub open spec fn dp_changed(s: Seq<Node>, i: int) -> bool {
    s[i].value is Pos && count_true(s[i].value->Pos_0@) == 1
}

/// The single candidate of cell `i`, as a definite value.
pub open spec fn dp_value(s: Seq<Node>, i: int) -> Value {
    Value::Def(candidate_digits(s[i].value->Pos_0@)[0])
}

pub open spec fn dp_node(s: Seq<Node>, i: int) -> Node {
    if dp_changed(s, i) {
        Node { value: dp_value(s, i), ..s[i] }
    } else {
        s[i]
    }
}

pub open spec fn dp_change(s: Seq<Node>) -> spec_fn(int) -> Option<Change> {
    |i: int|
        if dp_changed(s, i) {
            Some(Change(Reference::Ord(i as usize), dp_value(s, i)))
        } else {
            None
        }
}

/// Makes every cell with a single candidate definite.
pub open spec fn depossibilize_spec(s: Seq<Node>) -> (Seq<Node>, Seq<Change>) {
    (Seq::new(81, |i: int| dp_node(s, i)), collect(81, dp_change(s)))
}


// ---------------------------------------------------------------------------
// Steps
// ---------------------------------------------------------------------------
impl Board {
    /// Removes from every cell that is not definite the digits definite on its
    /// row or column; fails if a cell is left without candidates.
    pub fn direct_elimination(self) -> (r: Result<(Self, Vec<Change>), SudokuError>)
        requires
            cells_in_range(self.spaces@),
        ensures
            step_matches(r, direct_elimination_spec(self.spaces@)),
    {
        let ghost s0 = self.spaces@;
        assert(defs_in_range(s0));
        let (rows, columns) = self.get_rows_and_columns();
        let spaces = self.spaces;
        let mut board = self;
        let mut changes: Vec<Change> = Vec::new();
        let mut i: usize = 0;
        while i < 81
            invariant
                i <= 81,
                s0 == spaces@,
                s0 == self.spaces@,
                cells_in_range(s0),
                forall|d: int, k: int|
                    0 <= d < 9 && 0 <= k < 9 ==> rows[d][k] == def_in_row(s0, d, k) && columns[d][k]
                        == def_in_col(s0, d, k),
                forall|j: int|
                    0 <= j < 81 ==> #[trigger] board.spaces[j] == (if j < i {
                        de_node(s0, j)
                    } else {
                        s0[j]
                    }),
                changes@ == collect(i as int, de_change(s0)),
                forall|j: int|
                    0 <= j < i ==> !(de_changed(s0, j) && none_possible(#[trigger] de_new(s0, j))),
            decreases 81 - i,
        {
            let node = spaces[i];
            proof {
                lemma_collect_step(i as int, de_change(s0));
            }
            match node.value {
                Value::Def(_) => {},
                Value::Pos(p) => {
                    assert(coords_in_range(s0[i as int]));
                    assert forall|k: int| 0 <= k < 9 implies (rows[k][node.y - 1] || columns[k][node.x
                        - 1]) == de_hit(s0, i as int, k) by {}
                    let mut any_changed = false;
                    let mut new_value = p;
                    let mut number: usize = 0;
                    while number < 9
                        invariant
                            number <= 9,
                            node == s0[i as int],
                            coords_in_range(node),
                            node.value == Value::Pos(p),
                            forall|k: int|
                                0 <= k < 9 ==> (rows[k][node.y - 1] || columns[k][node.x - 1])
                                    == de_hit(s0, i as int, k),
                            forall|k: int|
                                0 <= k < 9 ==> new_value[k] == (p[k] && !(k < number && de_hit(
                                    s0,
                                    i as int,
                                    k,
                                ))),
                            any_changed == exists|k: int|
                                0 <= k < number && p[k] && de_hit(s0, i as int, k),
                        decreases 9 - number,
                    {
                        if rows[number][ord(&node.y)] || columns[number][ord(&node.x)] {
                            if new_value[number] {
                                any_changed = true;
                            }
                            new_value[number] = false;
                        }
                        number += 1;
                    }
                    proof {
                        lemma_arr9_ext(|k: int| p[k] && !de_hit(s0, i as int, k), new_value);
                    }
                    if any_changed {
                        let refer = Reference::Ord(i);
                        let val = Value::Pos(new_value);
                        board =
                        match board.fill_board(&refer, val) {
                            Ok(b) => b,
                            Err(e) => {
                                assert(de_changed(s0, i as int) && none_possible(de_new(s0, i as int)));
                                return Err(e);
                            },
                        };
                        changes.push(Change(refer, val));
                    }
                },
            }
            i += 1;
        }
        assert(board.spaces@ =~= Seq::new(81, |j: int| de_node(s0, j)));
        Ok((board, changes))
    }

    /// For every cell that is not definite, the change to its candidates
    /// without the digits definite on its row or column (recorded whether
    /// or not it removes anything); the board itself is left as it is.
    pub fn certain_elimination(self) -> (r: Result<(Self, Vec<Change>), SudokuError>)
        requires
            cells_in_range(self.spaces@),
        ensures
            r is Ok,
            r->Ok_0.0 == self,
            r->Ok_0.1@ == collect(81, ce_change(self.spaces@)),
    {
        let ghost s0 = self.spaces@;
        assert(defs_in_range(s0));
        let (rows, columns) = self.get_rows_and_columns();
        let spaces = self.spaces;
        let mut changes: Vec<Change> = Vec::new();
        let mut i: usize = 0;
        while i < 81
            invariant
                i <= 81,
                s0 == spaces@,
                cells_in_range(s0),
                forall|d: int, k: int|
                    0 <= d < 9 && 0 <= k < 9 ==> rows[d][k] == def_in_row(s0, d, k) && columns[d][k]
                        == def_in_col(s0, d, k),
                changes@ == collect(i as int, ce_change(s0)),
            decreases 81 - i,
        {
            let node = spaces[i];
            proof {
                lemma_collect_step(i as int, ce_change(s0));
            }
            match node.value {
                Value::Def(_) => {},
                Value::Pos(p) => {
                    assert(coords_in_range(s0[i as int]));
                    let mut new_value = p;
                    let mut number: usize = 0;
                    while number < 9
                        invariant
                            number <= 9,
                            node == s0[i as int],
                            coords_in_range(node),
                            node.value == Value::Pos(p),
                            forall|k: int|
                                0 <= k < 9 ==> (rows[k][node.y - 1] || columns[k][node.x - 1])
                                    == de_hit(s0, i as int, k),
                            forall|k: int|
                                0 <= k < 9 ==> new_value[k] == (p[k] && !(k < number && de_hit(
                                    s0,
                                    i as int,
                                    k,
                                ))),
                        decreases 9 - number,
                    {
                        if rows[number][ord(&node.y)] || columns[number][ord(&node.x)] {
                            new_value[number] = false;
                        }
                        number += 1;
                    }
                    proof {
                        lemma_arr9_ext(|k: int| p[k] && !de_hit(s0, i as int, k), new_value);
                    }
                    changes.push(Change(Reference::Ord(i), Value::Pos(new_value)));
                },
            }
            i += 1;
        }
        Ok((self, changes))
    }

    #[verifier::rlimit(40)]
    /// Removes from every cell that is not definite the digits definite in its
    /// box; fails if a cell is left without candidates.
    pub fn box_elimination(self) -> (r: Result<(Self, Vec<Change>), SudokuError>)
        requires
            forall|c: int| 0 <= c < 81 ==> value_wf((#[trigger] self.spaces[c]).value),
        ensures
            step_matches(r, box_elimination_spec(self.spaces@)),
    {
        let ghost s0 = self.spaces@;
        let mut board = self;
        let mut changes: Vec<Change> = Vec::new();
        let mut i: u8 = 0;
        while i < 9
            invariant
                i <= 9,
                s0 == self.spaces@,
                s0.len() == 81,
                forall|c: int| 0 <= c < 81 ==> value_wf((#[trigger] s0[c]).value),
                forall|c: int|
                    0 <= c < 81 ==> #[trigger] board.spaces[c] == (if box_of(c) < i {
                        be_node(s0, c)
                    } else {
                        s0[c]
                    }),
                changes@ == collect(9 * i, be_change(s0)),
                forall|c: int|
                    0 <= c < 81 && box_of(c) < i ==> !(be_changed(s0, c) && none_possible(
                        #[trigger] be_new(s0, c),
                    )),
            decreases 9 - i,
        {
            let references = get_references_for_box(BoxCoord::Ord(i));
            let mut board_slice: [Node; 9] = [Node::make_empty_node();9];
            let mut j: usize = 0;
            while j < 9
                invariant
                    i < 9,
                    j <= 9,
                    s0 == self.spaces@,
                    s0.len() == 81,
                    forall|jj: int|
                        0 <= jj < 9 ==> #[trigger] references[jj] == box_reference(
                            (i % 3) as u8,
                            (i / 3) as u8,
                            jj,
                        ),
                    forall|c: int|
                        0 <= c < 81 ==> #[trigger] board.spaces[c] == (if box_of(c) < i {
                            be_node(s0, c)
                        } else {
                            s0[c]
                        }),
                    forall|jj: int| 0 <= jj < j ==> #[trigger] board_slice[jj] == s0[box_cell(i as int, jj)],
                decreases 9 - j,
            {
                proof {
                    lemma_box_reference(i as int, j as int);
                    lemma_box_cell(i as int, j as int);
                }
                board_slice[j] = board.return_space(&references[j]);
                j += 1;
            }
            assert(board_slice@ =~= box_cells(s0, i as int));
            assert forall|jj: int| 0 <= jj < 9 implies value_wf((#[trigger] board_slice[jj]).value) by {
                lemma_box_cell(i as int, jj);
            }
            let def_exists = board.get_def_exists(board_slice);
            let mut j: usize = 0;
            while j < 9
                invariant
                    i < 9,
                    j <= 9,
                    s0 == self.spaces@,
                    s0.len() == 81,
                    board_slice@ == box_cells(s0, i as int),
                    forall|k: int| 0 <= k < 9 ==> def_exists[k] == box_has(s0, i as int, k),
                    forall|jj: int|
                        0 <= jj < 9 ==> #[trigger] references[jj] == box_reference(
                            (i % 3) as u8,
                            (i / 3) as u8,
                            jj,
                        ),
                    forall|c: int|
                        0 <= c < 81 ==> #[trigger] board.spaces[c] == (if box_of(c) < i || (box_of(c)
                            == i && box_pos(c) < j) {
                            be_node(s0, c)
                        } else {
                            s0[c]
                        }),
                    changes@ == collect(9 * i + j, be_change(s0)),
                    forall|c: int|
                        0 <= c < 81 && (box_of(c) < i || (box_of(c) == i && box_pos(c) < j)) ==> !(
                        be_changed(s0, c) && none_possible(#[trigger] be_new(s0, c))),
                decreases 9 - j,
            {
                let ghost c = box_cell(i as int, j as int);
                proof {
                    lemma_box_reference(i as int, j as int);
                    lemma_box_cell(i as int, j as int);
                    lemma_collect_step(9 * i + j, be_change(s0));
                    assert((9 * i + j) / 9 == i && (9 * i + j) % 9 == j);
                    assert forall|c2: int| 0 <= c2 < 81 && box_of(c2) == i && box_pos(c2) == j implies c2
                        == c by {
                        lemma_cell_box(c2);
                    }
                }
                let node = board_slice[j];
                assert(node == s0[c]);
                if let Value::Pos(p) = node.value {
                    let new_p = without(&p, &def_exists);
                    proof {
                        lemma_arr9_ext(|kk: int| p[kk] && !box_has(s0, box_of(c), kk), new_p);
                        if !be_changed(s0, c) {
                            assert(new_p =~= p);
                        }
                        if be_changed(s0, c) {
                            let kk = choose|kk: int| 0 <= kk < 9 && p[kk] && box_has(s0, box_of(c), kk);
                            assert(new_p[kk] != p[kk]);
                        }
                    }
                    if !same_candidates(&new_p, &p) {
                        let number = crate::utils::ordinal(&references[j]);
                        board.spaces[number] =
                        match node.change_value(Value::Pos(new_p)) {
                            Ok(n) => n,
                            Err(e) => {
                                assert(be_changed(s0, c) && none_possible(be_new(s0, c)));
                                return Err(e);
                            },
                        };
                        changes.push(Change(Reference::Ord(number), Value::Pos(new_p)));
                    }
                }
                j += 1;
            }
            assert forall|c: int| 0 <= c < 81 && box_of(c) == i implies box_pos(c) < 9 by {
                lemma_cell_box(c);
            }
            i += 1;
        }
        assert forall|c: int| 0 <= c < 81 implies box_of(c) < 9 by {
            lemma_cell_box(c);
        }
        assert(board.spaces@ =~= Seq::new(81, |c: int| be_node(s0, c)));
        Ok((board, changes))
    }

    /// Makes every cell with a single candidate definite.
    pub fn depossibilize(self) -> (r: Result<(Self, Vec<Change>), SudokuError>)
        ensures
            step_matches(r, Some(depossibilize_spec(self.spaces@))),
    {
        let ghost s0 = self.spaces@;
        let spaces = self.spaces;
        let mut board = self;
        let mut changes: Vec<Change> = Vec::new();
        let mut i: usize = 0;
        while i < 81
            invariant
                i <= 81,
                s0 == spaces@,
                s0 == self.spaces@,
                forall|j: int|
                    0 <= j < 81 ==> #[trigger] board.spaces[j] == (if j < i {
                        dp_node(s0, j)
                    } else {
                        s0[j]
                    }),
                changes@ == collect(i as int, dp_change(s0)),
            decreases 81 - i,
        {
            let node = spaces[i];
            proof {
                lemma_collect_step(i as int, dp_change(s0));
            }
            match node.value {
                Value::Def(_) => {},
                Value::Pos(p) => {
                    let poss_vec = poss_as_vec(p);
                    proof {
                        lemma_candidate_digits(p@);
                    }
                    if poss_vec.len() == 1 {
                        let refer = Reference::Ord(i);
                        let val = Value::Def(poss_vec[0]);
                        board =
                        match board.fill_board(&refer, val) {
                            Ok(b) => b,
                            Err(e) => {
                                return Err(e);
                            },
                        };
                        changes.push(Change(refer, val));
                    }
                },
            }
            i += 1;
        }
        assert(board.spaces@ =~= Seq::new(81, |j: int| dp_node(s0, j)));
        Ok((board, changes))
    }

    /// Makes every digit possible again in every cell that is not definite.
    pub fn reset_possibilities(self) -> (r: Self)
        ensures
            forall|i: int|
                0 <= i < 81 ==> #[trigger] r.spaces[i] == (if self.spaces[i].value is Pos {
                    with_candidates(self.spaces[i], arr9(|k: int| true))
                } else {
                    self.spaces[i]
                }),
    {
        let ghost s0 = self.spaces@;
        let mut board = self;
        let mut i: usize = 0;
        while i < 81
            invariant
                i <= 81,
                s0.len() == 81,
                forall|j: int|
                    0 <= j < 81 ==> #[trigger] board.spaces[j] == (if j < i && s0[j].value is Pos {
                        with_candidates(s0[j], arr9(|k: int| true))
                    } else {
                        s0[j]
                    }),
            decreases 81 - i,
        {
            let node = board.spaces[i];
            match node.value {
                Value::Def(_) => {},
                Value::Pos(_) => {
                    let all = [true;9];
                    proof {
                        lemma_arr9_ext(|k: int| true, all);
                        assert(all[0]);
                    }
                    match node.change_value(Value::Pos(all)) {
                        Ok(n) => {
                            board.spaces[i] = n;
                        },
                        Err(_) => {
                            assert(false);
                        },
                    }
                },
            }
            i += 1;
        }
        board
    }
}

/// The flags of `p` with those of `remove` cleared.
fn without(p: &[bool; 9], remove: &[bool; 9]) -> (r: [bool; 9])
    ensures
        forall|k: int| 0 <= k < 9 ==> r[k] == (p[k] && !remove[k]),
{
    let mut new_p = *p;
    let mut k: usize = 0;
    while k < 9
        invariant
            k <= 9,
            forall|kk: int|
                0 <= kk < 9 ==> new_p[kk] == (if kk < k {
                    p[kk] && !remove[kk]
                } else {
                    p[kk]
                }),
        decreases 9 - k,
    {
        new_p[k] = p[k] && !remove[k];
        k += 1;
    }
    new_p
}

// ---------------------------------------------------------------------------
// Lemmas
// ---------------------------------------------------------------------------
pub proof fn lemma_collect_step<T>(n: int, f: spec_fn(int) -> Option<T>)
    requires
        0 <= n,
    ensures
        collect(n + 1, f) == collect(n, f) + opt_seq(f(n)),
{
}

/// The candidate digits are as many as the set flags, and each lies between
/// 1 and the number of flags.
pub proof fn lemma_candidate_digits(p: Seq<bool>)
    requires
        p.len() <= 255,
    ensures
        candidate_digits(p).len() == count_true(p),
        forall|i: int|
            0 <= i < candidate_digits(p).len() ==> 1 <= #[trigger] candidate_digits(p)[i] <= p.len(),
    decreases p.len(),
{
    if p.len() > 0 {
        lemma_candidate_digits(p.drop_last());
        let a = candidate_digits(p.drop_last());
        assert forall|i: int|
            0 <= i < candidate_digits(p).len() implies 1 <= #[trigger] candidate_digits(p)[i]
            <= p.len() by {
            if i < a.len() {
                assert(candidate_digits(p)[i] == a[i]);
            }
        }
    }
}

} // verus!
