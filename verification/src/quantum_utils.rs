use vstd::prelude::*;

use crate::board_utils::{
    box_cell, box_cells, box_of, box_pos, box_reference, get_references_for_box, lemma_box_cell,
    lemma_box_reference, lemma_cell_box, BoxCoord,
};
use crate::solver::{box_has, lemma_collect_step, step_matches, with_candidates};
use crate::utils::{
    Board, Change, Reference, SudokuError, collect, names_cell, none_possible, same_candidates,
    spec_ordinal,
};
use crate::board_utils::def_among;
use crate::utils::{
    Node, Value, arr9, coords_in_range, count_true, filter_map, lemma_arr9,
    lemma_arr9_ext, lemma_count_true_one, lemma_filter_map_all, lemma_filter_map_step, ord,
    only_position, sum_bool, sum_bool_3, value_wf,
};

verus! {

/// A definite digit (`.0`) with the column (`.1`) and row (`.2`) of its cell.
#[derive(Debug, Copy, Clone)]
pub struct Definite(pub u8, pub u8, pub u8);

/// For each digit, the only row (`rows`) and the only column (`cols`) of a
/// box in which it is still possible, counted from 1; 0 where there is no
/// single one.
#[derive(Debug, Copy, Clone)]
pub struct Certainties {
    pub rows: [u8; 9],
    pub cols: [u8; 9],
}

// ---------------------------------------------------------------------------
// Model
// ---------------------------------------------------------------------------
/// Cells that are not definite carry coordinates from 1 to 9.
pub open spec fn pos_in_range(s: Seq<Node>) -> bool {
    forall|i: int| 0 <= i < s.len() && (#[trigger] s[i]).value is Pos ==> coords_in_range(s[i])
}

/// Digit `d + 1` is still possible in some cell of `s` on row `r + 1`.
pub open spec fn cand_in_row(s: Seq<Node>, d: int, r: int) -> bool {
    exists|i: int|
        0 <= i < s.len() && (#[trigger] s[i]).value is Pos && s[i].value->Pos_0[d] && s[i].y == r
            + 1
}

/// Digit `d + 1` is still possible in some cell of `s` on column `c + 1`.
pub open spec fn cand_in_col(s: Seq<Node>, d: int, c: int) -> bool {
    exists|i: int|
        0 <= i < s.len() && (#[trigger] s[i]).value is Pos && s[i].value->Pos_0[d] && s[i].x == c
            + 1
}

/// The rows (counted from 0) where digit `d + 1` is still possible.
pub open spec fn cand_rows(s: Seq<Node>, d: int) -> [bool; 9] {
    arr9(|r: int| cand_in_row(s, d, r))
}

/// The columns (counted from 0) where digit `d + 1` is still possible.
pub open spec fn cand_cols(s: Seq<Node>, d: int) -> [bool; 9] {
    arr9(|c: int| cand_in_col(s, d, c))
}

/// The definite cells of a sequence, as `Definite`s.
pub open spec fn as_definite() -> spec_fn(Node) -> Option<Definite> {
    |node: Node|
        match node.value {
            Value::Def(n) => Some(Definite(n, node.x, node.y)),
            Value::Pos(_) => None,
        }
}

/// The only set position counted from 1, or 0 unless exactly one is set.
pub open spec fn certainty(p: [bool; 9]) -> u8 {
    if count_true(p@) == 1 {
        (only_position(p@) + 1) as u8
    } else {
        0
    }
}

/// Where a solo lies: the column and row of the single place for a digit.
pub open spec fn solo_of(c: Certainties, n: int) -> Option<(u8, u8)> {
    if c.cols[n] != 0 && c.rows[n] != 0 {
        Some((c.cols[n], c.rows[n]))
    } else {
        None
    }
}

/// The coordinates of the last cell of `s` (among the first `k`) that holds
/// digit `d + 1`.
pub open spec fn last_def(s: Seq<Node>, d: int, k: int) -> Option<(u8, u8)>
    decreases k,
{
    if k <= 0 {
        None
    } else if s[k - 1].value == Value::Def((d + 1) as u8) {
        Some((s[k - 1].x, s[k - 1].y))
    } else {
        last_def(s, d, k - 1)
    }
}

/// For box `k` excluded: some other certainty puts digit `i + 1` on row
/// (column) `r + 1`.
pub open spec fn row_taken_elsewhere(a: Seq<Certainties>, k: int, i: int, r: int) -> bool {
    exists|b: int| 0 <= b < a.len() && b != k && (#[trigger] a[b]).rows[i] == r + 1
}

pub open spec fn col_taken_elsewhere(a: Seq<Certainties>, k: int, i: int, r: int) -> bool {
    exists|b: int| 0 <= b < a.len() && b != k && (#[trigger] a[b]).cols[i] == r + 1
}

/// Certainties name rows and columns from 1 to 9 (or none).
pub open spec fn certainties_in_range(c: Certainties) -> bool {
    forall|i: int| 0 <= i < 9 ==> c.rows[i] <= 9 && c.cols[i] <= 9
}

// --- final quantum ---------------------------------------------------------
/// The single row (counted from 1, or 0) of digit `d + 1` within box `n`.
pub open spec fn box_row_cert(s: Seq<Node>, n: int, d: int) -> u8 {
    certainty(cand_rows(box_cells(s, n), d))
}

/// The single column (counted from 1, or 0) of digit `d + 1` within box `n`.
pub open spec fn box_col_cert(s: Seq<Node>, n: int, d: int) -> u8 {
    certainty(cand_cols(box_cells(s, n), d))
}

/// Some box other than `b` must place digit `d + 1` on row `r + 1`.
pub open spec fn row_pinned_elsewhere(s: Seq<Node>, b: int, d: int, r: int) -> bool {
    exists|a: int| 0 <= a < 9 && a != b && #[trigger] box_row_cert(s, a, d) == r + 1
}

/// Some box other than `b` must place digit `d + 1` on column `c + 1`.
pub open spec fn col_pinned_elsewhere(s: Seq<Node>, b: int, d: int, c: int) -> bool {
    exists|a: int| 0 <= a < 9 && a != b && #[trigger] box_col_cert(s, a, d) == c + 1
}

/// Digit `d + 1` is pinned by another box to the row or column of cell `c`.
pub open spec fn fq_hit(s: Seq<Node>, c: int, d: int) -> bool {
    row_pinned_elsewhere(s, box_of(c), d, c / 9) || col_pinned_elsewhere(s, box_of(c), d, c % 9)
}

pub open spec fn fq_new(s: Seq<Node>, c: int) -> [bool; 9] {
    arr9(|d: int| s[c].value->Pos_0[d] && !fq_hit(s, c, d))
}

pub open spec fn fq_changed(s: Seq<Node>, c: int) -> bool {
    s[c].value is Pos && exists|d: int| 0 <= d < 9 && s[c].value->Pos_0[d] && fq_hit(s, c, d)
}

pub open spec fn fq_node(s: Seq<Node>, c: int) -> Node {
    if fq_changed(s, c) {
        with_candidates(s[c], fq_new(s, c))
    } else {
        s[c]
    }
}

/// The order in which boxes are visited: by box column, then box row.
pub open spec fn fq_box(t: int) -> int {
    3 * (t % 3) + t / 3
}

pub open spec fn fq_change(s: Seq<Node>) -> spec_fn(int) -> Option<Change> {
    |u: int|
        {
            let t = u / 9;
            let j = u % 9;
            let c = box_cell(fq_box(t), j);
            if fq_changed(s, c) {
                Some(Change(box_reference((t / 3) as u8, (t % 3) as u8, j), Value::Pos(fq_new(s, c))))
            } else {
                None
            }
        }
}

/// Removes from each cell the digits that another box pins to the cell's row
/// or column. Fails if a cell is left without candidates.
pub open spec fn final_quantum_spec(s: Seq<Node>) -> Option<(Seq<Node>, Seq<Change>)> {
    if exists|c: int| 0 <= c < 81 && fq_changed(s, c) && none_possible(#[trigger] fq_new(s, c)) {
        None
    } else {
        Some((Seq::new(81, |c: int| fq_node(s, c)), collect(81, fq_change(s))))
    }
}


// --- quantum double --------------------------------------------------------
/// No box on box row `y` holds digit `v + 1` or pins it to a single row.
pub open spec fn qd_row_free(s: Seq<Node>, v: int, y: int) -> bool {
    forall|n: int| 0 <= n < 9 && n / 3 == y ==> #[trigger] box_row_free(s, n, v)
}

/// Box `n` neither holds digit `v + 1` nor pins it to a single row.
pub open spec fn box_row_free(s: Seq<Node>, n: int, v: int) -> bool {
    !box_has(s, n, v) && box_row_cert(s, n, v) == 0
}

/// Box `n` neither holds digit `v + 1` nor pins it to a single column.
pub open spec fn box_col_free(s: Seq<Node>, n: int, v: int) -> bool {
    !box_has(s, n, v) && box_col_cert(s, n, v) == 0
}

/// No box on box column `x` holds digit `v + 1` or pins it to a single column.
pub open spec fn qd_col_free(s: Seq<Node>, v: int, x: int) -> bool {
    forall|n: int| 0 <= n < 9 && n % 3 == x ==> #[trigger] box_col_free(s, n, v)
}

/// The three rows of box `n` (relative, top to bottom) where digit `v + 1` is
/// still possible.
pub open spec fn box_rows3(s: Seq<Node>, n: int, v: int) -> Seq<bool> {
    Seq::new(3, |k: int| cand_in_row(box_cells(s, n), v, 3 * (n / 3) + k))
}

/// The three columns of box `n` (relative, left to right) where digit
/// `v + 1` is still possible.
pub open spec fn box_cols3(s: Seq<Node>, n: int, v: int) -> Seq<bool> {
    Seq::new(3, |k: int| cand_in_col(box_cells(s, n), v, 3 * (n % 3) + k))
}

/// Among three boxes, a pair that confines a digit to the same two lines:
/// the third box and those lines (pairs tried as (0, 1), (0, 2), (1, 2)).
pub open spec fn pair_of(g: Seq<Seq<bool>>) -> Option<(int, Seq<bool>)> {
    if count_true(g[0]) == 2 && g[1] == g[0] {
        Some((2, g[0]))
    } else if count_true(g[0]) == 2 && g[2] == g[0] {
        Some((1, g[0]))
    } else if count_true(g[1]) == 2 && g[2] == g[1] {
        Some((0, g[1]))
    } else if count_true(g[1]) == 2 && g[0] == g[1] {
        Some((2, g[1]))
    } else {
        None
    }
}

/// The row patterns of digit `v + 1` in the boxes of box row `y`.
pub open spec fn row_group(s: Seq<Node>, v: int, y: int) -> Seq<Seq<bool>> {
    seq![box_rows3(s, 3 * y, v), box_rows3(s, 3 * y + 1, v), box_rows3(s, 3 * y + 2, v)]
}

/// The column patterns of digit `v + 1` in the boxes of box column `x`.
pub open spec fn col_group(s: Seq<Node>, v: int, x: int) -> Seq<Seq<bool>> {
    seq![box_cols3(s, x, v), box_cols3(s, x + 3, v), box_cols3(s, x + 6, v)]
}

/// Digit `v + 1` is removed from cell `c` by the pair found on box row `y`.
#[verifier::opaque]
pub open spec fn row_mark(s: Seq<Node>, v: int, y: int, c: int) -> bool {
    &&& qd_row_free(s, v, y)
    &&& match pair_of(row_group(s, v, y)) {
        Some((cc, pat)) => box_of(c) == 3 * y + cc && pat[(c / 9) % 3],
        None => false,
    }
}

/// Digit `v + 1` is removed from cell `c` by the pair found on box column
/// `x`.
pub open spec fn col_mark(s: Seq<Node>, v: int, x: int, c: int) -> bool {
    &&& qd_col_free(s, v, x)
    &&& match pair_of(col_group(s, v, x)) {
        Some((cc, pat)) => box_of(c) == 3 * cc + x && pat[(c % 9) % 3],
        None => false,
    }
}

pub open spec fn group_marks(s: Seq<Node>, v: int, y: int, c: int) -> bool {
    row_mark(s, v, y, c) || col_mark(s, v, y, c)
}

/// Digit `v + 1` is removed from cell `c`.
pub open spec fn qd_marked(s: Seq<Node>, c: int, v: int) -> bool {
    group_marks(s, v, 0, c) || group_marks(s, v, 1, c) || group_marks(s, v, 2, c)
}

pub open spec fn qd_new(s: Seq<Node>, c: int) -> [bool; 9] {
    arr9(|v: int| s[c].value->Pos_0[v] && !qd_marked(s, c, v))
}

pub open spec fn qd_changed(s: Seq<Node>, c: int) -> bool {
    s[c].value is Pos && exists|v: int| 0 <= v < 9 && s[c].value->Pos_0[v] && qd_marked(s, c, v)
}

pub open spec fn qd_node(s: Seq<Node>, c: int) -> Node {
    if qd_changed(s, c) {
        with_candidates(s[c], qd_new(s, c))
    } else {
        s[c]
    }
}

/// Changes column by column: cell `9 * (u % 9) + u / 9`.
pub open spec fn qd_change(s: Seq<Node>) -> spec_fn(int) -> Option<Change> {
    |u: int|
        {
            let c = 9 * (u % 9) + u / 9;
            if qd_changed(s, c) {
                Some(Change(Reference::Ord(c as usize), Value::Pos(qd_new(s, c))))
            } else {
                None
            }
        }
}

/// Removes each digit from the cells the row and column passes mark (see
/// `row_mark` and `col_mark`). Fails if a cell is left without candidates.
pub open spec fn quantum_double_spec(s: Seq<Node>) -> Option<(Seq<Node>, Seq<Change>)> {
    if exists|c: int| 0 <= c < 81 && qd_changed(s, c) && none_possible(#[trigger] qd_new(s, c)) {
        None
    } else {
        Some((Seq::new(81, |c: int| qd_node(s, c)), collect(81, qd_change(s))))
    }
}

/// The marks made before the row (`ph == 0`) or column (`ph == 1`) pass of
/// group `y` of digit `v`, or after both (`ph == 2`).
pub open spec fn qd_before(s: Seq<Node>, v: int, y: int, ph: int) -> spec_fn(int, int) -> bool {
    |c: int, w: int|
        (w < v && qd_marked(s, c, w)) || (w == v && ((0 < y && group_marks(s, w, 0, c)) || (1 < y
            && group_marks(s, w, 1, c)) || (2 < y && group_marks(s, w, 2, c)) || (1 <= ph
            && row_mark(s, w, y, c)) || (2 <= ph && col_mark(s, w, y, c))))
}

/// A pending change of the cell `n` at index `c`: present when some digit
/// still possible there is marked by `m`, and then the candidates without
/// the marked digits.
pub open spec fn entry_ok(e: Option<[bool; 9]>, n: Node, c: int, m: spec_fn(int, int) -> bool) -> bool {
    &&& e is Some <==> (n.value is Pos && exists|w: int|
        0 <= w < 9 && n.value->Pos_0[w] && m(c, w))
    &&& e is Some ==> forall|w: int|
        0 <= w < 9 ==> e->Some_0[w] == (n.value->Pos_0[w] && !m(c, w))
}

/// Entry `[x][y]` of the grid is the pending change of cell `9 * y + x`.
pub open spec fn grid_ok(cs: [[Option<[bool; 9]>; 9]; 9], s: Seq<Node>, m: spec_fn(int, int) -> bool) -> bool {
    forall|x: int, y: int|
        0 <= x < 9 && 0 <= y < 9 ==> entry_ok(#[trigger] cs[x][y], s[9 * y + x], 9 * y + x, m)
}

// ---------------------------------------------------------------------------
// Code
// ---------------------------------------------------------------------------
proof fn lemma_cand_in_take(s: Seq<Node>, i: int, d: int, r: int)
    requires
        0 <= i < s.len(),
    ensures
        cand_in_row(s.take(i + 1), d, r) == (cand_in_row(s.take(i), d, r) || (
        s[i].value is Pos && s[i].value->Pos_0[d] && s[i].y == r + 1)),
        cand_in_col(s.take(i + 1), d, r) == (cand_in_col(s.take(i), d, r) || (
        s[i].value is Pos && s[i].value->Pos_0[d] && s[i].x == r + 1)),
{
    let t = s.take(i + 1);
    let u = s.take(i);
    assert(t[i] == s[i]);
    if cand_in_row(t, d, r) {
        let w = choose|w: int|
            0 <= w < t.len() && t[w].value is Pos && t[w].value->Pos_0[d] && t[w].y == r + 1;
        if w < i {
            assert(u[w] == t[w]);
        }
    }
    if cand_in_row(u, d, r) {
        let w = choose|w: int|
            0 <= w < u.len() && u[w].value is Pos && u[w].value->Pos_0[d] && u[w].y == r + 1;
        assert(t[w] == u[w]);
    }
    if cand_in_col(t, d, r) {
        let w = choose|w: int|
            0 <= w < t.len() && t[w].value is Pos && t[w].value->Pos_0[d] && t[w].x == r + 1;
        if w < i {
            assert(u[w] == t[w]);
        }
    }
    if cand_in_col(u, d, r) {
        let w = choose|w: int|
            0 <= w < u.len() && u[w].value is Pos && u[w].value->Pos_0[d] && u[w].x == r + 1;
        assert(t[w] == u[w]);
    }
}

/// For each digit, the rows and columns where it is still possible, and the
/// definite cells in order.
pub fn get_possibilities(board_slice: &[Node]) -> (r: ([[bool; 9]; 9], [[bool; 9]; 9], Vec<Definite>))
    requires
        pos_in_range(board_slice@),
    ensures
        forall|d: int| 0 <= d < 9 ==> r.0[d] == cand_rows(board_slice@, d),
        forall|d: int| 0 <= d < 9 ==> r.1[d] == cand_cols(board_slice@, d),
        r.2@ == filter_map(board_slice@, as_definite()),
{
    let ghost s = board_slice@;
    let mut rows = [[false;9];9];
    let mut columns = [[false;9];9];
    let mut definites: Vec<Definite> = Vec::new();
    let mut i: usize = 0;
    while i < board_slice.len()
        invariant
            i <= s.len(),
            s == board_slice@,
            pos_in_range(s),
            forall|d: int, k: int|
                0 <= d < 9 && 0 <= k < 9 ==> rows[d][k] == cand_in_row(s.take(i as int), d, k)
                    && columns[d][k] == cand_in_col(s.take(i as int), d, k),
            definites@ == filter_map(s.take(i as int), as_definite()),
        decreases s.len() - i,
    {
        proof {
            lemma_filter_map_step(s, as_definite(), i as int);
        }
        let ghost rows0 = rows;
        let ghost cols0 = columns;
        let node = board_slice[i];
        match node.value {
            Value::Def(n) => {
                definites.push(Definite(n, node.x, node.y));
            },
            Value::Pos(p) => {
                let mut n: usize = 0;
                while n < 9
                    invariant
                        n <= 9,
                        coords_in_range(node),
                        forall|d: int, k: int|
                            0 <= d < 9 && 0 <= k < 9 ==> rows[d][k] == (rows0[d][k] || (d < n
                                && p[d] && k == node.y - 1)) && columns[d][k] == (cols0[d][k] || (d
                                < n && p[d] && k == node.x - 1)),
                    decreases 9 - n,
                {
                    if p[n] {
                        let a = ord(&node.y);
                        let b = ord(&node.x);
                        rows[n][a] = true;
                        columns[n][b] = true;
                    }
                    n += 1;
                }
            },
        }
        assert forall|d: int, k: int| 0 <= d < 9 && 0 <= k < 9 implies rows[d][k] == cand_in_row(
            s.take(i + 1),
            d,
            k,
        ) && columns[d][k] == cand_in_col(s.take(i + 1), d, k) by {
            lemma_cand_in_take(s, i as int, d, k);
        }
        i += 1;
    }
    proof {
        lemma_filter_map_all(s, as_definite());
        assert(s.take(s.len() as int) =~= s);
        assert forall|d: int| 0 <= d < 9 implies rows[d] == cand_rows(s, d) && columns[d]
            == cand_cols(s, d) by {
            lemma_arr9_ext(|r: int| cand_in_row(s, d, r), rows[d]);
            lemma_arr9_ext(|c: int| cand_in_col(s, d, c), columns[d]);
        }
    }
    (rows, columns, definites)
}

/// The only set position counted from 1, or 0.
fn certainty_of(p: &[bool; 9]) -> (r: u8)
    ensures
        r == certainty(*p),
        r <= 9,
{
    let mut c: u8 = 0;
    if sum_bool(*p) == 1 {
        proof {
            lemma_count_true_one(p@);
        }
        let mut i: usize = 0;
        while i < 9
            invariant
                i <= 9,
                count_true(p@) == 1,
                0 <= only_position(p@) < 9,
                p[only_position(p@)],
                forall|j: int| 0 <= j < 9 && p[j] ==> j == only_position(p@),
                c == (if only_position(p@) < i {
                    only_position(p@) + 1
                } else {
                    0
                }),
            decreases 9 - i,
        {
            if p[i] {
                c = (i + 1) as u8;
            }
            i += 1;
        }
    }
    c
}

/// For each digit, its single row and single column, counted from 1 (0 where
/// there is no single one).
pub fn get_certainties(possibilities: ([[bool; 9]; 9], [[bool; 9]; 9])) -> (r: Certainties)
    ensures
        forall|n: int|
            0 <= n < 9 ==> r.rows[n] == certainty(possibilities.0[n]) && r.cols[n] == certainty(
                possibilities.1[n],
            ),
        certainties_in_range(r),
{
    let mut rows = [0u8;9];
    let mut cols = [0u8;9];
    let rows_poss = possibilities.0;
    let cols_poss = possibilities.1;
    let mut n: usize = 0;
    while n < 9
        invariant
            n <= 9,
            rows_poss == possibilities.0,
            cols_poss == possibilities.1,
            forall|m: int|
                0 <= m < n ==> rows[m] == certainty(rows_poss[m]) && cols[m] == certainty(
                    cols_poss[m],
                ),
            forall|m: int| 0 <= m < 9 ==> rows[m] <= 9 && cols[m] <= 9,
        decreases 9 - n,
    {
        rows[n] = certainty_of(&rows_poss[n]);
        cols[n] = certainty_of(&cols_poss[n]);
        n += 1;
    }
    Certainties { rows, cols }
}

/// For each digit, the cell it must take: the single column and the single
/// row, where both exist.
pub fn check_solos(certainties: &Certainties) -> (r: [Option<(u8, u8)>; 9])
    ensures
        forall|n: int| 0 <= n < 9 ==> r[n] == solo_of(*certainties, n),
{
    let mut answer: [Option<(u8, u8)>; 9] = [None;9];
    let mut n: usize = 0;
    while n < 9
        invariant
            n <= 9,
            forall|m: int| 0 <= m < n ==> answer[m] == solo_of(*certainties, m),
            forall|m: int| n <= m < 9 ==> answer[m] is None,
        decreases 9 - n,
    {
        let certainty = (certainties.cols[n], certainties.rows[n]);
        if certainty.0 != 0 && certainty.1 != 0 {
            answer[n] = Some(certainty);
        }
        n += 1;
    }
    answer
}

/// The cell each digit must take in `board_slice`, where there is one.
pub fn check_solos_with_slice(board_slice: &[Node]) -> (r: [Option<(u8, u8)>; 9])
    requires
        pos_in_range(board_slice@),
    ensures
        forall|n: int|
            0 <= n < 9 ==> r[n] == (if certainty(cand_cols(board_slice@, n)) != 0 && certainty(
                cand_rows(board_slice@, n),
            ) != 0 {
                Some((certainty(cand_cols(board_slice@, n)), certainty(cand_rows(board_slice@, n))))
            } else {
                None
            }),
{
    let possibilities = get_possibilities(board_slice);
    let certainties = get_certainties((possibilities.0, possibilities.1));
    let r = check_solos(&certainties);
    assert forall|n: int| 0 <= n < 9 implies r[n] == (if certainty(cand_cols(board_slice@, n)) != 0
        && certainty(cand_rows(board_slice@, n)) != 0 {
        Some((certainty(cand_cols(board_slice@, n)), certainty(cand_rows(board_slice@, n))))
    } else {
        None
    }) by {
        assert(possibilities.0[n] == cand_rows(board_slice@, n));
        assert(possibilities.1[n] == cand_cols(board_slice@, n));
        assert(r[n] == solo_of(certainties, n));
    }
    r
}

/// The definite cells of `board_slice`, in order.
pub fn get_def_refs(board_slice: &[Node]) -> (r: Vec<Definite>)
    ensures
        r@ == filter_map(board_slice@, as_definite()),
{
    let mut def_refs: Vec<Definite> = Vec::with_capacity(board_slice.len());
    let mut i: usize = 0;
    while i < board_slice.len()
        invariant
            i <= board_slice@.len(),
            def_refs@ == filter_map(board_slice@.take(i as int), as_definite()),
        decreases board_slice@.len() - i,
    {
        proof {
            lemma_filter_map_step(board_slice@, as_definite(), i as int);
        }
        let node = board_slice[i];
        if let Value::Def(d) = node.value {
            def_refs.push(Definite(d, node.x, node.y));
        }
        i += 1;
    }
    proof {
        lemma_filter_map_all(board_slice@, as_definite());
    }
    def_refs
}

/// For each digit, the coordinates of the last cell holding it.
pub fn get_defs(board_slice: &[Node]) -> (r: [Option<(u8, u8)>; 9])
    requires
        forall|i: int| 0 <= i < board_slice@.len() ==> value_wf((#[trigger] board_slice@[i]).value),
    ensures
        forall|d: int|
            0 <= d < 9 ==> r[d] == last_def(board_slice@, d, board_slice@.len() as int),
{
    let mut defs: [Option<(u8, u8)>; 9] = [None;9];
    let mut i: usize = 0;
    while i < board_slice.len()
        invariant
            i <= board_slice@.len(),
            forall|i: int|
                0 <= i < board_slice@.len() ==> value_wf((#[trigger] board_slice@[i]).value),
            forall|d: int| 0 <= d < 9 ==> defs[d] == last_def(board_slice@, d, i as int),
        decreases board_slice@.len() - i,
    {
        let node = board_slice[i];
        if let Value::Def(d) = node.value {
            assert(value_wf(board_slice@[i as int].value));
            defs[ord(&d)] = Some((node.x, node.y));
        }
        i += 1;
    }
    defs
}

/// Which digits have a position.
pub fn def_bools(definites: &[Option<(u8, u8)>; 9]) -> (r: [bool; 9])
    ensures
        forall|i: int| 0 <= i < 9 ==> r[i] == definites[i] is Some,
{
    let mut answer = [false;9];
    let mut i: usize = 0;
    while i < 9
        invariant
            i <= 9,
            forall|j: int| 0 <= j < i ==> answer[j] == definites[j] is Some,
        decreases 9 - i,
    {
        answer[i] = match definites[i] {
            Some(_) => true,
            None => false,
        };
        i += 1;
    }
    answer
}

impl Certainties {
    /// No single row or column for any digit.
    pub fn initialize() -> (r: Self)
        ensures
            forall|i: int| 0 <= i < 9 ==> r.rows[i] == 0 && r.cols[i] == 0,
    {
        Certainties { rows: [0u8;9], cols: [0u8;9] }
    }

    /// For each digit `i + 1`, the rows (`.0[i]`) and columns (`.1[i]`) that
    /// the certainties of all boxes but box `k` pin it to.
    pub fn sum_except(array: &[Self; 9], k: usize) -> (r: ([[bool; 9]; 9], [[bool; 9]; 9]))
        requires
            forall|b: int| 0 <= b < 9 && b != k ==> certainties_in_range(#[trigger] array[b]),
        ensures
            forall|i: int, m: int|
                0 <= i < 9 && 0 <= m < 9 ==> r.0[i][m] == row_taken_elsewhere(array@, k as int, i, m)
                    && r.1[i][m] == col_taken_elsewhere(array@, k as int, i, m),
    {
        let mut rows = [[false;9];9];
        let mut cols = [[false;9];9];
        let mut b: usize = 0;
        while b < 9
            invariant
                b <= 9,
                forall|b: int| 0 <= b < 9 && b != k ==> certainties_in_range(#[trigger] array[b]),
                forall|i: int, m: int|
                    0 <= i < 9 && 0 <= m < 9 ==> rows[i][m] == row_taken_elsewhere(
                        array@.take(b as int),
                        k as int,
                        i,
                        m,
                    ) && cols[i][m] == col_taken_elsewhere(array@.take(b as int), k as int, i, m),
            decreases 9 - b,
        {
            let ghost rows0 = rows;
            let ghost cols0 = cols;
            let a = array[b];
            if b != k {
                assert(certainties_in_range(array[b as int]));
                let mut i: usize = 0;
                while i < 9
                    invariant
                        i <= 9,
                        certainties_in_range(a),
                        forall|j: int, m: int|
                            0 <= j < 9 && 0 <= m < 9 ==> rows[j][m] == (rows0[j][m] || (j < i
                                && a.rows[j] == m + 1)) && cols[j][m] == (cols0[j][m] || (j < i
                                && a.cols[j] == m + 1)),
                    decreases 9 - i,
                {
                    if a.rows[i] != 0 {
                        rows[i][ord(&a.rows[i])] = true;
                    }
                    if a.cols[i] != 0 {
                        cols[i][ord(&a.cols[i])] = true;
                    }
                    i += 1;
                }
            }
            assert forall|i: int, m: int| 0 <= i < 9 && 0 <= m < 9 implies rows[i][m]
                == row_taken_elsewhere(array@.take(b + 1), k as int, i, m) && cols[i][m]
                == col_taken_elsewhere(array@.take(b + 1), k as int, i, m) by {
                let t = array@.take(b + 1);
                let u = array@.take(b as int);
                assert(t[b as int] == a);
                assert(rows0[i][m] == row_taken_elsewhere(u, k as int, i, m));
                assert(cols0[i][m] == col_taken_elsewhere(u, k as int, i, m));
                if row_taken_elsewhere(t, k as int, i, m) {
                    let w = choose|w: int| 0 <= w < t.len() && w != k && t[w].rows[i] == m + 1;
                    if w < b {
                        assert(u[w] == t[w]);
                    }
                }
                if rows0[i][m] {
                    let w = choose|w: int| 0 <= w < u.len() && w != k && u[w].rows[i] == m + 1;
                    assert(t[w] == u[w]);
                }
                if col_taken_elsewhere(t, k as int, i, m) {
                    let w = choose|w: int| 0 <= w < t.len() && w != k && t[w].cols[i] == m + 1;
                    if w < b {
                        assert(u[w] == t[w]);
                    }
                }
                if cols0[i][m] {
                    let w = choose|w: int| 0 <= w < u.len() && w != k && u[w].cols[i] == m + 1;
                    assert(t[w] == u[w]);
                }
            }
            b += 1;
        }
        assert(array@.take(9) =~= array@);
        (rows, cols)
    }
}

/// The three entries of each row from position `start` on (false past the
/// end).
pub fn cut_down(poss_array: [[bool; 9]; 9], start: usize) -> (r: [[bool; 3]; 9])
    ensures
        forall|i: int, m: int|
            0 <= i < 9 && 0 <= m < 3 ==> r[i][m] == (start + m < 9 && poss_array[i][start + m]),
{
    let mut new = [[false;3];9];
    let mut i: usize = 0;
    while i < 9
        invariant
            i <= 9,
            forall|a: int, m: int|
                0 <= a < i && 0 <= m < 3 ==> new[a][m] == (start + m < 9 && poss_array[a][start
                    + m]),
            forall|a: int, m: int| i <= a < 9 && 0 <= m < 3 ==> !new[a][m],
        decreases 9 - i,
    {
        let mut j: usize = 0;
        while j < 9
            invariant
                i < 9,
                j <= 9,
                forall|a: int, m: int|
                    0 <= a < i && 0 <= m < 3 ==> new[a][m] == (start + m < 9 && poss_array[a][start
                        + m]),
                forall|a: int, m: int| i < a < 9 && 0 <= m < 3 ==> !new[a][m],
                forall|m: int|
                    0 <= m < 3 ==> new[i as int][m] == (start + m < j && poss_array[i as int][start
                        + m]),
            decreases 9 - j,
        {
            if j >= start && j < start + 3 {
                new[i][j - start] = poss_array[i][j];
            }
            j += 1;
        }
        i += 1;
    }
    new
}

/// The flags of `p` with digit `n` cleared where `rows[n][inner_y]` or
/// `cols[n][inner_x]` is set.
fn strip_pinned(p: &[bool; 9], rows: &[[bool; 3]; 9], cols: &[[bool; 3]; 9], inner_x: usize, inner_y: usize) -> (r: [bool; 9])
    requires
        inner_x < 3,
        inner_y < 3,
    ensures
        forall|n: int| 0 <= n < 9 ==> r[n] == (p[n] && !(rows[n][inner_y as int] || cols[n][inner_x as int])),
{
    let mut new_p = *p;
    let mut n: usize = 0;
    while n < 9
        invariant
            n <= 9,
            inner_x < 3,
            inner_y < 3,
            forall|m: int|
                0 <= m < 9 ==> new_p[m] == (if m < n {
                    p[m] && !(rows[m][inner_y as int] || cols[m][inner_x as int])
                } else {
                    p[m]
                }),
        decreases 9 - n,
    {
        if rows[n][inner_y] || cols[n][inner_x] {
            new_p[n] = false;
        }
        n += 1;
    }
    new_p
}

/// The certainties of each box.
fn all_certainties(board: &Board) -> (r: [Certainties; 9])
    requires
        pos_in_range(board.spaces@),
    ensures
        certainties_of(board.spaces@, r),
{
    let mut all_cert: [Certainties; 9] = [Certainties::initialize();9];
    let mut n: usize = 0;
    while n < 9
        invariant
            n <= 9,
            pos_in_range(board.spaces@),
            board.spaces@.len() == 81,
            forall|m: int|
                0 <= m < n ==> certainties_in_range(#[trigger] all_cert[m]) && (forall|d: int|
                    0 <= d < 9 ==> all_cert[m].rows[d] == box_row_cert(board.spaces@, m, d)
                        && all_cert[m].cols[d] == box_col_cert(board.spaces@, m, d)),
        decreases 9 - n,
    {
        let references = get_references_for_box(BoxCoord::Ord(n as u8));
        proof {
            assert forall|i: int| 0 <= i < 9 implies names_cell(#[trigger] references[i])
                && spec_ordinal(references[i]) == box_cell(n as int, i) by {
                lemma_box_reference(n as int, i);
                lemma_box_cell(n as int, i);
            }
        }
        let nodes = board.nodes_of(&references);
        assert(nodes@ =~= box_cells(board.spaces@, n as int));
        let (rows_poss, cols_poss, _definites) = get_possibilities(nodes.as_slice());
        all_cert[n] = get_certainties((rows_poss, cols_poss));
        n += 1;
    }
    all_cert
}

/// The order in which the boxes are visited, inverse of `fq_box`.
pub open spec fn fq_order(b: int) -> int {
    3 * (b % 3) + b / 3
}

/// Cell `c` after the first `t` boxes and the first `j` cells of box
/// `fq_box(t)` are processed.
pub open spec fn fq_partial(s: Seq<Node>, t: int, j: int, c: int) -> Node {
    if fq_order(box_of(c)) < t || (box_of(c) == fq_box(t) && box_pos(c) < j) {
        fq_node(s, c)
    } else {
        s[c]
    }
}

/// No cell processed so far is left without candidates.
pub open spec fn fq_no_failure(s: Seq<Node>, t: int, j: int) -> bool {
    forall|c: int|
        0 <= c < 81 && (fq_order(box_of(c)) < t || (box_of(c) == fq_box(t) && box_pos(c) < j)) ==> !(
        fq_changed(s, c) && none_possible(#[trigger] fq_new(s, c)))
}

/// The certainties of the boxes of `s`.
pub open spec fn certainties_of(s: Seq<Node>, all_cert: [Certainties; 9]) -> bool {
    forall|n: int|
        0 <= n < 9 ==> certainties_in_range(#[trigger] all_cert[n]) && (forall|d: int|
            0 <= d < 9 ==> all_cert[n].rows[d] == box_row_cert(s, n, d) && all_cert[n].cols[d]
                == box_col_cert(s, n, d))
}

proof fn lemma_fq_geometry()
    ensures
        forall|t: int| 0 <= t < 9 ==> 0 <= #[trigger] fq_box(t) < 9 && fq_order(fq_box(t)) == t,
        forall|c: int| 0 <= c < 81 ==> 0 <= #[trigger] fq_order(box_of(c)) < 9,
{
    assert forall|c: int| 0 <= c < 81 implies 0 <= #[trigger] fq_order(box_of(c)) < 9 by {
        lemma_cell_box(c);
    }
}

impl Board {
    /// Processes box `fq_box(t)` of the final quantum step.
    #[verifier::rlimit(60)]
    fn final_quantum_box(
        self,
        changes: &mut Vec<Change>,
        all_cert: &[Certainties; 9],
        x: usize,
        y: usize,
        Ghost(s0): Ghost<Seq<Node>>,
    ) -> (r: Result<Self, SudokuError>)
        requires
            x < 3,
            y < 3,
            s0.len() == 81,
            certainties_of(s0, *all_cert),
            forall|c: int| 0 <= c < 81 ==> #[trigger] self.spaces[c] == fq_partial(s0, 3 * x + y, 0, c),
            old(changes)@ == collect(9 * (3 * x + y), fq_change(s0)),
            fq_no_failure(s0, 3 * x + y, 0),
        ensures
            r is Err ==> exists|c: int|
                0 <= c < 81 && fq_changed(s0, c) && none_possible(#[trigger] fq_new(s0, c)),
            r is Ok ==> (forall|c: int|
                0 <= c < 81 ==> #[trigger] r->Ok_0.spaces[c] == fq_partial(s0, 3 * x + y + 1, 0, c)),
            r is Ok ==> final(changes)@ == collect(9 * (3 * x + y + 1), fq_change(s0)),
            r is Ok ==> fq_no_failure(s0, 3 * x + y + 1, 0),
    {
        let ghost t = 3 * x + y;
        let b = 3 * y + x;
        proof {
            lemma_fq_geometry();
            assert(fq_box(t) == b);
        }
        let references = get_references_for_box(BoxCoord::XY((x as u8, y as u8)));
        proof {
            assert(b % 3 == x && b / 3 == y);
            assert forall|i: int| 0 <= i < 9 implies names_cell(#[trigger] references[i])
                && spec_ordinal(references[i]) == box_cell(b as int, i) by {
                lemma_box_reference(b as int, i);
                lemma_box_cell(b as int, i);
            }
            assert forall|i: int| 0 <= i < 9 implies #[trigger] self.spaces[box_cell(b as int, i)] == s0[box_cell(b as int, i)] by {
                lemma_box_cell(b as int, i);
            }
        }
        let nodes = self.nodes_of(&references);
        let (filled_rows, filled_cols) = Certainties::sum_except(all_cert, b);
        let filled_rows = cut_down(filled_rows, 3 * y);
        let filled_cols = cut_down(filled_cols, 3 * x);
        proof {
            lemma_pinned(s0, *all_cert, b as int);
        }
        let mut board = self;
        let mut j: usize = 0;
        while j < 9
            invariant
                x < 3,
                y < 3,
                j <= 9,
                b == 3 * y + x,
                t == 3 * x + y,
                fq_box(t) == b,
                s0.len() == 81,
                forall|i: int|
                    0 <= i < 9 ==> names_cell(#[trigger] references[i]) && spec_ordinal(references[i])
                        == box_cell(b as int, i),
                forall|i: int| 0 <= i < 9 ==> #[trigger] references[i] == box_reference(x as u8, y as u8, i),
                forall|i: int| 0 <= i < 9 ==> #[trigger] nodes[i] == s0[box_cell(b as int, i)],
                forall|n: int, k: int|
                    0 <= n < 9 && 0 <= k < 3 ==> filled_rows[n][k] == row_pinned_elsewhere(
                        s0,
                        b as int,
                        n,
                        3 * y + k,
                    ) && filled_cols[n][k] == col_pinned_elsewhere(s0, b as int, n, 3 * x + k),
                forall|c: int| 0 <= c < 81 ==> #[trigger] board.spaces[c] == fq_partial(s0, t, j as int, c),
                changes@ == collect(9 * t + j, fq_change(s0)),
                fq_no_failure(s0, t, j as int),
            decreases 9 - j,
        {
            let ghost c = box_cell(b as int, j as int);
            proof {
                lemma_box_cell(b as int, j as int);
                lemma_collect_step(9 * t + j, fq_change(s0));
                assert((9 * t + j) / 9 == t);
                assert((9 * t + j) % 9 == j);
                assert forall|c2: int| 0 <= c2 < 81 && box_of(c2) == b && box_pos(c2) == j implies c2
                    == c by {
                    lemma_cell_box(c2);
                }
            }
            let node = nodes[j];
            if let Value::Pos(p) = node.value {
                let inner_x = j % 3;
                let inner_y = j / 3;
                let new_p = strip_pinned(&p, &filled_rows, &filled_cols, inner_x, inner_y);
                proof {
                    assert(c / 9 == 3 * y + inner_y && c % 9 == 3 * x + inner_x);
                    assert forall|d: int| 0 <= d < 9 implies new_p[d] == (p[d] && !fq_hit(s0, c, d)) by {}
                    lemma_arr9_ext(|d: int| s0[c].value->Pos_0[d] && !fq_hit(s0, c, d), new_p);
                    if !fq_changed(s0, c) {
                        assert(new_p =~= p);
                    }
                    if fq_changed(s0, c) {
                        let d = choose|d: int| 0 <= d < 9 && p[d] && fq_hit(s0, c, d);
                        assert(new_p[d] != p[d]);
                    }
                }
                if !same_candidates(&new_p, &p) {
                    changes.push(Change(references[j], Value::Pos(new_p)));
                    board =
                    match board.fill_board(&references[j], Value::Pos(new_p)) {
                        Ok(bd) => bd,
                        Err(e) => {
                            assert(fq_changed(s0, c) && none_possible(fq_new(s0, c)));
                            return Err(e);
                        },
                    };
                }
            }
            j += 1;
        }
        proof {
            assert forall|c: int| 0 <= c < 81 implies (fq_order(box_of(c)) < t + 1) == (fq_order(box_of(c)) < t
                || box_of(c) == b) by {
                lemma_cell_box(c);
            }
            assert forall|c: int| 0 <= c < 81 && box_of(c) == b implies box_pos(c) < 9 by {
                lemma_cell_box(c);
            }
        }
        Ok(board)
    }

    /// Removes from each cell the digits that another box pins to the cell's
    /// row or column (boxes taken by box column, then box row); fails if a
    /// cell is left without candidates.
    pub fn final_quantum(self) -> (r: Result<(Self, Vec<Change>), SudokuError>)
        requires
            pos_in_range(self.spaces@),
        ensures
            step_matches(r, final_quantum_spec(self.spaces@)),
    {
        let ghost s0 = self.spaces@;
        let mut changes: Vec<Change> = Vec::new();
        let all_cert = all_certainties(&self);
        let mut board = self;
        proof {
            lemma_fq_geometry();
        }
        let mut x: usize = 0;
        while x < 3
            invariant
                x <= 3,
                s0 == self.spaces@,
                s0.len() == 81,
                certainties_of(s0, all_cert),
                forall|c: int| 0 <= c < 81 ==> #[trigger] board.spaces[c] == fq_partial(s0, 3 * x, 0, c),
                changes@ == collect(27 * x, fq_change(s0)),
                fq_no_failure(s0, 3 * x, 0),
            decreases 3 - x,
        {
            let mut y: usize = 0;
            while y < 3
                invariant
                    x < 3,
                    y <= 3,
                    s0 == self.spaces@,
                    s0.len() == 81,
                    certainties_of(s0, all_cert),
                    forall|c: int|
                        0 <= c < 81 ==> #[trigger] board.spaces[c] == fq_partial(s0, 3 * x + y, 0, c),
                    changes@ == collect(9 * (3 * x + y), fq_change(s0)),
                    fq_no_failure(s0, 3 * x + y, 0),
                decreases 3 - y,
            {
                board = match board.final_quantum_box(&mut changes, &all_cert, x, y, Ghost(s0)) {
                    Ok(bd) => bd,
                    Err(e) => {
                        return Err(e);
                    },
                };
                y += 1;
            }
            x += 1;
        }
        proof {
            lemma_fq_geometry();
            assert forall|c: int| 0 <= c < 81 implies #[trigger] board.spaces[c] == fq_node(s0, c) by {
                assert(fq_partial(s0, 9, 0, c) == fq_node(s0, c));
            }
            assert forall|c: int| 0 <= c < 81 implies !(fq_changed(s0, c) && none_possible(#[trigger] fq_new(s0, c))) by {
                assert(fq_order(box_of(c)) < 9);
            }
        }
        assert(board.spaces@ =~= Seq::new(81, |c: int| fq_node(s0, c)));
        Ok((board, changes))
    }
}

/// The pinned rows and columns the certainties give are those of the model.
proof fn lemma_pinned(s0: Seq<Node>, all_cert: [Certainties; 9], b: int)
    requires
        0 <= b < 9,
        certainties_of(s0, all_cert),
    ensures
        forall|n: int, m: int|
            0 <= n < 9 && 0 <= m < 9 ==> row_taken_elsewhere(all_cert@, b, n, m) == row_pinned_elsewhere(
                s0,
                b,
                n,
                m,
            ) && col_taken_elsewhere(all_cert@, b, n, m) == col_pinned_elsewhere(s0, b, n, m),
{
    assert forall|n: int, m: int| 0 <= n < 9 && 0 <= m < 9 implies row_taken_elsewhere(all_cert@, b, n, m)
        == row_pinned_elsewhere(s0, b, n, m) && col_taken_elsewhere(all_cert@, b, n, m)
        == col_pinned_elsewhere(s0, b, n, m) by {
        if row_pinned_elsewhere(s0, b, n, m) {
            let a = choose|a: int| 0 <= a < 9 && a != b && #[trigger] box_row_cert(s0, a, n) == m + 1;
            assert(all_cert@[a].rows[n] == m + 1);
        }
        if row_taken_elsewhere(all_cert@, b, n, m) {
            let a = choose|a: int| 0 <= a < all_cert@.len() && a != b && (#[trigger] all_cert@[a]).rows[n] == m + 1;
            assert(box_row_cert(s0, a, n) == m + 1);
        }
        if col_pinned_elsewhere(s0, b, n, m) {
            let a = choose|a: int| 0 <= a < 9 && a != b && #[trigger] box_col_cert(s0, a, n) == m + 1;
            assert(all_cert@[a].cols[n] == m + 1);
        }
        if col_taken_elsewhere(all_cert@, b, n, m) {
            let a = choose|a: int| 0 <= a < all_cert@.len() && a != b && (#[trigger] all_cert@[a]).cols[n] == m + 1;
            assert(box_col_cert(s0, a, n) == m + 1);
        }
    }
}

// --- quantum double: code --------------------------------------------------
/// Boxes before `n` on box row `y` neither hold digit `v + 1` nor pin it to a
/// single row.
pub open spec fn row_free_upto(s: Seq<Node>, v: int, y: int, n: int) -> bool {
    forall|m: int| 0 <= m < n && m / 3 == y ==> #[trigger] box_row_free(s, m, v)
}

pub open spec fn col_free_upto(s: Seq<Node>, v: int, x: int, n: int) -> bool {
    forall|m: int| 0 <= m < n && m % 3 == x ==> #[trigger] box_col_free(s, m, v)
}

/// For each digit and box row (column), whether no box there holds the digit
/// or pins it to a single row (column); and for each box and digit, the
/// rows and the columns of the box where the digit is possible.
fn double_tables(board: &Board) -> (r: ([[bool; 3]; 9], [[bool; 3]; 9], [[[bool; 3]; 9]; 9], [[[bool; 3]; 9]; 9]))
    requires
        board.wf(),
    ensures
        forall|v: int, y: int|
            0 <= v < 9 && 0 <= y < 3 ==> r.0[v][y] == qd_row_free(board.spaces@, v, y) && r.1[v][y]
                == qd_col_free(board.spaces@, v, y),
        forall|n: int, v: int|
            0 <= n < 9 && 0 <= v < 9 ==> r.2[n][v]@ == box_rows3(board.spaces@, n, v) && r.3[n][v]@
                == box_cols3(board.spaces@, n, v),
{
    let ghost s = board.spaces@;
    let mut double_possible_r = [[true;3];9];
    let mut double_possible_c = [[true;3];9];
    let mut all_rows = [[[false;3];9];9];
    let mut all_cols = [[[false;3];9];9];
    let mut n: usize = 0;
    while n < 9
        invariant
            n <= 9,
            s == board.spaces@,
            board.wf(),
            forall|v: int, y: int|
                0 <= v < 9 && 0 <= y < 3 ==> #[trigger] double_possible_r[v][y] == row_free_upto(s, v, y, n as int)
                    && double_possible_c[v][y] == col_free_upto(s, v, y, n as int),
            forall|m: int, v: int|
                0 <= m < n && 0 <= v < 9 ==> all_rows[m][v]@ == box_rows3(s, m, v)
                    && all_cols[m][v]@ == box_cols3(s, m, v),
        decreases 9 - n,
    {
        let (nodes, certainties, rows3, cols3) = box_info(board, n);
        let box_x = n % 3;
        let box_y = n / 3;
        let ghost dpr0 = double_possible_r;
        let ghost dpc0 = double_possible_c;
        clear_free(&mut double_possible_r, &mut double_possible_c, &nodes, &certainties, box_x, box_y);
        let ghost all_rows0 = all_rows;
        let ghost all_cols0 = all_cols;
        all_rows[n] = rows3;
        all_cols[n] = cols3;
        proof {
            assert forall|w: int, y: int| 0 <= w < 9 && 0 <= y < 3 implies #[trigger] double_possible_r[w][y]
                == row_free_upto(s, w, y, n + 1) && double_possible_c[w][y] == col_free_upto(s, w, y, n + 1) by {
                assert(dpr0[w][y] == row_free_upto(s, w, y, n as int));
                assert(dpc0[w][y] == col_free_upto(s, w, y, n as int));
                assert(box_has(s, n as int, w) == def_among(nodes@, w));
                assert(box_row_free(s, n as int, w) == !(def_among(nodes@, w) || certainties.rows[w] != 0));
                assert(box_col_free(s, n as int, w) == !(def_among(nodes@, w) || certainties.cols[w] != 0));
                assert((n as int) / 3 == box_y && (n as int) % 3 == box_x);
                lemma_free_upto_step(s, w, y, n as int);
                assert(double_possible_r[w][y] == (dpr0[w][y] && !(y == box_y && (def_among(nodes@, w)
                    || certainties.rows[w] != 0))));
                assert(double_possible_r[w][y] == row_free_upto(s, w, y, n + 1));
                assert(double_possible_c[w][y] == (dpc0[w][y] && !(y == box_x && (def_among(nodes@, w)
                    || certainties.cols[w] != 0))));
            }
            assert forall|m: int, w: int| 0 <= m < n + 1 && 0 <= w < 9 implies all_rows[m][w]@
                == box_rows3(s, m, w) && all_cols[m][w]@ == box_cols3(s, m, w) by {
                if m < n {
                    assert(all_rows[m] == all_rows0[m]);
                    assert(all_cols[m] == all_cols0[m]);
                } else {
                    assert(all_rows[m] == rows3);
                    assert(all_cols[m] == cols3);
                }
            }
        }
        n += 1;
    }
    assert forall|v: int, y: int| 0 <= v < 9 && 0 <= y < 3 implies double_possible_r[v][y] == qd_row_free(s, v, y)
        && double_possible_c[v][y] == col_free_upto(s, v, y, 9) by {
        assert(double_possible_r[v][y] == row_free_upto(s, v, y, 9));
        assert(double_possible_c[v][y] == col_free_upto(s, v, y, 9));
    }
    assert forall|m: int, v: int| 0 <= m < 9 && 0 <= v < 9 implies all_rows[m][v]@ == box_rows3(s, m, v)
        && all_cols[m][v]@ == box_cols3(s, m, v) by {
        assert((all_rows[m][v])@ == box_rows3(s, m, v));
    }
    (double_possible_r, double_possible_c, all_rows, all_cols)
}

proof fn lemma_free_upto_step(s: Seq<Node>, w: int, y: int, n: int)
    requires
        0 <= n,
    ensures
        row_free_upto(s, w, y, n + 1) == (row_free_upto(s, w, y, n) && (n / 3 == y ==> box_row_free(s, n, w))),
        col_free_upto(s, w, y, n + 1) == (col_free_upto(s, w, y, n) && (n % 3 == y ==> box_col_free(s, n, w))),
{
}

/// The cells of box `n`, its certainties, and for each digit the rows and
/// the columns of the box where it is possible.
#[verifier::rlimit(80)]
fn box_info(board: &Board, n: usize) -> (r: ([Node; 9], Certainties, [[bool; 3]; 9], [[bool; 3]; 9]))
    requires
        board.wf(),
        n < 9,
    ensures
        r.0@ == box_cells(board.spaces@, n as int),
        forall|j: int| 0 <= j < 9 ==> value_wf((#[trigger] r.0[j]).value),
        forall|v: int|
            0 <= v < 9 ==> r.1.rows[v] == box_row_cert(board.spaces@, n as int, v) && r.1.cols[v]
                == box_col_cert(board.spaces@, n as int, v),
        forall|v: int|
            0 <= v < 9 ==> r.2[v]@ == box_rows3(board.spaces@, n as int, v) && r.3[v]@
                == box_cols3(board.spaces@, n as int, v),
{
    let ghost s = board.spaces@;
    let references = get_references_for_box(BoxCoord::Ord(n as u8));
    proof {
        assert forall|i: int| 0 <= i < 9 implies names_cell(#[trigger] references[i])
            && spec_ordinal(references[i]) == box_cell(n as int, i) by {
            lemma_box_reference(n as int, i);
            lemma_box_cell(n as int, i);
        }
    }
    let nodes = board.nodes_of(&references);
    assert(nodes@ =~= box_cells(s, n as int));
    proof {
        lemma_box_cells_wf(s, n as int);
    }
    let (rows_poss, cols_poss, _definites) = get_possibilities(nodes.as_slice());
    let certainties = get_certainties((rows_poss, cols_poss));
    let rows3 = cut_down(rows_poss, 3 * (n / 3));
    let cols3 = cut_down(cols_poss, 3 * (n % 3));
    assert forall|v: int| 0 <= v < 9 implies rows3[v]@ == box_rows3(s, n as int, v) && cols3[v]@
        == box_cols3(s, n as int, v) by {
        broadcast use crate::utils::lemma_arr9;

        assert(rows_poss[v] == cand_rows(nodes@, v));
        assert(cols_poss[v] == cand_cols(nodes@, v));
        assert(rows3[v]@ =~= box_rows3(s, n as int, v));
        assert(cols3[v]@ =~= box_cols3(s, n as int, v));
    }
    let r = (nodes, certainties, rows3, cols3);
    assert(r.2 == rows3 && r.3 == cols3);
    r
}

proof fn lemma_box_cells_wf(s: Seq<Node>, n: int)
    requires
        0 <= n < 9,
        s.len() == 81,
        forall|i: int| 0 <= i < 81 ==> crate::utils::cell_wf(#[trigger] s[i], i),
    ensures
        forall|j: int| 0 <= j < 9 ==> value_wf((#[trigger] box_cells(s, n)[j]).value),
        pos_in_range(box_cells(s, n)),
{
    assert forall|j: int| 0 <= j < 9 implies value_wf((#[trigger] box_cells(s, n)[j]).value) && coords_in_range(box_cells(s, n)[j]) by {
        lemma_box_cell(n, j);
        assert(crate::utils::cell_wf(s[box_cell(n, j)], box_cell(n, j)));
    }
}

/// Clears the flags of box row `box_y` and box column `box_x` for the digits
/// definite among `nodes` or pinned by `cert`.
fn clear_free(
    dpr: &mut [[bool; 3]; 9],
    dpc: &mut [[bool; 3]; 9],
    nodes: &[Node; 9],
    cert: &Certainties,
    box_x: usize,
    box_y: usize,
)
    requires
        box_x < 3,
        box_y < 3,
        forall|j: int| 0 <= j < 9 ==> value_wf((#[trigger] nodes[j]).value),
    ensures
        forall|v: int, y: int|
            0 <= v < 9 && 0 <= y < 3 ==> final(dpr)[v][y] == (old(dpr)[v][y] && !(y == box_y && (
            def_among(nodes@, v) || cert.rows[v] != 0))) && final(dpc)[v][y] == (old(dpc)[v][y] && !(y
                == box_x && (def_among(nodes@, v) || cert.cols[v] != 0))),
{
    let ghost dpr0 = *dpr;
    let ghost dpc0 = *dpc;
    let mut j: usize = 0;
    while j < 9
        invariant
            j <= 9,
            box_x < 3,
            box_y < 3,
            forall|j: int| 0 <= j < 9 ==> value_wf((#[trigger] nodes[j]).value),
            forall|v: int, y: int|
                0 <= v < 9 && 0 <= y < 3 ==> #[trigger] dpr[v][y] == (dpr0[v][y] && !(y == box_y
                    && def_among(nodes@.take(j as int), v))) && dpc[v][y] == (dpc0[v][y] && !(y == box_x
                    && def_among(nodes@.take(j as int), v))),
        decreases 9 - j,
    {
        let ghost r0 = *dpr;
        let ghost c0 = *dpc;
        if let Value::Def(v) = nodes[j].value {
            assert(value_wf(nodes[j as int].value));
            dpr[ord(&v)][box_y] = false;
            dpc[ord(&v)][box_x] = false;
        }
        assert forall|v: int, y: int| 0 <= v < 9 && 0 <= y < 3 implies #[trigger] dpr[v][y] == (dpr0[v][y]
            && !(y == box_y && def_among(nodes@.take(j + 1), v))) && dpc[v][y] == (dpc0[v][y] && !(y
            == box_x && def_among(nodes@.take(j + 1), v))) by {
            lemma_def_among_take(nodes@, j as int, v);
            assert(r0[v][y] == (dpr0[v][y] && !(y == box_y && def_among(nodes@.take(j as int), v))));
            assert(c0[v][y] == (dpc0[v][y] && !(y == box_x && def_among(nodes@.take(j as int), v))));
        }
        j += 1;
    }
    assert(nodes@.take(9) =~= nodes@);
    let ghost dpr1 = *dpr;
    let ghost dpc1 = *dpc;
    let mut v: usize = 0;
    while v < 9
        invariant
            v <= 9,
            box_x < 3,
            box_y < 3,
            forall|w: int, y: int|
                0 <= w < 9 && 0 <= y < 3 ==> #[trigger] dpr[w][y] == (dpr1[w][y] && !(y == box_y && w < v
                    && cert.rows[w] != 0)) && dpc[w][y] == (dpc1[w][y] && !(y == box_x && w < v
                    && cert.cols[w] != 0)),
        decreases 9 - v,
    {
        let ghost r0 = *dpr;
        let ghost c0 = *dpc;
        if cert.rows[v] != 0 {
            dpr[v][box_y] = false;
        }
        if cert.cols[v] != 0 {
            dpc[v][box_x] = false;
        }
        assert forall|w: int, y: int| 0 <= w < 9 && 0 <= y < 3 implies #[trigger] dpr[w][y] == (dpr1[w][y]
            && !(y == box_y && w < v + 1 && cert.rows[w] != 0)) && dpc[w][y] == (dpc1[w][y] && !(y
            == box_x && w < v + 1 && cert.cols[w] != 0)) by {
            assert(r0[w][y] == (dpr1[w][y] && !(y == box_y && w < v && cert.rows[w] != 0)));
            assert(c0[w][y] == (dpc1[w][y] && !(y == box_x && w < v && cert.cols[w] != 0)));
        }
        v += 1;
    }
    assert forall|w: int, y: int| 0 <= w < 9 && 0 <= y < 3 implies dpr[w][y] == (dpr0[w][y] && !(y
        == box_y && (def_among(nodes@, w) || cert.rows[w] != 0))) && dpc[w][y] == (dpc0[w][y] && !(y
        == box_x && (def_among(nodes@, w) || cert.cols[w] != 0))) by {
        assert(dpr1[w][y] == (dpr0[w][y] && !(y == box_y && def_among(nodes@.take(9), w))));
        assert(dpc1[w][y] == (dpc0[w][y] && !(y == box_x && def_among(nodes@.take(9), w))));
        assert(dpr[w][y] == (dpr1[w][y] && !(y == box_y && w < 9 && cert.rows[w] != 0)));
        assert(dpc[w][y] == (dpc1[w][y] && !(y == box_x && w < 9 && cert.cols[w] != 0)));
    }
}

proof fn lemma_def_among_take(s: Seq<Node>, j: int, v: int)
    requires
        0 <= j < s.len(),
    ensures
        def_among(s.take(j + 1), v) == (def_among(s.take(j), v) || s[j].value == Value::Def((v + 1) as u8)),
{
    let t = s.take(j + 1);
    let u = s.take(j);
    assert(t[j] == s[j]);
    if def_among(t, v) {
        let w = choose|w: int| 0 <= w < t.len() && t[w].value == Value::Def((v + 1) as u8);
        if w < j {
            assert(u[w] == t[w]);
        }
    }
    if def_among(u, v) {
        let w = choose|w: int| 0 <= w < u.len() && u[w].value == Value::Def((v + 1) as u8);
        assert(t[w] == u[w]);
    }
}

/// Whether two triples of flags are equal.
fn same3(a: &[bool; 3], b: &[bool; 3]) -> (r: bool)
    ensures
        r == (a@ == b@),
{
    let r = a[0] == b[0] && a[1] == b[1] && a[2] == b[2];
    if r {
        assert(a@ =~= b@);
    }
    r
}

/// Among three boxes, the first pair (tried as (0, 1), (0, 2), (1, 2))
/// confining a digit to the same two of three lines: the third box and the
/// lines.
fn find_pair(g0: &[bool; 3], g1: &[bool; 3], g2: &[bool; 3]) -> (r: Option<(usize, [bool; 3])>)
    ensures
        match pair_of(seq![g0@, g1@, g2@]) {
            None => r is None,
            Some((c, pat)) => r is Some && r->Some_0.0 == c && r->Some_0.1@ == pat,
        },
{
    let ghost g = seq![g0@, g1@, g2@];
    assert(g[0] == g0@ && g[1] == g1@ && g[2] == g2@);
    if sum_bool_3(*g0) == 2 {
        if same3(g1, g0) {
            return Some((2, *g0));
        }
        if same3(g2, g0) {
            return Some((1, *g0));
        }
    }
    if sum_bool_3(*g1) == 2 {
        if same3(g2, g1) {
            return Some((0, *g1));
        }
        if same3(g0, g1) {
            return Some((2, *g1));
        }
    }
    None
}

/// Records that digit `v` leaves the cell `node` (candidates `p`): the
/// pending change of the cell, or `p` where there is none yet, loses `v`.
fn mark(cs: &mut [[Option<[bool; 9]>; 9]; 9], node: Node, p: [bool; 9], v: usize)
    requires
        coords_in_range(node),
        v < 9,
    ensures
        forall|x: int, y: int|
            0 <= x < 9 && 0 <= y < 9 && !(x == node.x - 1 && y == node.y - 1) ==> #[trigger] final(cs)[x][y]
                == old(cs)[x][y],
        final(cs)[node.x - 1][node.y - 1] is Some,
        forall|w: int|
            0 <= w < 9 ==> final(cs)[node.x - 1][node.y - 1]->Some_0[w] == ((if old(cs)[node.x - 1][node.y
                - 1] is Some {
                old(cs)[node.x - 1][node.y - 1]->Some_0[w]
            } else {
                p[w]
            }) && w != v),
{
    let ord_x = ord(&node.x);
    let ord_y = ord(&node.y);
    if cs[ord_x][ord_y].is_none() {
        cs[ord_x][ord_y] = Some(p);
    }
    let mut old_cs = cs[ord_x][ord_y].unwrap();
    old_cs[v] = false;
    cs[ord_x][ord_y] = Some(old_cs);
}

/// Marking digit `v` at a cell where it is possible adds it to the marks.
proof fn lemma_entry_mark(
    e0: Option<[bool; 9]>,
    e1: Option<[bool; 9]>,
    n: Node,
    c: int,
    m0: spec_fn(int, int) -> bool,
    m1: spec_fn(int, int) -> bool,
    v: int,
)
    requires
        entry_ok(e0, n, c, m0),
        n.value is Pos,
        0 <= v < 9,
        n.value->Pos_0[v],
        e1 is Some,
        forall|w: int|
            0 <= w < 9 ==> e1->Some_0[w] == ((if e0 is Some {
                e0->Some_0[w]
            } else {
                n.value->Pos_0[w]
            }) && w != v),
        forall|w: int| 0 <= w < 9 ==> #[trigger] m1(c, w) == (m0(c, w) || w == v),
    ensures
        entry_ok(e1, n, c, m1),
{
    assert(m1(c, v));
}

/// Marks that differ only on digits not possible in the cell give the same
/// pending change.
proof fn lemma_entry_same(
    e: Option<[bool; 9]>,
    n: Node,
    c: int,
    m0: spec_fn(int, int) -> bool,
    m1: spec_fn(int, int) -> bool,
)
    requires
        entry_ok(e, n, c, m0),
        forall|w: int|
            0 <= w < 9 && n.value is Pos && n.value->Pos_0[w] ==> #[trigger] m0(c, w) == m1(c, w),
    ensures
        entry_ok(e, n, c, m1),
{
    if n.value is Pos && exists|w: int| 0 <= w < 9 && n.value->Pos_0[w] && m1(c, w) {
        let w = choose|w: int| 0 <= w < 9 && n.value->Pos_0[w] && m1(c, w);
        assert(m0(c, w));
    }
    if n.value is Pos && exists|w: int| 0 <= w < 9 && n.value->Pos_0[w] && m0(c, w) {
        let w = choose|w: int| 0 <= w < 9 && n.value->Pos_0[w] && m0(c, w);
        assert(m1(c, w));
    }
}

/// The marks of the row pass of group `y` of digit `v`, on the first `k`
/// cells of the target box.
pub open spec fn qd_rows_partial(s: Seq<Node>, v: int, y: int, k: int) -> spec_fn(int, int) -> bool {
    |c: int, w: int| qd_before(s, v, y, 0)(c, w) || (w == v && row_mark(s, v, y, c) && box_pos(c) < k)
}

/// The marks of the column pass of group `x` of digit `v`, on the first `k`
/// cells of the target box.
pub open spec fn qd_cols_partial(s: Seq<Node>, v: int, x: int, k: int) -> spec_fn(int, int) -> bool {
    |c: int, w: int| qd_before(s, v, x, 1)(c, w) || (w == v && col_mark(s, v, x, c) && box_pos(c) < k)
}

/// One step of marking: at most the cell `cell` gains the mark of digit `v`,
/// and the marks elsewhere stay as they were where it matters.
proof fn lemma_grid_step(
    cs0: [[Option<[bool; 9]>; 9]; 9],
    cs1: [[Option<[bool; 9]>; 9]; 9],
    s: Seq<Node>,
    m0: spec_fn(int, int) -> bool,
    m1: spec_fn(int, int) -> bool,
    cell: int,
    v: int,
    touched: bool,
)
    requires
        grid_ok(cs0, s, m0),
        s.len() == 81,
        0 <= cell < 81,
        0 <= v < 9,
        forall|c2: int, w: int|
            0 <= c2 < 81 && c2 != cell && 0 <= w < 9 && s[c2].value is Pos && s[c2].value->Pos_0[w]
                ==> #[trigger] m0(c2, w) == m1(c2, w),
        touched ==> {
            &&& s[cell].value is Pos
            &&& s[cell].value->Pos_0[v]
            &&& forall|w: int| 0 <= w < 9 ==> #[trigger] m1(cell, w) == (m0(cell, w) || w == v)
            &&& forall|x: int, y: int|
                0 <= x < 9 && 0 <= y < 9 && !(x == cell % 9 && y == cell / 9) ==> #[trigger] cs1[x][y]
                    == cs0[x][y]
            &&& cs1[cell % 9][cell / 9] is Some
            &&& forall|w: int|
                0 <= w < 9 ==> cs1[cell % 9][cell / 9]->Some_0[w] == ((if cs0[cell % 9][cell / 9] is Some {
                    cs0[cell % 9][cell / 9]->Some_0[w]
                } else {
                    s[cell].value->Pos_0[w]
                }) && w != v)
        },
        !touched ==> {
            &&& cs1 == cs0
            &&& forall|w: int|
                0 <= w < 9 && s[cell].value is Pos && s[cell].value->Pos_0[w] ==> #[trigger] m0(cell, w)
                    == m1(cell, w)
        },
    ensures
        grid_ok(cs1, s, m1),
{
    assert forall|x: int, y: int| 0 <= x < 9 && 0 <= y < 9 implies entry_ok(
        #[trigger] cs1[x][y],
        s[9 * y + x],
        9 * y + x,
        m1,
    ) by {
        let c2 = 9 * y + x;
        assert(entry_ok(cs0[x][y], s[c2], c2, m0));
        if c2 == cell {
            assert(x == cell % 9 && y == cell / 9);
            if touched {
                lemma_entry_mark(cs0[x][y], cs1[x][y], s[c2], c2, m0, m1, v);
            } else {
                lemma_entry_same(cs0[x][y], s[c2], c2, m0, m1);
            }
        } else {
            assert(!(x == cell % 9 && y == cell / 9));
            assert(cs1[x][y] == cs0[x][y]);
            lemma_entry_same(cs0[x][y], s[c2], c2, m0, m1);
        }
    }
}

proof fn lemma_col_mark_at(s: Seq<Node>, v: int, x: int, c: int, pat: Seq<bool>, cell: int)
    requires
        0 <= c < 3,
        0 <= x < 3,
        0 <= cell < 81,
        box_of(cell) == 3 * c + x,
        qd_col_free(s, v, x),
        pair_of(col_group(s, v, x)) == Some((c, pat)),
    ensures
        col_mark(s, v, x, cell) == pat[(cell % 9) % 3],
{
    reveal(col_mark);
}

proof fn lemma_row_mark_at(s: Seq<Node>, v: int, y: int, c: int, pat: Seq<bool>, cell: int)
    requires
        0 <= c < 3,
        0 <= y < 3,
        0 <= cell < 81,
        box_of(cell) == 3 * y + c,
        qd_row_free(s, v, y),
        pair_of(row_group(s, v, y)) == Some((c, pat)),
    ensures
        row_mark(s, v, y, cell) == pat[(cell / 9) % 3],
{
    reveal(row_mark);
}

/// Marks of a group act only on the box the group's pair names.
proof fn lemma_marks_in_box(s: Seq<Node>, v: int, y: int, cell: int)
    requires
        0 <= y < 3,
    ensures
        row_mark(s, v, y, cell) ==> pair_of(row_group(s, v, y)) is Some && box_of(cell) == 3 * y + pair_of(row_group(s, v, y))->Some_0.0,
        col_mark(s, v, y, cell) ==> pair_of(col_group(s, v, y)) is Some && box_of(cell) == 3 * pair_of(col_group(s, v, y))->Some_0.0 + y,
{
    reveal(row_mark);
    reveal(col_mark);
}

impl Board {
    /// Removes digit `v` from the rows of `pattern` in box `3 * y + c`: the
    /// row pass of the pair found on box row `y`.
    fn mark_rows(
        &self,
        cs: &mut [[Option<[bool; 9]>; 9]; 9],
        v: usize,
        y: usize,
        c: usize,
        pattern: [bool; 3],
    )
        requires
            self.wf(),
            v < 9,
            y < 3,
            c < 3,
            qd_row_free(self.spaces@, v as int, y as int),
            pair_of(row_group(self.spaces@, v as int, y as int)) == Some((c as int, pattern@)),
            grid_ok(*old(cs), self.spaces@, qd_before(self.spaces@, v as int, y as int, 0)),
        ensures
            grid_ok(*final(cs), self.spaces@, qd_before(self.spaces@, v as int, y as int, 1)),
    {
        let ghost s = self.spaces@;
        let ghost b = 3 * y + c;
        let mut inner_row: usize = 0;
        while inner_row < 3
            invariant
                inner_row <= 3,
                self.wf(),
                s == self.spaces@,
                v < 9,
                y < 3,
                c < 3,
                b == 3 * y + c,
                qd_row_free(s, v as int, y as int),
                pair_of(row_group(s, v as int, y as int)) == Some((c as int, pattern@)),
                grid_ok(*cs, s, qd_rows_partial(s, v as int, y as int, 3 * inner_row)),
            decreases 3 - inner_row,
        {
            let start = 27 * y + 9 * inner_row + 3 * c;
            let mut node_n = start;
            while node_n < start + 3
                invariant
                    inner_row < 3,
                    start == 27 * y + 9 * inner_row + 3 * c,
                    start <= node_n <= start + 3,
                    self.wf(),
                    s == self.spaces@,
                    v < 9,
                    y < 3,
                    c < 3,
                    b == 3 * y + c,
                    qd_row_free(s, v as int, y as int),
                    pair_of(row_group(s, v as int, y as int)) == Some((c as int, pattern@)),
                    grid_ok(*cs, s, qd_rows_partial(s, v as int, y as int, 3 * inner_row + (node_n - start))),
                decreases start + 3 - node_n,
            {
                let ghost k = 3 * inner_row + (node_n - start);
                let ghost cs0 = *cs;
                proof {
                    lemma_box_cell(b, k);
                    assert(box_cell(b, k) == node_n);
                    assert(crate::utils::cell_wf(s[node_n as int], node_n as int));
                    lemma_row_mark_at(s, v as int, y as int, c as int, pattern@, node_n as int);
                    assert(row_mark(s, v as int, y as int, node_n as int) == pattern[inner_row as int]);
                    assert forall|c2: int| 0 <= c2 < 81 && box_of(c2) == b && box_pos(c2) == k implies c2
                        == node_n by {
                        lemma_cell_box(c2);
                    }
                }
                let mut touched = false;
                if pattern[inner_row] {
                    let node = self.spaces[node_n];
                    if let Value::Pos(p) = node.value {
                        if p[v] {
                            mark(cs, node, p, v);
                            touched = true;
                        }
                    }
                }
                proof {
                    assert forall|c2: int, w: int| 0 <= c2 < 81 && c2 != node_n && 0 <= w < 9 implies
                        #[trigger] qd_rows_partial(s, v as int, y as int, k)(c2, w) == qd_rows_partial(s, v as int, y as int, k + 1)(c2, w) by {
                        lemma_marks_in_box(s, v as int, y as int, c2);
                        lemma_cell_box(c2);
                    }
                    lemma_grid_step(
                        cs0,
                        *cs,
                        s,
                        qd_rows_partial(s, v as int, y as int, k),
                        qd_rows_partial(s, v as int, y as int, k + 1),
                        node_n as int,
                        v as int,
                        touched,
                    );
                }
                node_n += 1;
            }
            inner_row += 1;
        }
        proof {
            assert forall|c2: int, w: int| 0 <= c2 < 81 implies #[trigger] qd_rows_partial(s, v as int, y as int, 9)(c2, w)
                == qd_before(s, v as int, y as int, 1)(c2, w) by {
                lemma_cell_box(c2);
            }
            assert forall|x: int, yy: int| 0 <= x < 9 && 0 <= yy < 9 implies entry_ok(
                #[trigger] cs[x][yy],
                s[9 * yy + x],
                9 * yy + x,
                qd_before(s, v as int, y as int, 1),
            ) by {
                let c2 = 9 * yy + x;
                assert(entry_ok(cs[x][yy], s[c2], c2, qd_rows_partial(s, v as int, y as int, 9)));
                lemma_entry_same(cs[x][yy], s[c2], c2, qd_rows_partial(s, v as int, y as int, 9), qd_before(s, v as int, y as int, 1));
            }
        }
    }

    #[verifier::rlimit(100)]
    /// Removes digit `v` from the columns of `pattern` in box `3 * c + x`:
    /// the column pass of the pair found on box column `x`.
    fn mark_cols(
        &self,
        cs: &mut [[Option<[bool; 9]>; 9]; 9],
        v: usize,
        x: usize,
        c: usize,
        pattern: [bool; 3],
    )
        requires
            self.wf(),
            v < 9,
            x < 3,
            c < 3,
            qd_col_free(self.spaces@, v as int, x as int),
            pair_of(col_group(self.spaces@, v as int, x as int)) == Some((c as int, pattern@)),
            grid_ok(*old(cs), self.spaces@, qd_before(self.spaces@, v as int, x as int, 1)),
        ensures
            grid_ok(*final(cs), self.spaces@, qd_before(self.spaces@, v as int, x as int, 2)),
    {
        let ghost s = self.spaces@;
        let ghost b = 3 * c + x;
        let mut inner_row: usize = 0;
        while inner_row < 3
            invariant
                inner_row <= 3,
                self.wf(),
                s == self.spaces@,
                v < 9,
                x < 3,
                c < 3,
                b == 3 * c + x,
                qd_col_free(s, v as int, x as int),
                pair_of(col_group(s, v as int, x as int)) == Some((c as int, pattern@)),
                grid_ok(*cs, s, qd_cols_partial(s, v as int, x as int, 3 * inner_row)),
            decreases 3 - inner_row,
        {
            let start = 27 * c + 3 * x + 9 * inner_row;
            let mut node_n = start;
            while node_n < start + 3
                invariant
                    inner_row < 3,
                    start == 27 * c + 3 * x + 9 * inner_row,
                    start <= node_n <= start + 3,
                    self.wf(),
                    s == self.spaces@,
                    v < 9,
                    x < 3,
                    c < 3,
                    b == 3 * c + x,
                    qd_col_free(s, v as int, x as int),
                    pair_of(col_group(s, v as int, x as int)) == Some((c as int, pattern@)),
                    grid_ok(*cs, s, qd_cols_partial(s, v as int, x as int, 3 * inner_row + (node_n - start))),
                decreases start + 3 - node_n,
            {
                let ghost k = 3 * inner_row + (node_n - start);
                let ghost cs0 = *cs;
                proof {
                    lemma_box_cell(b, k);
                    assert(box_cell(b, k) == node_n);
                    assert(crate::utils::cell_wf(s[node_n as int], node_n as int));
                    assert forall|c2: int| 0 <= c2 < 81 && box_of(c2) == b && box_pos(c2) == k implies c2
                        == node_n by {
                        lemma_cell_box(c2);
                    }
                }
                let node = self.spaces[node_n];
                let mut touched = false;
                proof {
                    assert((node.x - 1) % 3 == node_n - start);
                    lemma_col_mark_at(s, v as int, x as int, c as int, pattern@, node_n as int);
                }
                if pattern[ord(&node.x) % 3] {
                    let node = self.spaces[node_n];
                    if let Value::Pos(p) = node.value {
                        if p[v] {
                            mark(cs, node, p, v);
                            touched = true;
                        }
                    }
                }
                proof {
                    assert forall|c2: int, w: int| 0 <= c2 < 81 && c2 != node_n && 0 <= w < 9 implies
                        #[trigger] qd_cols_partial(s, v as int, x as int, k)(c2, w) == qd_cols_partial(s, v as int, x as int, k + 1)(c2, w) by {
                        lemma_marks_in_box(s, v as int, x as int, c2);
                        lemma_cell_box(c2);
                    }
                    lemma_grid_step(
                        cs0,
                        *cs,
                        s,
                        qd_cols_partial(s, v as int, x as int, k),
                        qd_cols_partial(s, v as int, x as int, k + 1),
                        node_n as int,
                        v as int,
                        touched,
                    );
                }
                node_n += 1;
            }
            inner_row += 1;
        }
        proof {
            assert forall|c2: int, w: int| 0 <= c2 < 81 implies #[trigger] qd_cols_partial(s, v as int, x as int, 9)(c2, w)
                == qd_before(s, v as int, x as int, 2)(c2, w) by {
                lemma_cell_box(c2);
            }
            assert forall|xx: int, yy: int| 0 <= xx < 9 && 0 <= yy < 9 implies entry_ok(
                #[trigger] cs[xx][yy],
                s[9 * yy + xx],
                9 * yy + xx,
                qd_before(s, v as int, x as int, 2),
            ) by {
                let c2 = 9 * yy + xx;
                assert(entry_ok(cs[xx][yy], s[c2], c2, qd_cols_partial(s, v as int, x as int, 9)));
                lemma_entry_same(cs[xx][yy], s[c2], c2, qd_cols_partial(s, v as int, x as int, 9), qd_before(s, v as int, x as int, 2));
            }
        }
    }
}

/// Groups that are not free, or whose pair is missing, mark nothing.
proof fn lemma_no_marks(s: Seq<Node>, v: int, y: int)
    ensures
        !qd_row_free(s, v, y) ==> forall|c: int| !#[trigger] row_mark(s, v, y, c),
        pair_of(row_group(s, v, y)) is None ==> forall|c: int| !#[trigger] row_mark(s, v, y, c),
        (!qd_col_free(s, v, y) || pair_of(col_group(s, v, y)) is None) ==> forall|c: int|
            !#[trigger] col_mark(s, v, y, c),
{
    reveal(row_mark);
    reveal(col_mark);
}

/// Marks that agree everywhere give the same grid.
proof fn lemma_grid_same(
    cs: [[Option<[bool; 9]>; 9]; 9],
    s: Seq<Node>,
    m0: spec_fn(int, int) -> bool,
    m1: spec_fn(int, int) -> bool,
)
    requires
        grid_ok(cs, s, m0),
        forall|c: int, w: int| 0 <= c < 81 && 0 <= w < 9 ==> #[trigger] m0(c, w) == m1(c, w),
    ensures
        grid_ok(cs, s, m1),
{
    assert forall|x: int, y: int| 0 <= x < 9 && 0 <= y < 9 implies entry_ok(
        #[trigger] cs[x][y],
        s[9 * y + x],
        9 * y + x,
        m1,
    ) by {
        lemma_entry_same(cs[x][y], s[9 * y + x], 9 * y + x, m0, m1);
    }
}

impl Board {
    /// The pending changes of the quantum double step, as a grid indexed by
    /// column and row.
    fn double_marks(&self) -> (cs: [[Option<[bool; 9]>; 9]; 9])
        requires
            self.wf(),
        ensures
            grid_ok(cs, self.spaces@, qd_before(self.spaces@, 9, 0, 0)),
    {
        let ghost s = self.spaces@;
        let (double_possible_r, double_possible_c, all_rows, all_cols) = double_tables(self);
        let mut cs: [[Option<[bool; 9]>; 9]; 9] = [[None;9];9];
        let mut v: usize = 0;
        while v < 9
            invariant
                v <= 9,
                self.wf(),
                s == self.spaces@,
                forall|w: int, y: int|
                    0 <= w < 9 && 0 <= y < 3 ==> double_possible_r[w][y] == qd_row_free(s, w, y)
                        && double_possible_c[w][y] == qd_col_free(s, w, y),
                forall|n: int, w: int|
                    0 <= n < 9 && 0 <= w < 9 ==> all_rows[n][w]@ == box_rows3(s, n, w) && all_cols[n][w]@
                        == box_cols3(s, n, w),
                grid_ok(cs, s, qd_before(s, v as int, 0, 0)),
            decreases 9 - v,
        {
            let mut y: usize = 0;
            while y < 3
                invariant
                    v < 9,
                    y <= 3,
                    self.wf(),
                    s == self.spaces@,
                    forall|w: int, y: int|
                        0 <= w < 9 && 0 <= y < 3 ==> double_possible_r[w][y] == qd_row_free(s, w, y)
                            && double_possible_c[w][y] == qd_col_free(s, w, y),
                    forall|n: int, w: int|
                        0 <= n < 9 && 0 <= w < 9 ==> all_rows[n][w]@ == box_rows3(s, n, w)
                            && all_cols[n][w]@ == box_cols3(s, n, w),
                    grid_ok(cs, s, qd_before(s, v as int, y as int, 0)),
                decreases 3 - y,
            {
                proof {
                    lemma_no_marks(s, v as int, y as int);
                }
                if double_possible_r[v][y] {
                    let pair = find_pair(&all_rows[3 * y][v], &all_rows[3 * y + 1][v], &all_rows[3 * y + 2][v]);
                    proof {
                        assert(seq![all_rows[3 * y as int][v as int]@, all_rows[3 * y + 1][v as int]@, all_rows[3 * y + 2][v as int]@]
                            =~= row_group(s, v as int, y as int));
                    }
                    match pair {
                        Some((c, pattern)) => {
                            self.mark_rows(&mut cs, v, y, c, pattern);
                        },
                        None => {
                            proof {
                                lemma_grid_same(cs, s, qd_before(s, v as int, y as int, 0), qd_before(s, v as int, y as int, 1));
                            }
                        },
                    }
                } else {
                    proof {
                        lemma_grid_same(cs, s, qd_before(s, v as int, y as int, 0), qd_before(s, v as int, y as int, 1));
                    }
                }
                let x = y;
                if double_possible_c[v][x] {
                    let pair = find_pair(&all_cols[x][v], &all_cols[x + 3][v], &all_cols[x + 6][v]);
                    proof {
                        assert(seq![all_cols[x as int][v as int]@, all_cols[x + 3][v as int]@, all_cols[x + 6][v as int]@]
                            =~= col_group(s, v as int, x as int));
                    }
                    match pair {
                        Some((c, pattern)) => {
                            self.mark_cols(&mut cs, v, x, c, pattern);
                        },
                        None => {
                            proof {
                                lemma_grid_same(cs, s, qd_before(s, v as int, y as int, 1), qd_before(s, v as int, y as int, 2));
                            }
                        },
                    }
                } else {
                    proof {
                        lemma_grid_same(cs, s, qd_before(s, v as int, y as int, 1), qd_before(s, v as int, y as int, 2));
                    }
                }
                proof {
                    assert forall|c: int, w: int| 0 <= c < 81 && 0 <= w < 9 implies #[trigger] qd_before(s, v as int, y as int, 2)(c, w)
                        == qd_before(s, v as int, y + 1, 0)(c, w) by {}
                    lemma_grid_same(cs, s, qd_before(s, v as int, y as int, 2), qd_before(s, v as int, y + 1, 0));
                }
                y += 1;
            }
            proof {
                assert forall|c: int, w: int| 0 <= c < 81 && 0 <= w < 9 implies #[trigger] qd_before(s, v as int, 3, 0)(c, w)
                    == qd_before(s, v + 1, 0, 0)(c, w) by {}
                lemma_grid_same(cs, s, qd_before(s, v as int, 3, 0), qd_before(s, v + 1, 0, 0));
            }
            v += 1;
        }
        cs
    }

    /// Where two boxes of a box row confine a digit to the same two rows,
    /// removes the digit from those rows of the third box; likewise, where
    /// two boxes of a box column confine a digit to the same two columns,
    /// removes it from those columns of the third box. All changes are made
    /// at the end, column by column; fails if a cell is left without
    /// candidates.
    pub fn quantum_double(self) -> (r: Result<(Self, Vec<Change>), SudokuError>)
        requires
            self.wf(),
        ensures
            step_matches(r, quantum_double_spec(self.spaces@)),
    {
        let ghost s = self.spaces@;
        let cs = self.double_marks();
        let mut board = self;
        let mut changes: Vec<Change> = Vec::new();
        let mut i: usize = 0;
        while i < 9
            invariant
                i <= 9,
                s == self.spaces@,
                s.len() == 81,
                grid_ok(cs, s, qd_before(s, 9, 0, 0)),
                forall|c: int|
                    0 <= c < 81 ==> #[trigger] board.spaces[c] == (if c % 9 < i {
                        qd_node(s, c)
                    } else {
                        s[c]
                    }),
                changes@ == collect(9 * i, qd_change(s)),
                forall|c: int|
                    0 <= c < 81 && c % 9 < i ==> !(qd_changed(s, c) && none_possible(#[trigger] qd_new(s, c))),
            decreases 9 - i,
        {
            let mut j: usize = 0;
            while j < 9
                invariant
                    i < 9,
                    j <= 9,
                    s == self.spaces@,
                    s.len() == 81,
                    grid_ok(cs, s, qd_before(s, 9, 0, 0)),
                    forall|c: int|
                        0 <= c < 81 ==> #[trigger] board.spaces[c] == (if c % 9 < i || (c % 9 == i && c / 9 < j) {
                            qd_node(s, c)
                        } else {
                            s[c]
                        }),
                    changes@ == collect(9 * i + j, qd_change(s)),
                    forall|c: int|
                        0 <= c < 81 && (c % 9 < i || (c % 9 == i && c / 9 < j)) ==> !(qd_changed(s, c)
                            && none_possible(#[trigger] qd_new(s, c))),
                decreases 9 - j,
            {
                let ghost c = 9 * j + i;
                proof {
                    lemma_collect_step(9 * i + j, qd_change(s));
                    assert((9 * i + j) % 9 == j && (9 * i + j) / 9 == i);
                    assert(c % 9 == i && c / 9 == j);
                    let e = cs[i as int][j as int];
                    assert(entry_ok(e, s[c], c, qd_before(s, 9, 0, 0)));
                    assert forall|w: int| 0 <= w < 9 implies #[trigger] qd_before(s, 9, 0, 0)(c, w) == qd_marked(s, c, w) by {}
                    if e is Some {
                        assert(s[c].value is Pos);
                        let w = choose|w: int| 0 <= w < 9 && s[c].value->Pos_0[w] && qd_before(s, 9, 0, 0)(c, w);
                        assert(qd_marked(s, c, w));
                        assert(qd_changed(s, c));
                        lemma_arr9_ext(|w: int| s[c].value->Pos_0[w] && !qd_marked(s, c, w), e->Some_0);
                    } else if qd_changed(s, c) {
                        let w = choose|w: int| 0 <= w < 9 && s[c].value->Pos_0[w] && qd_marked(s, c, w);
                        assert(qd_before(s, 9, 0, 0)(c, w));
                    }
                }
                if let Some(new_p) = cs[i][j] {
                    changes.push(Change(Reference::Ord(9 * j + i), Value::Pos(new_p)));
                    let node = board.spaces[9 * j + i];
                    board.spaces[9 * j + i] = match node.change_value(Value::Pos(new_p)) {
                        Ok(n) => n,
                        Err(e) => {
                            assert(qd_changed(s, c) && none_possible(qd_new(s, c)));
                            return Err(e);
                        },
                    };
                }
                j += 1;
            }
            i += 1;
        }
        assert(board.spaces@ =~= Seq::new(81, |c: int| qd_node(s, c)));
        Ok((board, changes))
    }
}

} // verus!
