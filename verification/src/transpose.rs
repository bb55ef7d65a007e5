use vstd::prelude::*;

use crate::board_utils::{box_cell, box_cells, box_of, lemma_box_cell, lemma_cell_box};
use crate::progress::cells_wf;
use crate::quantum_utils::{
    box_col_cert, box_col_free, box_cols3, box_row_cert, box_row_free, box_rows3, cand_cols,
    cand_in_col, cand_in_row, cand_rows, col_group, col_mark, col_pinned_elsewhere, final_quantum_spec,
    fq_changed, fq_hit, fq_new, pair_of, qd_changed, qd_col_free, qd_marked, qd_new, qd_row_free,
    quantum_double_spec, row_group, row_mark, row_pinned_elsewhere,
};
use crate::solver::box_has;
use crate::utils::{Node, Value, cell_wf, lemma_arr9, none_possible};

verus! {

// ---------------------------------------------------------------------------
// Geometry
// ---------------------------------------------------------------------------
/// The cell whose row is the column of cell `c`, and whose column is its
/// row.
pub open spec fn tr(c: int) -> int {
    9 * (c % 9) + c / 9
}

/// The box whose box row is the box column of box `n`, and the other way
/// round (also the position within a box, transposed).
pub open spec fn tbox(n: int) -> int {
    3 * (n % 3) + n / 3
}

/// The board mirrored on its main diagonal: cell `c` takes the value of
/// cell `tr(c)`, and keeps its own coordinates.
pub open spec fn transposed(s: Seq<Node>) -> Seq<Node> {
    Seq::new(81, |c: int| Node { value: s[tr(c)].value, ..s[c] })
}

pub proof fn lemma_tr(c: int)
    requires
        0 <= c < 81,
    ensures
        0 <= tr(c) < 81,
        tr(tr(c)) == c,
        tr(c) / 9 == c % 9,
        tr(c) % 9 == c / 9,
        box_of(tr(c)) == tbox(box_of(c)),
{
}

pub proof fn lemma_tbox(n: int)
    requires
        0 <= n < 9,
    ensures
        0 <= tbox(n) < 9,
        tbox(tbox(n)) == n,
        tbox(n) / 3 == n % 3,
        tbox(n) % 3 == n / 3,
{
}

/// Cell `j` of box `n`, transposed, is cell `tbox(j)` of box `tbox(n)`.
pub proof fn lemma_tr_box_cell(n: int, j: int)
    requires
        0 <= n < 9,
        0 <= j < 9,
    ensures
        tr(box_cell(n, j)) == box_cell(tbox(n), tbox(j)),
{
    let bn = n / 3;
    let an = n % 3;
    let bj = j / 3;
    let aj = j % 3;
    let a = box_cell(n, j);
    assert(a == 9 * (3 * bn + bj) + (3 * an + aj));
    assert(a / 9 == 3 * bn + bj && a % 9 == 3 * an + aj) by {
        vstd::arithmetic::div_mod::lemma_fundamental_div_mod_converse(a, 9, 3 * bn + bj, 3 * an + aj);
    }
    assert(tbox(n) / 3 == an && tbox(n) % 3 == bn) by {
        vstd::arithmetic::div_mod::lemma_fundamental_div_mod_converse(tbox(n), 3, an, bn);
    }
    assert(tbox(j) / 3 == aj && tbox(j) % 3 == bj) by {
        vstd::arithmetic::div_mod::lemma_fundamental_div_mod_converse(tbox(j), 3, aj, bj);
    }
}

/// Transposing keeps the board well formed, and twice gives it back.
pub proof fn lemma_transposed_wf(s: Seq<Node>)
    requires
        cells_wf(s),
    ensures
        cells_wf(transposed(s)),
        transposed(transposed(s)) == s,
{
    let t = transposed(s);
    assert forall|i: int| 0 <= i < 81 implies cell_wf(#[trigger] t[i], i) by {
        lemma_tr(i);
        assert(cell_wf(s[i], i));
        assert(cell_wf(s[tr(i)], tr(i)));
    }
    assert forall|i: int| 0 <= i < 81 implies #[trigger] transposed(t)[i] == s[i] by {
        lemma_tr(i);
    }
    assert(transposed(t) =~= s);
}

// ---------------------------------------------------------------------------
// Boxes
// ---------------------------------------------------------------------------
/// The rows of digit `v + 1` in box `n` of the transposed board are its
/// columns in box `tbox(n)` of the board; the transposed box holds the
/// digit exactly where the box does.
pub proof fn lemma_box_transposed(s: Seq<Node>, n: int, v: int)
    requires
        cells_wf(s),
        0 <= n < 9,
        0 <= v < 9,
    ensures
        box_has(transposed(s), n, v) == box_has(s, tbox(n), v),
        cand_rows(box_cells(transposed(s), n), v) == cand_cols(box_cells(s, tbox(n)), v),
        box_row_cert(transposed(s), n, v) == box_col_cert(s, tbox(n), v),
        box_rows3(transposed(s), n, v) == box_cols3(s, tbox(n), v),
{
    broadcast use lemma_arr9;

    let t = transposed(s);
    let tn = tbox(n);
    let a = box_cells(t, n);
    let b = box_cells(s, tn);
    lemma_tbox(n);
    assert forall|i: int| 0 <= i < 9 implies #[trigger] a[i].value == b[tbox(i)].value && a[i].y == b[tbox(
        i,
    )].x by {
        lemma_tbox(i);
        lemma_tr_box_cell(n, i);
        lemma_box_cell(n, i);
        let c = box_cell(n, i);
        lemma_tr(c);
        assert(cell_wf(s[c], c));
        assert(cell_wf(s[tr(c)], tr(c)));
    }
    if box_has(t, n, v) {
        let i = choose|i: int| 0 <= i < a.len() && (#[trigger] a[i]).value == Value::Def((v + 1) as u8);
        assert(b[tbox(i)].value == Value::Def((v + 1) as u8));
        lemma_tbox(i);
    }
    if box_has(s, tn, v) {
        let i = choose|i: int| 0 <= i < b.len() && (#[trigger] b[i]).value == Value::Def((v + 1) as u8);
        lemma_tbox(i);
        assert(a[tbox(i)].value == Value::Def((v + 1) as u8));
    }
    assert forall|r: int| cand_in_row(a, v, r) == cand_in_col(b, v, r) by {
        if cand_in_row(a, v, r) {
            let i = choose|i: int|
                0 <= i < a.len() && (#[trigger] a[i]).value is Pos && a[i].value->Pos_0[v] && a[i].y == r + 1;
            lemma_tbox(i);
            assert(b[tbox(i)].value is Pos);
        }
        if cand_in_col(b, v, r) {
            let i = choose|i: int|
                0 <= i < b.len() && (#[trigger] b[i]).value is Pos && b[i].value->Pos_0[v] && b[i].x == r + 1;
            lemma_tbox(i);
            assert(a[tbox(i)].value == b[tbox(tbox(i))].value);
            assert(a[tbox(i)].value is Pos);
        }
    }
    assert(cand_rows(a, v) =~= cand_cols(b, v));
    assert(box_rows3(t, n, v) =~= box_cols3(s, tn, v));
}

/// The same, read the other way: the columns in a box of the transposed
/// board are the rows in the transposed box of the board.
pub proof fn lemma_box_transposed_cols(s: Seq<Node>, n: int, v: int)
    requires
        cells_wf(s),
        0 <= n < 9,
        0 <= v < 9,
    ensures
        box_col_cert(transposed(s), n, v) == box_row_cert(s, tbox(n), v),
        box_cols3(transposed(s), n, v) == box_rows3(s, tbox(n), v),
{
    lemma_transposed_wf(s);
    lemma_tbox(n);
    lemma_box_transposed(transposed(s), tbox(n), v);
}

// ---------------------------------------------------------------------------
// Quantum double
// ---------------------------------------------------------------------------
proof fn lemma_row_mark_transposed(s: Seq<Node>, v: int, y: int, c: int)
    requires
        cells_wf(s),
        0 <= v < 9,
        0 <= y < 3,
        0 <= c < 81,
    ensures
        row_mark(transposed(s), v, y, c) == col_mark(s, v, y, tr(c)),
{
    reveal(row_mark);
    let t = transposed(s);
    assert forall|n: int| 0 <= n < 9 implies #[trigger] box_row_free(t, n, v) == box_col_free(s, tbox(n), v) by {
        lemma_box_transposed(s, n, v);
    }
    assert(qd_row_free(t, v, y) == qd_col_free(s, v, y)) by {
        if qd_row_free(t, v, y) {
            assert forall|n: int| 0 <= n < 9 && n % 3 == y implies #[trigger] box_col_free(s, n, v) by {
                lemma_tbox(n);
                assert(box_row_free(t, tbox(n), v));
            }
        }
        if qd_col_free(s, v, y) {
            assert forall|n: int| 0 <= n < 9 && n / 3 == y implies #[trigger] box_row_free(t, n, v) by {
                lemma_tbox(n);
                assert(box_col_free(s, tbox(n), v));
            }
        }
    }
    assert(row_group(t, v, y) =~= col_group(s, v, y)) by {
        lemma_box_transposed(s, 3 * y, v);
        lemma_box_transposed(s, 3 * y + 1, v);
        lemma_box_transposed(s, 3 * y + 2, v);
        assert(tbox(3 * y) == y);
        assert(tbox(3 * y + 1) == y + 3);
        assert(tbox(3 * y + 2) == y + 6);
    }
    lemma_tr(c);
    lemma_cell_box(c);
    lemma_tbox(box_of(c));
    if let Some((cc, pat)) = pair_of(row_group(t, v, y)) {
        if box_of(tr(c)) == 3 * cc + y {
            assert(tbox(3 * cc + y) == 3 * y + cc);
        }
    }
}

/// The marks of the quantum double step on the transposed board are those
/// on the board, transposed: its row pass is the column pass, and the other
/// way round.
pub proof fn lemma_marks_transposed(s: Seq<Node>, v: int, y: int, c: int)
    requires
        cells_wf(s),
        0 <= v < 9,
        0 <= y < 3,
        0 <= c < 81,
    ensures
        row_mark(transposed(s), v, y, c) == col_mark(s, v, y, tr(c)),
        col_mark(transposed(s), v, y, c) == row_mark(s, v, y, tr(c)),
{
    lemma_row_mark_transposed(s, v, y, c);
    lemma_transposed_wf(s);
    lemma_tr(c);
    lemma_row_mark_transposed(transposed(s), v, y, tr(c));
}

proof fn lemma_qd_marked_transposed(s: Seq<Node>, c: int, v: int)
    requires
        cells_wf(s),
        0 <= v < 9,
        0 <= c < 81,
    ensures
        qd_marked(transposed(s), c, v) == qd_marked(s, tr(c), v),
{
    lemma_marks_transposed(s, v, 0, c);
    lemma_marks_transposed(s, v, 1, c);
    lemma_marks_transposed(s, v, 2, c);
}

proof fn lemma_qd_cell_transposed(s: Seq<Node>, c: int)
    requires
        cells_wf(s),
        0 <= c < 81,
    ensures
        qd_new(transposed(s), c) == qd_new(s, tr(c)),
        qd_changed(transposed(s), c) == qd_changed(s, tr(c)),
{
    broadcast use lemma_arr9;

    let t = transposed(s);
    lemma_tr(c);
    assert forall|v: int| 0 <= v < 9 implies #[trigger] qd_marked(t, c, v) == qd_marked(s, tr(c), v) by {
        lemma_qd_marked_transposed(s, c, v);
    }
    assert(qd_new(t, c) =~= qd_new(s, tr(c)));
    if qd_changed(t, c) {
        let v = choose|v: int| 0 <= v < 9 && t[c].value->Pos_0[v] && qd_marked(t, c, v);
        assert(qd_marked(s, tr(c), v));
    }
    if qd_changed(s, tr(c)) {
        let v = choose|v: int| 0 <= v < 9 && s[tr(c)].value->Pos_0[v] && qd_marked(s, tr(c), v);
        assert(qd_marked(t, c, v));
    }
}

/// The quantum double step treats box rows and box columns alike: on the
/// transposed board it fails exactly when it fails on the board, and
/// otherwise gives the transposed cells.
pub proof fn lemma_quantum_double_transposed(s: Seq<Node>)
    requires
        cells_wf(s),
    ensures
        (quantum_double_spec(transposed(s)) is Some) == (quantum_double_spec(s) is Some),
        quantum_double_spec(s) matches Some((u, _)) ==> quantum_double_spec(transposed(s))->Some_0.0
            == transposed(u),
{
    broadcast use lemma_arr9;

    let t = transposed(s);
    assert forall|c: int| 0 <= c < 81 implies #[trigger] qd_new(t, c) == qd_new(s, tr(c)) && qd_changed(t, c)
        == qd_changed(s, tr(c)) by {
        lemma_qd_cell_transposed(s, c);
    }
    if quantum_double_spec(t) is None {
        let c = choose|c: int| 0 <= c < 81 && qd_changed(t, c) && none_possible(#[trigger] qd_new(t, c));
        lemma_tr(c);
        assert(qd_changed(s, tr(c)) && none_possible(qd_new(s, tr(c))));
    }
    if quantum_double_spec(s) is None {
        let c = choose|c: int| 0 <= c < 81 && qd_changed(s, c) && none_possible(#[trigger] qd_new(s, c));
        lemma_tr(c);
        lemma_qd_cell_transposed(s, tr(c));
        assert(qd_changed(t, tr(c)) && none_possible(qd_new(t, tr(c))));
    }
    if let Some((u, _)) = quantum_double_spec(s) {
        let w = quantum_double_spec(t)->Some_0.0;
        assert forall|c: int| 0 <= c < 81 implies #[trigger] w[c] == transposed(u)[c] by {
            lemma_tr(c);
        }
        assert(w =~= transposed(u));
    }
}

// ---------------------------------------------------------------------------
// Final quantum
// ---------------------------------------------------------------------------
proof fn lemma_fq_hit_transposed(s: Seq<Node>, c: int, d: int)
    requires
        cells_wf(s),
        0 <= c < 81,
        0 <= d < 9,
    ensures
        fq_hit(transposed(s), c, d) == fq_hit(s, tr(c), d),
{
    let t = transposed(s);
    lemma_tr(c);
    lemma_cell_box(c);
    let b = box_of(c);
    lemma_tbox(b);
    if row_pinned_elsewhere(t, b, d, c / 9) {
        let a = choose|a: int| 0 <= a < 9 && a != b && #[trigger] box_row_cert(t, a, d) == c / 9 + 1;
        lemma_box_transposed(s, a, d);
        lemma_tbox(a);
        assert(box_col_cert(s, tbox(a), d) == tr(c) % 9 + 1);
        assert(col_pinned_elsewhere(s, box_of(tr(c)), d, tr(c) % 9));
    }
    if col_pinned_elsewhere(s, box_of(tr(c)), d, tr(c) % 9) {
        let a = choose|a: int| 0 <= a < 9 && a != box_of(tr(c)) && #[trigger] box_col_cert(s, a, d) == tr(c) % 9 + 1;
        lemma_tbox(a);
        lemma_box_transposed(s, tbox(a), d);
        assert(box_row_cert(t, tbox(a), d) == c / 9 + 1);
        assert(row_pinned_elsewhere(t, b, d, c / 9));
    }
    if col_pinned_elsewhere(t, b, d, c % 9) {
        let a = choose|a: int| 0 <= a < 9 && a != b && #[trigger] box_col_cert(t, a, d) == c % 9 + 1;
        lemma_box_transposed_cols(s, a, d);
        lemma_tbox(a);
        assert(box_row_cert(s, tbox(a), d) == tr(c) / 9 + 1);
        assert(row_pinned_elsewhere(s, box_of(tr(c)), d, tr(c) / 9));
    }
    if row_pinned_elsewhere(s, box_of(tr(c)), d, tr(c) / 9) {
        let a = choose|a: int| 0 <= a < 9 && a != box_of(tr(c)) && #[trigger] box_row_cert(s, a, d) == tr(c) / 9 + 1;
        lemma_tbox(a);
        lemma_box_transposed_cols(s, tbox(a), d);
        assert(box_col_cert(t, tbox(a), d) == c % 9 + 1);
        assert(col_pinned_elsewhere(t, b, d, c % 9));
    }
}

proof fn lemma_fq_cell_transposed(s: Seq<Node>, c: int)
    requires
        cells_wf(s),
        0 <= c < 81,
    ensures
        fq_new(transposed(s), c) == fq_new(s, tr(c)),
        fq_changed(transposed(s), c) == fq_changed(s, tr(c)),
{
    broadcast use lemma_arr9;

    let t = transposed(s);
    lemma_tr(c);
    assert forall|d: int| 0 <= d < 9 implies #[trigger] fq_hit(t, c, d) == fq_hit(s, tr(c), d) by {
        lemma_fq_hit_transposed(s, c, d);
    }
    assert(fq_new(t, c) =~= fq_new(s, tr(c)));
    if fq_changed(t, c) {
        let d = choose|d: int| 0 <= d < 9 && t[c].value->Pos_0[d] && fq_hit(t, c, d);
        assert(fq_hit(s, tr(c), d));
    }
    if fq_changed(s, tr(c)) {
        let d = choose|d: int| 0 <= d < 9 && s[tr(c)].value->Pos_0[d] && fq_hit(s, tr(c), d);
        assert(fq_hit(t, c, d));
    }
}

/// The final quantum step treats rows and columns alike: on the transposed
/// board it fails exactly when it fails on the board, and otherwise gives
/// the transposed cells.
pub proof fn lemma_final_quantum_transposed(s: Seq<Node>)
    requires
        cells_wf(s),
    ensures
        (final_quantum_spec(transposed(s)) is Some) == (final_quantum_spec(s) is Some),
        final_quantum_spec(s) matches Some((u, _)) ==> final_quantum_spec(transposed(s))->Some_0.0
            == transposed(u),
{
    let t = transposed(s);
    assert forall|c: int| 0 <= c < 81 implies #[trigger] fq_new(t, c) == fq_new(s, tr(c)) && fq_changed(t, c)
        == fq_changed(s, tr(c)) by {
        lemma_fq_cell_transposed(s, c);
    }
    if final_quantum_spec(t) is None {
        let c = choose|c: int| 0 <= c < 81 && fq_changed(t, c) && none_possible(#[trigger] fq_new(t, c));
        lemma_tr(c);
        assert(fq_changed(s, tr(c)) && none_possible(fq_new(s, tr(c))));
    }
    if final_quantum_spec(s) is None {
        let c = choose|c: int| 0 <= c < 81 && fq_changed(s, c) && none_possible(#[trigger] fq_new(s, c));
        lemma_tr(c);
        lemma_fq_cell_transposed(s, tr(c));
        assert(fq_changed(t, tr(c)) && none_possible(fq_new(t, tr(c))));
    }
    if let Some((u, _)) = final_quantum_spec(s) {
        let w = final_quantum_spec(t)->Some_0.0;
        assert forall|c: int| 0 <= c < 81 implies #[trigger] w[c] == transposed(u)[c] by {
            lemma_tr(c);
        }
        assert(w =~= transposed(u));
    }
}

} // verus!
