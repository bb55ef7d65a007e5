use vstd::prelude::*;

use crate::board_utils::{box_cell, box_cells, box_of, box_pos, def_among, lemma_box_cell, lemma_cell_box};
use crate::disclusion::{
    empty_branch, fg_child, fg_children, fg_expand, fg_from, fg_goal, fg_level, fg_search,
    find_all_groups_spec, find_group_spec, find_groups_spec, fgs_node, group_fails, lemma_groups_idle,
    lemma_grp_change_at, lemma_grp_change_none, lemma_unit_geometry, or_bits, slice_mapping, slice_places,
    unit_cell, unit_depth, unit_nodes, unit_of, unit_pos,
};
use crate::process::{
    full_processing_safe, full_processing_spec, group_tiers_spec, later_tiers_spec, quantum_tiers_spec,
    solos_spec, tier_one_spec,
};
use crate::progress::{
    cells_wf, lemma_box_elimination_progress, lemma_candidate_digits_flagged, lemma_depossibilize_progress,
    lemma_direct_elimination_progress, lemma_final_quantum_progress, lemma_find_all_groups_progress,
    lemma_narrows_wf,
};
use crate::solver::{
    box_elimination_spec, box_has, de_hit, de_new, depossibilize_spec, direct_elimination_spec,
    dp_changed, be_new, lemma_candidate_digits,
};
use crate::progress::{lemma_solo_upto_some, lemma_unit_refs_name_cells, narrows_all};
use crate::process::lemma_full_processing_progress;
use crate::progress::lemma_quantum_double_progress;
use crate::disclusion::lemma_line_refs;
use crate::solos::{
    box_refs, col_refs, places, row_refs, solo_change, solo_changes, solo_changes_upto, solo_upto,
    unit_solos,
};
use crate::quantum_utils::{
    box_col_cert, box_row_cert, cand_cols, cand_in_col, cand_in_row, cand_rows, col_pinned_elsewhere,
    final_quantum_spec, fq_changed, fq_hit, fq_new, row_pinned_elsewhere, box_row_free, box_rows3,
    col_group, col_mark, box_col_free, qd_col_free, box_cols3, group_marks, pair_of, qd_changed, qd_marked, qd_new, quantum_double_spec, row_group,
    row_mark,
};
use crate::utils::{
    Change, Outcome, Reference, apply_changes, collect, names_cell, opt_seq, set_value, spec_ordinal,
    Node, Value, candidate_digits, cell_wf, count_true, is_digit, lemma_arr9, lemma_count_true_one,
    none_possible, only_position,
};

verus! {

// ---------------------------------------------------------------------------
// Solutions
// ---------------------------------------------------------------------------
/// Two different cells that share a row, a column or a box.
pub open spec fn peers(a: int, b: int) -> bool {
    a != b && (a / 9 == b / 9 || a % 9 == b % 9 || box_of(a) == box_of(b))
}

/// Box, row or column `i` (as `how` names the kind) holds digit `d`.
pub open spec fn unit_has(sol: Seq<u8>, how: Option<bool>, i: int, d: int) -> bool {
    exists|j: int| 0 <= j < 9 && sol[unit_cell(how, i, j)] == d
}

/// The digits `sol`, in row-major order, solve the sudoku: each is a digit
/// from 1 to 9, every box, row and column holds every digit, and no two
/// cells that share a row, a column or a box hold the same digit.
pub open spec fn is_solution(sol: Seq<u8>) -> bool {
    &&& sol.len() == 81
    &&& forall|c: int| 0 <= c < 81 ==> is_digit(#[trigger] sol[c])
    &&& forall|how: Option<bool>, i: int, d: int|
        0 <= i < 9 && 1 <= d <= 9 ==> #[trigger] unit_has(sol, how, i, d)
    &&& forall|a: int, b: int| 0 <= a < 81 && 0 <= b < 81 && #[trigger] peers(a, b) ==> sol[a] != sol[b]
}

/// The cell agrees with digit `d`: it holds `d`, or has `d` among its
/// candidates.
pub open spec fn cell_agrees(n: Node, d: u8) -> bool {
    match n.value {
        Value::Def(e) => e == d,
        Value::Pos(p) => p[d - 1],
    }
}

/// The cells agree with the solution `sol`, cell by cell.
pub open spec fn agrees(s: Seq<Node>, sol: Seq<u8>) -> bool {
    &&& s.len() == 81
    &&& forall|c: int| 0 <= c < 81 ==> #[trigger] cell_agrees(s[c], sol[c])
}

/// A step on the cells gives cells (it finds no contradiction) that still
/// agree with the solution.
pub open spec fn keeps(o: Option<(Seq<Node>, Seq<Change>)>, sol: Seq<u8>) -> bool {
    o matches Some((t, _cs)) && agrees(t, sol)
}

/// No cell that is not definite has a candidate that is definite in a cell
/// sharing its row, column or box.
pub open spec fn settled(s: Seq<Node>) -> bool {
    forall|a: int, b: int|
        0 <= a < 81 && 0 <= b < 81 && #[trigger] peers(a, b) && s[a].value is Pos && s[b].value is Def
            ==> !s[a].value->Pos_0[s[b].value->Def_0 - 1]
}

/// No cell that is not definite has a candidate that is definite in
/// another cell of its unit of the kind `how` (box, row or column).
pub open spec fn unit_settled(s: Seq<Node>, how: Option<bool>) -> bool {
    forall|a: int, b: int|
        0 <= a < 81 && 0 <= b < 81 && a != b && #[trigger] unit_of(how, a) == #[trigger] unit_of(how, b)
            && s[a].value is Pos && s[b].value is Def ==> !s[a].value->Pos_0[s[b].value->Def_0 - 1]
}

/// Settled cells are settled in each kind of unit.
pub proof fn lemma_settled_units(s: Seq<Node>, how: Option<bool>)
    requires
        settled(s),
    ensures
        unit_settled(s, how),
{
    assert forall|a: int, b: int|
        0 <= a < 81 && 0 <= b < 81 && a != b && #[trigger] unit_of(how, a) == #[trigger] unit_of(how, b)
            && s[a].value is Pos && s[b].value is Def implies !s[a].value->Pos_0[s[b].value->Def_0 - 1] by {
        assert(peers(a, b));
    }
}

/// Cells at index `i` carry the coordinates of that index.
proof fn lemma_coords(s: Seq<Node>, i: int)
    requires
        cells_wf(s),
        0 <= i < 81,
    ensures
        s[i].x == i % 9 + 1,
        s[i].y == i / 9 + 1,
        s[i].value is Def ==> is_digit(s[i].value->Def_0),
{
    assert(cell_wf(s[i], i));
}

// ---------------------------------------------------------------------------
// Tier one
// ---------------------------------------------------------------------------
/// Direct elimination on cells that agree with a solution finds no
/// contradiction, and its cells still agree with the solution.
pub proof fn lemma_direct_elimination_sound(s: Seq<Node>, sol: Seq<u8>)
    requires
        cells_wf(s),
        is_solution(sol),
        agrees(s, sol),
    ensures
        keeps(direct_elimination_spec(s), sol),
{
    broadcast use lemma_arr9;

    assert forall|c: int| 0 <= c < 81 && #[trigger] s[c].value is Pos implies !de_hit(s, c, sol[c] - 1) by {
        let k = sol[c] - 1;
        assert(cell_agrees(s[c], sol[c]));
        lemma_coords(s, c);
        if crate::board_utils::def_in_row(s, k, s[c].y - 1) {
            let i = choose|i: int| 0 <= i < s.len() && (#[trigger] s[i]).value == Value::Def((k + 1) as u8) && s[i].y == s[c].y - 1 + 1;
            lemma_coords(s, i);
            assert(cell_agrees(s[i], sol[i]));
            assert(peers(i, c));
        }
        if crate::board_utils::def_in_col(s, k, s[c].x - 1) {
            let i = choose|i: int| 0 <= i < s.len() && (#[trigger] s[i]).value == Value::Def((k + 1) as u8) && s[i].x == s[c].x - 1 + 1;
            lemma_coords(s, i);
            assert(cell_agrees(s[i], sol[i]));
            assert(peers(i, c));
        }
    }
    assert forall|c: int| 0 <= c < 81 && s[c].value is Pos implies #[trigger] de_new(s, c)[sol[c] - 1] by {
        assert(cell_agrees(s[c], sol[c]));
    }
    if let Some((t, cs)) = direct_elimination_spec(s) {
        assert forall|c: int| 0 <= c < 81 implies #[trigger] cell_agrees(t[c], sol[c]) by {
            assert(cell_agrees(s[c], sol[c]));
            if s[c].value is Pos {
                assert(de_new(s, c)[sol[c] - 1]);
            }
        }
    } else {
        let c = choose|c: int| 0 <= c < 81 && crate::solver::de_changed(s, c) && none_possible(#[trigger] de_new(s, c));
        assert(de_new(s, c)[sol[c] - 1]);
    }
}

/// Box elimination on cells that agree with a solution finds no
/// contradiction, and its cells still agree with the solution.
pub proof fn lemma_box_elimination_sound(s: Seq<Node>, sol: Seq<u8>)
    requires
        cells_wf(s),
        is_solution(sol),
        agrees(s, sol),
    ensures
        keeps(box_elimination_spec(s), sol),
{
    broadcast use lemma_arr9;

    assert forall|c: int| 0 <= c < 81 && #[trigger] s[c].value is Pos implies !box_has(s, box_of(c), sol[c] - 1) by {
        let k = sol[c] - 1;
        let b = box_of(c);
        assert(cell_agrees(s[c], sol[c]));
        lemma_cell_box(c);
        if box_has(s, b, k) {
            let j = choose|j: int| 0 <= j < 9 && (#[trigger] box_cells(s, b)[j]).value == Value::Def((k + 1) as u8);
            let i = box_cell(b, j);
            lemma_box_cell(b, j);
            assert(box_cells(s, b)[j] == s[i]);
            assert(cell_agrees(s[i], sol[i]));
            assert(peers(i, c));
        }
    }
    assert forall|c: int| 0 <= c < 81 && s[c].value is Pos implies #[trigger] be_new(s, c)[sol[c] - 1] by {
        assert(cell_agrees(s[c], sol[c]));
    }
    if let Some((t, cs)) = box_elimination_spec(s) {
        assert forall|c: int| 0 <= c < 81 implies #[trigger] cell_agrees(t[c], sol[c]) by {
            assert(cell_agrees(s[c], sol[c]));
            if s[c].value is Pos {
                assert(be_new(s, c)[sol[c] - 1]);
            }
        }
    } else {
        let c = choose|c: int| 0 <= c < 81 && crate::solver::be_changed(s, c) && none_possible(#[trigger] be_new(s, c));
        assert(be_new(s, c)[sol[c] - 1]);
    }
}

/// Making single candidates definite keeps agreement with a solution.
pub proof fn lemma_depossibilize_sound(s: Seq<Node>, sol: Seq<u8>)
    requires
        is_solution(sol),
        agrees(s, sol),
    ensures
        keeps(Some(depossibilize_spec(s)), sol),
{
    let t = depossibilize_spec(s).0;
    assert forall|c: int| 0 <= c < 81 implies #[trigger] cell_agrees(t[c], sol[c]) by {
        assert(cell_agrees(s[c], sol[c]));
        if dp_changed(s, c) {
            let p = s[c].value->Pos_0@;
            lemma_candidate_digits(p);
            lemma_candidate_digits_flagged(p);
            lemma_count_true_one(p);
            let d = candidate_digits(p)[0];
            assert(p[d - 1]);
            assert(p[sol[c] - 1]);
        }
    }
}

// ---------------------------------------------------------------------------
// Solos
// ---------------------------------------------------------------------------
/// The change names a cell and makes it its digit in the solution.
pub open spec fn right_change(sol: Seq<u8>, ch: Change) -> bool {
    &&& names_cell(ch.0)
    &&& ch.1 == Value::Def(sol[spec_ordinal(ch.0)])
}

/// Every change makes its cell its digit in the solution.
pub open spec fn all_right(sol: Seq<u8>, cs: Seq<Change>) -> bool {
    forall|i: int| 0 <= i < cs.len() ==> right_change(sol, #[trigger] cs[i])
}

proof fn lemma_all_right_concat(sol: Seq<u8>, a: Seq<Change>, b: Seq<Change>)
    requires
        all_right(sol, a),
        all_right(sol, b),
    ensures
        all_right(sol, a + b),
{
    assert forall|i: int| 0 <= i < (a + b).len() implies right_change(sol, #[trigger] (a + b)[i]) by {
        if i < a.len() {
            assert((a + b)[i] == a[i]);
        } else {
            assert((a + b)[i] == b[i - a.len()]);
        }
    }
}

/// Two different cells of one unit are peers.
proof fn lemma_unit_peers(how: Option<bool>, i: int, j: int, k: int)
    requires
        0 <= i < 9,
        0 <= j < 9,
        0 <= k < 9,
        j != k,
    ensures
        peers(unit_cell(how, i, j), unit_cell(how, i, k)),
{
    lemma_unit_geometry(how);
    let a = unit_cell(how, i, j);
    let b = unit_cell(how, i, k);
    assert(unit_pos(how, a) != unit_pos(how, b));
    match how {
        None => {
            assert(box_of(a) == box_of(b));
        },
        Some(true) => {
            assert(a / 9 == b / 9);
        },
        Some(false) => {
            assert(a % 9 == b % 9);
        },
    }
}

/// In a settled unit, a digit with a single place among the cells that are
/// not definite has its solution there.
proof fn lemma_unit_solo_right(
    s: Seq<Node>,
    sol: Seq<u8>,
    refs: Seq<Reference>,
    how: Option<bool>,
    i: int,
    n: int,
)
    requires
        cells_wf(s),
        is_solution(sol),
        agrees(s, sol),
        settled(s),
        0 <= i < 9,
        0 <= n <= 9,
        refs.len() == 9,
        forall|j: int| 0 <= j < 9 ==> names_cell(#[trigger] refs[j]),
        forall|j: int| 0 <= j < 9 ==> spec_ordinal(#[trigger] refs[j]) == unit_cell(how, i, j),
    ensures
        all_right(sol, collect(n, solo_change(s, refs))),
    decreases n,
{
    if n > 0 {
        lemma_unit_solo_right(s, sol, refs, how, i, n - 1);
        let j = n - 1;
        let o = solo_change(s, refs)(j);
        if o is Some {
            lemma_solo_upto_some(s, refs, j, 9);
            let x = solo_upto(s, refs, j, 9)->Some_0 as int;
            let a = unit_cell(how, i, j);
            lemma_unit_geometry(how);
            assert(unit_has(sol, how, i, x + 1));
            let je = choose|je: int| 0 <= je < 9 && sol[unit_cell(how, i, je)] == x + 1;
            let e = unit_cell(how, i, je);
            assert(cell_agrees(s[e], sol[e]));
            assert(cell_agrees(s[a], sol[a]));
            if je != j {
                lemma_unit_peers(how, i, je, j);
                if s[e].value is Def {
                    assert(peers(a, e));
                } else {
                    assert(places(s, refs, x)[je]);
                    assert(places(s, refs, x)[j]);
                    lemma_count_true_one(places(s, refs, x));
                }
            }
            assert(right_change(sol, o->Some_0));
        }
        lemma_all_right_concat(sol, collect(n - 1, solo_change(s, refs)), opt_seq(o));
    }
}

proof fn lemma_solo_changes_right(s: Seq<Node>, sol: Seq<u8>, n: int)
    requires
        cells_wf(s),
        is_solution(sol),
        agrees(s, sol),
        settled(s),
        0 <= n <= 9,
    ensures
        all_right(sol, solo_changes_upto(s, n)),
    decreases n,
{
    if n > 0 {
        let i = n - 1;
        lemma_solo_changes_right(s, sol, n - 1);
        lemma_unit_refs_name_cells(i);
        assert forall|j: int| 0 <= j < 9 implies spec_ordinal(#[trigger] box_refs(i)[j]) == unit_cell(None, i, j) by {
            crate::board_utils::lemma_box_reference(i, j);
        }
        lemma_line_refs(i);
        lemma_unit_solo_right(s, sol, box_refs(i), None, i, 9);
        lemma_unit_solo_right(s, sol, col_refs(i), Some(false), i, 9);
        lemma_unit_solo_right(s, sol, row_refs(i), Some(true), i, 9);
        let a = solo_changes_upto(s, n - 1);
        let b = unit_solos(s, box_refs(i));
        let c = unit_solos(s, col_refs(i));
        let d = unit_solos(s, row_refs(i));
        lemma_all_right_concat(sol, a, b);
        lemma_all_right_concat(sol, a + b, c);
        lemma_all_right_concat(sol, a + b + c, d);
    }
}

/// Changes that make cells their digits in the solution apply without fault
/// to cells that agree with it, and the cells still agree.
pub proof fn lemma_apply_right(s: Seq<Node>, sol: Seq<u8>, cs: Seq<Change>)
    requires
        agrees(s, sol),
        all_right(sol, cs),
    ensures
        apply_changes(s, cs) matches Outcome::Board(t) && agrees(t, sol),
    decreases cs.len(),
{
    if cs.len() > 0 {
        let init = cs.drop_last();
        assert(all_right(sol, init)) by {
            assert forall|i: int| 0 <= i < init.len() implies right_change(sol, #[trigger] init[i]) by {
                assert(init[i] == cs[i]);
            }
        }
        lemma_apply_right(s, sol, init);
        let t1 = apply_changes(s, init)->Board_0;
        let ch = cs.last();
        assert(right_change(sol, cs[cs.len() - 1]));
        let c = spec_ordinal(ch.0);
        assert(cell_agrees(t1[c], sol[c]));
        let t = set_value(t1, c, ch.1);
        assert forall|c2: int| 0 <= c2 < 81 implies #[trigger] cell_agrees(t[c2], sol[c2]) by {
            assert(cell_agrees(t1[c2], sol[c2]));
        }
    }
}

/// On settled cells that agree with a solution, the solo changes apply
/// without fault and the cells still agree.
pub proof fn lemma_solos_sound(s: Seq<Node>, sol: Seq<u8>)
    requires
        cells_wf(s),
        is_solution(sol),
        agrees(s, sol),
        settled(s),
    ensures
        apply_changes(s, solo_changes(s)) matches Outcome::Board(t) && agrees(t, sol),
{
    lemma_solo_changes_right(s, sol, 9);
    lemma_apply_right(s, sol, solo_changes(s));
}

// ---------------------------------------------------------------------------
// Final quantum
// ---------------------------------------------------------------------------
/// Where box `a` confines digit `k + 1` (among its cells that are not
/// definite) to one row, the solution's `k + 1` of that box is on that row.
proof fn lemma_pinned_row_right(s: Seq<Node>, sol: Seq<u8>, a: int, k: int, e: int)
    requires
        cells_wf(s),
        is_solution(sol),
        agrees(s, sol),
        unit_settled(s, None),
        0 <= a < 9,
        0 <= k < 9,
        0 <= e < 81,
        box_of(e) == a,
        sol[e] == k + 1,
        box_row_cert(s, a, k) != 0,
    ensures
        e / 9 + 1 == box_row_cert(s, a, k),
{
    broadcast use lemma_arr9;

    let sl = box_cells(s, a);
    let rows = cand_rows(sl, k);
    lemma_count_true_one(rows@);
    let r = only_position(rows@);
    assert(rows[r]);
    let iw = choose|i: int| 0 <= i < sl.len() && (#[trigger] sl[i]).value is Pos && sl[i].value->Pos_0[k] && sl[i].y == r + 1;
    let w = box_cell(a, iw);
    lemma_box_cell(a, iw);
    lemma_cell_box(e);
    assert(sl[iw] == s[w]);
    assert(cell_agrees(s[e], sol[e]));
    if s[e].value is Def {
        assert(w != e);
        assert(unit_of(None, w) == unit_of(None, e));
    } else {
        let je = box_pos(e);
        assert(sl[je] == s[e]);
        lemma_coords(s, e);
        assert(cand_in_row(sl, k, e / 9));
        assert(rows[e / 9]);
    }
}

/// Where box `a` confines digit `k + 1` (among its cells that are not
/// definite) to one column, the solution's `k + 1` of that box is on that
/// column.
proof fn lemma_pinned_col_right(s: Seq<Node>, sol: Seq<u8>, a: int, k: int, e: int)
    requires
        cells_wf(s),
        is_solution(sol),
        agrees(s, sol),
        unit_settled(s, None),
        0 <= a < 9,
        0 <= k < 9,
        0 <= e < 81,
        box_of(e) == a,
        sol[e] == k + 1,
        box_col_cert(s, a, k) != 0,
    ensures
        e % 9 + 1 == box_col_cert(s, a, k),
{
    broadcast use lemma_arr9;

    let sl = box_cells(s, a);
    let cols = cand_cols(sl, k);
    lemma_count_true_one(cols@);
    let r = only_position(cols@);
    assert(cols[r]);
    let iw = choose|i: int| 0 <= i < sl.len() && (#[trigger] sl[i]).value is Pos && sl[i].value->Pos_0[k] && sl[i].x == r + 1;
    let w = box_cell(a, iw);
    lemma_box_cell(a, iw);
    lemma_cell_box(e);
    assert(sl[iw] == s[w]);
    assert(cell_agrees(s[e], sol[e]));
    if s[e].value is Def {
        assert(w != e);
        assert(unit_of(None, w) == unit_of(None, e));
    } else {
        let je = box_pos(e);
        assert(sl[je] == s[e]);
        lemma_coords(s, e);
        assert(cand_in_col(sl, k, e % 9));
        assert(cols[e % 9]);
    }
}

/// The final quantum step on cells that agree with a solution, and whose
/// boxes are settled, finds no contradiction, and its cells still agree
/// with the solution.
pub proof fn lemma_final_quantum_sound(s: Seq<Node>, sol: Seq<u8>)
    requires
        cells_wf(s),
        is_solution(sol),
        agrees(s, sol),
        unit_settled(s, None),
    ensures
        keeps(final_quantum_spec(s), sol),
{
    broadcast use lemma_arr9;

    assert forall|c: int| 0 <= c < 81 && #[trigger] s[c].value is Pos implies !fq_hit(s, c, sol[c] - 1) by {
        let k = sol[c] - 1;
        lemma_cell_box(c);
        if row_pinned_elsewhere(s, box_of(c), k, c / 9) {
            let a = choose|a: int| 0 <= a < 9 && a != box_of(c) && #[trigger] box_row_cert(s, a, k) == c / 9 + 1;
            assert(unit_has(sol, None, a, k + 1));
            let je = choose|je: int| 0 <= je < 9 && sol[unit_cell(None, a, je)] == k + 1;
            let e = box_cell(a, je);
            lemma_box_cell(a, je);
            lemma_pinned_row_right(s, sol, a, k, e);
            assert(peers(e, c));
        }
        if col_pinned_elsewhere(s, box_of(c), k, c % 9) {
            let a = choose|a: int| 0 <= a < 9 && a != box_of(c) && #[trigger] box_col_cert(s, a, k) == c % 9 + 1;
            assert(unit_has(sol, None, a, k + 1));
            let je = choose|je: int| 0 <= je < 9 && sol[unit_cell(None, a, je)] == k + 1;
            let e = box_cell(a, je);
            lemma_box_cell(a, je);
            lemma_pinned_col_right(s, sol, a, k, e);
            assert(peers(e, c));
        }
    }
    assert forall|c: int| 0 <= c < 81 && s[c].value is Pos implies #[trigger] fq_new(s, c)[sol[c] - 1] by {
        assert(cell_agrees(s[c], sol[c]));
    }
    if let Some((t, cs)) = final_quantum_spec(s) {
        assert forall|c: int| 0 <= c < 81 implies #[trigger] cell_agrees(t[c], sol[c]) by {
            assert(cell_agrees(s[c], sol[c]));
            if s[c].value is Pos {
                assert(fq_new(s, c)[sol[c] - 1]);
            }
        }
    } else {
        let c = choose|c: int| 0 <= c < 81 && fq_changed(s, c) && none_possible(#[trigger] fq_new(s, c));
        assert(fq_new(s, c)[sol[c] - 1]);
    }
}

// ---------------------------------------------------------------------------
// Quantum double
// ---------------------------------------------------------------------------
/// A pair found among three patterns: two different patterns, neither the
/// third, equal to the pattern found, which has two flags set.
proof fn lemma_pair_of(g: Seq<Seq<bool>>)
    requires
        g.len() == 3,
        pair_of(g) is Some,
    ensures
        ({
            let (cc, pat) = pair_of(g)->Some_0;
            &&& 0 <= cc < 3
            &&& count_true(pat) == 2
            &&& exists|p: int, q: int|
                0 <= p < 3 && 0 <= q < 3 && p != q && p != cc && q != cc && g[p] == pat && g[q] == pat
        }),
{
    let (cc, pat) = pair_of(g)->Some_0;
    if count_true(g[0]) == 2 && g[1] == g[0] {
        assert(g[0] == pat && g[1] == pat);
    } else if count_true(g[0]) == 2 && g[2] == g[0] {
        assert(g[0] == pat && g[2] == pat);
    } else if count_true(g[1]) == 2 && g[2] == g[1] {
        assert(g[1] == pat && g[2] == pat);
    } else {
        assert(g[1] == pat && g[0] == pat);
    }
}

/// Three flags, two of them set, cannot have three different positions set.
proof fn lemma_two_of_three(pat: Seq<bool>, a: int, b: int, c: int)
    requires
        pat.len() == 3,
        count_true(pat) == 2,
        0 <= a < 3 && 0 <= b < 3 && 0 <= c < 3,
        pat[a] && pat[b],
        a != b,
        pat[c],
    ensures
        c == a || c == b,
{
    reveal_with_fuel(count_true, 4);
    assert(pat.drop_last().drop_last().drop_last().len() == 0);
    assert(pat.drop_last().drop_last() =~= seq![pat[0]]);
    assert(pat.drop_last() =~= seq![pat[0], pat[1]]);
}

/// In a box of band `y` that does not hold digit `v + 1`, the solution's
/// `v + 1` is on a row of the box's pattern for `v + 1`.
proof fn lemma_band_box_row(s: Seq<Node>, sol: Seq<u8>, v: int, y: int, n: int) -> (e: int)
    requires
        cells_wf(s),
        is_solution(sol),
        agrees(s, sol),
        0 <= v < 9,
        0 <= y < 3,
        n / 3 == y,
        0 <= n < 9,
        !box_has(s, n, v),
    ensures
        0 <= e < 81,
        box_of(e) == n,
        sol[e] == v + 1,
        e / 27 == y,
        box_rows3(s, n, v)[(e / 9) % 3],
{
    assert(unit_has(sol, None, n, v + 1));
    let j = choose|j: int| 0 <= j < 9 && sol[unit_cell(None, n, j)] == v + 1;
    let e = box_cell(n, j);
    lemma_box_cell(n, j);
    let sl = box_cells(s, n);
    assert(sl[j] == s[e]);
    assert(cell_agrees(s[e], sol[e]));
    if s[e].value is Def {
        assert(def_among(sl, v));
    }
    lemma_coords(s, e);
    assert(cand_in_row(sl, v, e / 9));
    assert(3 * (n / 3) + (e / 9) % 3 == e / 9);
    e
}

/// Two cells of band `y` whose rows within the band are the same share a
/// row.
proof fn lemma_same_band_row(a: int, b: int, y: int)
    requires
        0 <= a < 81,
        0 <= b < 81,
        a / 27 == y,
        b / 27 == y,
        (a / 9) % 3 == (b / 9) % 3,
    ensures
        a / 9 == b / 9,
{
}

/// What a mark of the row pass rests on: two boxes `np` and `nq` of band
/// `y`, neither holding digit `v + 1` nor pinning it to a row, confine it
/// to the same two rows `pat`; cell `c` lies in the third box of the band,
/// on one of those rows.
proof fn lemma_row_mark_parts(s: Seq<Node>, v: int, y: int, c: int) -> (r: (int, int, Seq<bool>))
    requires
        0 <= v < 9,
        0 <= y < 3,
        0 <= c < 81,
        row_mark(s, v, y, c),
    ensures
        0 <= r.0 < 9,
        0 <= r.1 < 9,
        r.0 / 3 == y,
        r.1 / 3 == y,
        r.0 != r.1,
        !box_has(s, r.0, v),
        !box_has(s, r.1, v),
        box_rows3(s, r.0, v) == r.2,
        box_rows3(s, r.1, v) == r.2,
        r.2.len() == 3,
        count_true(r.2) == 2,
        c / 27 == y,
        box_of(c) != r.0,
        box_of(c) != r.1,
        r.2[(c / 9) % 3],
{
    reveal(row_mark);
    let g = row_group(s, v, y);
    lemma_pair_of(g);
    let (cc, pat) = pair_of(g)->Some_0;
    let (p, q) = choose|p: int, q: int|
        0 <= p < 3 && 0 <= q < 3 && p != q && p != cc && q != cc && g[p] == pat && g[q] == pat;
    let np = 3 * y + p;
    let nq = 3 * y + q;
    assert(box_row_free(s, np, v));
    assert(box_row_free(s, nq, v));
    assert(g[p] == box_rows3(s, np, v));
    assert(g[q] == box_rows3(s, nq, v));
    lemma_cell_box(c);
    assert(c / 27 == y);
    (np, nq, pat)
}

/// Two boxes `np` and `nq` of band `y` confine digit `v + 1` to the same two
/// rows `pat`: the solution's `v + 1` is on neither row in any other box of
/// the band.
proof fn lemma_band_pair_right(
    s: Seq<Node>,
    sol: Seq<u8>,
    v: int,
    y: int,
    np: int,
    nq: int,
    pat: Seq<bool>,
    c: int,
)
    requires
        cells_wf(s),
        is_solution(sol),
        agrees(s, sol),
        0 <= v < 9,
        0 <= y < 3,
        0 <= np < 9,
        0 <= nq < 9,
        np / 3 == y,
        nq / 3 == y,
        np != nq,
        !box_has(s, np, v),
        !box_has(s, nq, v),
        box_rows3(s, np, v) == pat,
        box_rows3(s, nq, v) == pat,
        pat.len() == 3,
        count_true(pat) == 2,
        0 <= c < 81,
        c / 27 == y,
        box_of(c) != np,
        box_of(c) != nq,
        pat[(c / 9) % 3],
    ensures
        sol[c] != v + 1,
{
    let ep = lemma_band_box_row(s, sol, v, y, np);
    let eq = lemma_band_box_row(s, sol, v, y, nq);
    if (ep / 9) % 3 == (eq / 9) % 3 {
        lemma_same_band_row(ep, eq, y);
        assert(peers(ep, eq));
    }
    lemma_two_of_three(pat, (ep / 9) % 3, (eq / 9) % 3, (c / 9) % 3);
    if (c / 9) % 3 == (ep / 9) % 3 {
        lemma_same_band_row(c, ep, y);
        assert(peers(c, ep));
    } else {
        lemma_same_band_row(c, eq, y);
        assert(peers(c, eq));
    }
}

/// The row pass of the quantum double step removes no digit that the
/// solution puts in its cell.
proof fn lemma_row_mark_right(s: Seq<Node>, sol: Seq<u8>, v: int, y: int, c: int)
    requires
        cells_wf(s),
        is_solution(sol),
        agrees(s, sol),
        0 <= v < 9,
        0 <= y < 3,
        0 <= c < 81,
        row_mark(s, v, y, c),
    ensures
        sol[c] != v + 1,
{
    let (np, nq, pat) = lemma_row_mark_parts(s, v, y, c);
    lemma_band_pair_right(s, sol, v, y, np, nq, pat, c);
}

/// In a box of stack `x` that does not hold digit `v + 1`, the solution's
/// `v + 1` is on a column of the box's pattern for `v + 1`.
proof fn lemma_stack_box_col(s: Seq<Node>, sol: Seq<u8>, v: int, x: int, n: int) -> (e: int)
    requires
        cells_wf(s),
        is_solution(sol),
        agrees(s, sol),
        0 <= v < 9,
        0 <= x < 3,
        n % 3 == x,
        0 <= n < 9,
        !box_has(s, n, v),
    ensures
        0 <= e < 81,
        box_of(e) == n,
        sol[e] == v + 1,
        (e % 9) / 3 == x,
        box_cols3(s, n, v)[(e % 9) % 3],
{
    assert(unit_has(sol, None, n, v + 1));
    let j = choose|j: int| 0 <= j < 9 && sol[unit_cell(None, n, j)] == v + 1;
    let e = box_cell(n, j);
    lemma_box_cell(n, j);
    let sl = box_cells(s, n);
    assert(sl[j] == s[e]);
    assert(cell_agrees(s[e], sol[e]));
    if s[e].value is Def {
        assert(def_among(sl, v));
    }
    lemma_coords(s, e);
    assert(cand_in_col(sl, v, e % 9));
    assert(3 * (n % 3) + (e % 9) % 3 == e % 9);
    e
}

/// Two cells of stack `x` whose columns within the stack are the same share
/// a column.
proof fn lemma_same_stack_col(a: int, b: int, x: int)
    requires
        0 <= a < 81,
        0 <= b < 81,
        (a % 9) / 3 == x,
        (b % 9) / 3 == x,
        (a % 9) % 3 == (b % 9) % 3,
    ensures
        a % 9 == b % 9,
{
}

/// Two boxes `np` and `nq` of stack `x` confine digit `v + 1` to the same
/// two columns `pat`: the solution's `v + 1` is in neither column in any
/// other box of the stack.
proof fn lemma_stack_pair_right(
    s: Seq<Node>,
    sol: Seq<u8>,
    v: int,
    x: int,
    np: int,
    nq: int,
    pat: Seq<bool>,
    c: int,
)
    requires
        cells_wf(s),
        is_solution(sol),
        agrees(s, sol),
        0 <= v < 9,
        0 <= x < 3,
        0 <= np < 9,
        0 <= nq < 9,
        np % 3 == x,
        nq % 3 == x,
        np != nq,
        !box_has(s, np, v),
        !box_has(s, nq, v),
        box_cols3(s, np, v) == pat,
        box_cols3(s, nq, v) == pat,
        pat.len() == 3,
        count_true(pat) == 2,
        0 <= c < 81,
        (c % 9) / 3 == x,
        box_of(c) != np,
        box_of(c) != nq,
        pat[(c % 9) % 3],
    ensures
        sol[c] != v + 1,
{
    let ep = lemma_stack_box_col(s, sol, v, x, np);
    let eq = lemma_stack_box_col(s, sol, v, x, nq);
    if (ep % 9) % 3 == (eq % 9) % 3 {
        lemma_same_stack_col(ep, eq, x);
        assert(peers(ep, eq));
    }
    lemma_two_of_three(pat, (ep % 9) % 3, (eq % 9) % 3, (c % 9) % 3);
    if (c % 9) % 3 == (ep % 9) % 3 {
        lemma_same_stack_col(c, ep, x);
        assert(peers(c, ep));
    } else {
        lemma_same_stack_col(c, eq, x);
        assert(peers(c, eq));
    }
}

/// What a mark of the column pass rests on: two boxes `np` and `nq` of
/// stack `x`, neither holding digit `v + 1` nor pinning it to a column,
/// confine it to the same two columns `pat`; cell `c` lies in the third box
/// of the stack, on one of those columns.
proof fn lemma_col_mark_parts(s: Seq<Node>, v: int, x: int, c: int) -> (r: (int, int, Seq<bool>))
    requires
        0 <= v < 9,
        0 <= x < 3,
        0 <= c < 81,
        col_mark(s, v, x, c),
    ensures
        0 <= r.0 < 9,
        0 <= r.1 < 9,
        r.0 % 3 == x,
        r.1 % 3 == x,
        r.0 != r.1,
        !box_has(s, r.0, v),
        !box_has(s, r.1, v),
        box_cols3(s, r.0, v) == r.2,
        box_cols3(s, r.1, v) == r.2,
        r.2.len() == 3,
        count_true(r.2) == 2,
        (c % 9) / 3 == x,
        box_of(c) != r.0,
        box_of(c) != r.1,
        r.2[(c % 9) % 3],
{
    let g = col_group(s, v, x);
    assert(qd_col_free(s, v, x));
    lemma_pair_of(g);
    let (cc, pat) = pair_of(g)->Some_0;
    let (p, q) = choose|p: int, q: int|
        0 <= p < 3 && 0 <= q < 3 && p != q && p != cc && q != cc && g[p] == pat && g[q] == pat;
    let np = x + 3 * p;
    let nq = x + 3 * q;
    assert(box_col_free(s, np, v));
    assert(box_col_free(s, nq, v));
    assert(g[p] == box_cols3(s, np, v));
    assert(g[q] == box_cols3(s, nq, v));
    assert(box_of(c) == 3 * cc + x && pat[(c % 9) % 3]);
    assert((c % 9) / 3 == x);
    (np, nq, pat)
}

/// The column pass of the quantum double step removes no digit that the
/// solution puts in its cell.
proof fn lemma_col_mark_right(s: Seq<Node>, sol: Seq<u8>, v: int, x: int, c: int)
    requires
        cells_wf(s),
        is_solution(sol),
        agrees(s, sol),
        0 <= v < 9,
        0 <= x < 3,
        0 <= c < 81,
        col_mark(s, v, x, c),
    ensures
        sol[c] != v + 1,
{
    let (np, nq, pat) = lemma_col_mark_parts(s, v, x, c);
    lemma_stack_pair_right(s, sol, v, x, np, nq, pat, c);
}

/// The quantum double step on cells that agree with a solution finds no
/// contradiction, and its cells still agree with the solution.
pub proof fn lemma_quantum_double_sound(s: Seq<Node>, sol: Seq<u8>)
    requires
        cells_wf(s),
        is_solution(sol),
        agrees(s, sol),
    ensures
        keeps(quantum_double_spec(s), sol),
{
    broadcast use lemma_arr9;

    assert forall|c: int| 0 <= c < 81 && #[trigger] s[c].value is Pos implies !qd_marked(s, c, sol[c] - 1) by {
        let v = sol[c] - 1;
        assert forall|y: int| 0 <= y < 3 implies !#[trigger] group_marks(s, v, y, c) by {
            if row_mark(s, v, y, c) {
                lemma_row_mark_right(s, sol, v, y, c);
            }
            if col_mark(s, v, y, c) {
                lemma_col_mark_right(s, sol, v, y, c);
            }
        }
        assert(!group_marks(s, v, 0, c));
        assert(!group_marks(s, v, 1, c));
        assert(!group_marks(s, v, 2, c));
    }
    assert forall|c: int| 0 <= c < 81 && s[c].value is Pos implies #[trigger] qd_new(s, c)[sol[c] - 1] by {
        assert(cell_agrees(s[c], sol[c]));
    }
    if let Some((t, cs)) = quantum_double_spec(s) {
        assert forall|c: int| 0 <= c < 81 implies #[trigger] cell_agrees(t[c], sol[c]) by {
            assert(cell_agrees(s[c], sol[c]));
            if s[c].value is Pos {
                assert(qd_new(s, c)[sol[c] - 1]);
            }
        }
    } else {
        let c = choose|c: int| 0 <= c < 81 && qd_changed(s, c) && none_possible(#[trigger] qd_new(s, c));
        assert(qd_new(s, c)[sol[c] - 1]);
    }
}

// ---------------------------------------------------------------------------
// Groups
// ---------------------------------------------------------------------------
/// The positions of the set flags.
pub open spec fn flag_set(s: Seq<bool>) -> Set<int> {
    Set::new(|i: int| 0 <= i < s.len() && s[i])
}

proof fn lemma_flag_set(s: Seq<bool>)
    ensures
        flag_set(s).finite(),
        flag_set(s).len() == count_true(s),
    decreases s.len(),
{
    if s.len() > 0 {
        let s1 = s.drop_last();
        lemma_flag_set(s1);
        if s.last() {
            assert(flag_set(s) =~= flag_set(s1).insert(s.len() - 1));
        } else {
            assert(flag_set(s) =~= flag_set(s1));
        }
    } else {
        assert(flag_set(s) =~= Set::<int>::empty());
    }
}

/// A one-to-one map from the set flags of `a` to set flags of `b` that
/// misses the set flag `j` of `b` shows that `a` has fewer flags set.
proof fn lemma_injection_count(a: Seq<bool>, b: Seq<bool>, f: spec_fn(int) -> int, j: int)
    requires
        0 <= j < b.len(),
        b[j],
        forall|v: int| 0 <= v < a.len() && a[v] ==> 0 <= #[trigger] f(v) < b.len() && b[f(v)] && f(v) != j,
        forall|v1: int, v2: int|
            0 <= v1 < a.len() && 0 <= v2 < a.len() && a[v1] && a[v2] && #[trigger] f(v1) == #[trigger] f(v2)
                ==> v1 == v2,
    ensures
        count_true(a) < count_true(b),
{
    lemma_flag_set(a);
    lemma_flag_set(b);
    let sa = flag_set(a);
    let img = sa.map(f);
    assert(vstd::relations::injective_on(f, sa));
    vstd::set_lib::lemma_map_size(sa, img, f);
    let sb = flag_set(b).remove(j);
    assert forall|r: int| img.contains(r) implies sb.contains(r) by {
        let v = choose|v: int| sa.contains(v) && f(v) == r;
    }
    vstd::set_lib::lemma_len_subset(img, sb);
}

/// Every digit taken by the branch has a set, all of whose places the
/// branch's places hold.
pub open spec fn branch_holds(m: Seq<Option<Seq<bool>>>, br: (Seq<bool>, Seq<bool>)) -> bool {
    &&& br.0.len() == 9
    &&& br.1.len() == 9
    &&& forall|v: int|
        0 <= v < 9 && #[trigger] br.0[v] ==> m[v] is Some && forall|r: int|
            0 <= r < 9 && m[v]->Some_0[r] ==> br.1[r]
}

pub open spec fn level_holds(m: Seq<Option<Seq<bool>>>, bs: Seq<(Seq<bool>, Seq<bool>)>) -> bool {
    forall|k: int| 0 <= k < bs.len() ==> branch_holds(m, #[trigger] bs[k])
}

proof fn lemma_children_hold(m: Seq<Option<Seq<bool>>>, br: (Seq<bool>, Seq<bool>), n: int)
    requires
        branch_holds(m, br),
        n <= 9,
    ensures
        level_holds(m, collect(n, fg_child(m, br))),
    decreases n,
{
    if n > 0 {
        lemma_children_hold(m, br, n - 1);
        let a = collect(n - 1, fg_child(m, br));
        let b = opt_seq(fg_child(m, br)(n - 1));
        assert forall|k: int| 0 <= k < (a + b).len() implies branch_holds(m, #[trigger] (a + b)[k]) by {
            if k < a.len() {
                assert((a + b)[k] == a[k]);
            } else {
                let ch = (a + b)[k];
                assert(ch == (br.0.update(n - 1, true), or_bits(br.1, m[n - 1]->Some_0)));
                assert forall|v: int| 0 <= v < 9 && #[trigger] ch.0[v] implies m[v] is Some && forall|r: int|
                    0 <= r < 9 && m[v]->Some_0[r] ==> ch.1[r] by {
                    if v != n - 1 {
                        assert(br.0[v]);
                    }
                }
            }
        }
    }
}

proof fn lemma_expand_hold(m: Seq<Option<Seq<bool>>>, bs: Seq<(Seq<bool>, Seq<bool>)>)
    requires
        level_holds(m, bs),
    ensures
        level_holds(m, fg_expand(m, bs)),
    decreases bs.len(),
{
    if bs.len() > 0 {
        assert(level_holds(m, bs.drop_last())) by {
            assert forall|k: int| 0 <= k < bs.drop_last().len() implies branch_holds(m, #[trigger] bs.drop_last()[k]) by {
                assert(bs.drop_last()[k] == bs[k]);
            }
        }
        lemma_expand_hold(m, bs.drop_last());
        assert(bs.last() == bs[bs.len() - 1]);
        lemma_children_hold(m, bs.last(), 9);
        let a = fg_children(m, bs.last());
        let b = fg_expand(m, bs.drop_last());
        assert forall|k: int| 0 <= k < (a + b).len() implies branch_holds(m, #[trigger] (a + b)[k]) by {
            if k < a.len() {
                assert((a + b)[k] == a[k]);
            } else {
                assert((a + b)[k] == b[k - a.len()]);
            }
        }
    }
}

proof fn lemma_level_hold(m: Seq<Option<Seq<bool>>>, d: nat)
    ensures
        level_holds(m, fg_level(m, d)),
    decreases d,
{
    if d == 0 {
        assert(fg_level(m, 0)[0] == empty_branch());
    } else {
        lemma_level_hold(m, (d - 1) as nat);
        lemma_expand_hold(m, fg_level(m, (d - 1) as nat));
    }
}

proof fn lemma_search_goal(bs: Seq<(Seq<bool>, Seq<bool>)>)
    ensures
        fg_search(bs) matches Some(g) ==> fg_goal(g) && exists|k: int| 0 <= k < bs.len() && bs[k] == g,
    decreases bs.len(),
{
    if bs.len() > 0 {
        lemma_search_goal(bs.drop_last());
        if fg_search(bs) is Some && !fg_goal(bs.last()) {
            let k = choose|k: int| 0 <= k < bs.drop_last().len() && bs.drop_last()[k] == fg_search(bs)->Some_0;
            assert(bs[k] == bs.drop_last()[k]);
        }
        if fg_goal(bs.last()) {
            assert(bs[bs.len() - 1] == bs.last());
        }
    }
}

proof fn lemma_from_holds(m: Seq<Option<Seq<bool>>>, md: int, d: int, cap: int)
    ensures
        fg_from(m, md, d, cap) matches Some(g) ==> fg_goal(g) && branch_holds(m, g),
    decreases cap - d,
{
    if d >= cap - 1 || d < 0 {
    } else if d >= md && fg_search(fg_level(m, d as nat)) is Some {
        lemma_search_goal(fg_level(m, d as nat));
        lemma_level_hold(m, d as nat);
        let lv = fg_level(m, d as nat);
        let g = fg_search(lv)->Some_0;
        let k = choose|k: int| 0 <= k < lv.len() && lv[k] == g;
        assert(branch_holds(m, lv[k]));
    } else {
        lemma_from_holds(m, md, d + 1, cap);
    }
}

/// A group found by the search has as many digits as places, and holds all
/// the places of each of its digits.
pub proof fn lemma_group_holds(m: Seq<Option<Seq<bool>>>, md: int)
    ensures
        find_group_spec(m, md) matches Some(g) ==> fg_goal(g) && branch_holds(m, g),
{
    reveal(find_group_spec);
    lemma_from_holds(m, md, 0, crate::utils::count_some(m) as int);
}

/// In a unit of cells that agree with a solution, where the units of the
/// kind are settled, each place of a group found by the search has its
/// solution digit among the group's digits.
proof fn lemma_group_right(
    s: Seq<Node>,
    sol: Seq<u8>,
    how: Option<bool>,
    i: int,
    md: int,
    j: int,
)
    requires
        cells_wf(s),
        is_solution(sol),
        agrees(s, sol),
        unit_settled(s, how),
        0 <= i < 9,
        0 <= j < 9,
        find_group_spec(slice_mapping(unit_nodes(s, how, i)), md) matches Some(g) && g.1[j],
    ensures
        find_group_spec(slice_mapping(unit_nodes(s, how, i)), md)->Some_0.0[sol[unit_cell(how, i, j)] - 1],
{
    let sl = unit_nodes(s, how, i);
    let m = slice_mapping(sl);
    let g = find_group_spec(m, md)->Some_0;
    let (t, ft) = g;
    lemma_group_holds(m, md);
    lemma_unit_geometry(how);
    let cj = unit_cell(how, i, j);
    let w = sol[cj] - 1;
    if !t[w] {
        let f = |v: int| choose|je: int| 0 <= je < 9 && sol[unit_cell(how, i, je)] == v + 1;
        assert forall|v: int| 0 <= v < t.len() && t[v] implies 0 <= #[trigger] f(v) < ft.len() && ft[f(v)] && f(v) != j by {
            assert(unit_has(sol, how, i, v + 1));
            let je = f(v);
            let e = unit_cell(how, i, je);
            assert(m[v] is Some);
            assert(count_true(slice_places(sl, v)) != 0);
            crate::utils::lemma_count_true_zero(slice_places(sl, v));
            let r = choose|r: int| 0 <= r < 9 && slice_places(sl, v)[r];
            let cr = unit_cell(how, i, r);
            assert(sl[r] == s[cr]);
            assert(cell_agrees(s[e], sol[e]));
            if s[e].value is Def {
                if r != je {
                    assert(unit_pos(how, cr) != unit_pos(how, e));
                    assert(unit_of(how, cr) == unit_of(how, e));
                }
            }
            assert(sl[je] == s[e]);
            assert(slice_places(sl, v)[je]);
            assert(m[v]->Some_0[je]);
        }
        assert forall|v1: int, v2: int|
            0 <= v1 < t.len() && 0 <= v2 < t.len() && t[v1] && t[v2] && #[trigger] f(v1) == #[trigger] f(v2)
                implies v1 == v2 by {
            assert(unit_has(sol, how, i, v1 + 1));
            assert(unit_has(sol, how, i, v2 + 1));
        }
        lemma_injection_count(t, ft, f, j);
    }
}

/// The group search of one kind on cells that agree with a solution, and
/// whose units of that kind are settled, finds no contradiction, and its
/// cells still agree with the solution.
pub proof fn lemma_find_groups_sound(s: Seq<Node>, sol: Seq<u8>, how: Option<bool>)
    requires
        cells_wf(s),
        is_solution(sol),
        agrees(s, sol),
        unit_settled(s, how),
    ensures
        keeps(find_groups_spec(s, how), sol),
{
    broadcast use lemma_arr9;

    lemma_unit_geometry(how);
    assert forall|c: int| 0 <= c < 81 implies #[trigger] cell_agrees(fgs_node(s, how, c), sol[c]) by {
        let i = unit_of(how, c);
        let j = unit_pos(how, c);
        let d = unit_depth(s, how, i, 2);
        assert(cell_agrees(s[c], sol[c]));
        if d < 9 {
            if let Some(g) = find_group_spec(slice_mapping(unit_nodes(s, how, i)), d) {
                lemma_grp_change_at(s, how, i, d, j, g.0, g.1);
                if g.1[j] {
                    lemma_group_right(s, sol, how, i, d, j);
                }
                assert(unit_nodes(s, how, i)[j] == s[c]);
            } else {
                lemma_grp_change_none(s, how, i, d);
            }
        }
    }
    assert forall|c: int| 0 <= c < 81 implies !#[trigger] group_fails(s, how, c) by {
        assert(cell_agrees(fgs_node(s, how, c), sol[c]));
    }
}

/// The group search over boxes, rows and columns on settled cells that
/// agree with a solution finds no contradiction, and its cells still agree
/// with the solution.
pub proof fn lemma_find_all_groups_sound(s: Seq<Node>, sol: Seq<u8>)
    requires
        cells_wf(s),
        is_solution(sol),
        agrees(s, sol),
        settled(s),
    ensures
        keeps(find_all_groups_spec(s), sol),
{
    lemma_settled_units(s, None);
    lemma_settled_units(s, Some(true));
    lemma_settled_units(s, Some(false));
    lemma_find_groups_sound(s, sol, None);
    lemma_find_groups_sound(s, sol, Some(true));
    lemma_find_groups_sound(s, sol, Some(false));
    let (t1, c1) = find_groups_spec(s, None)->Some_0;
    if c1.len() == 0 {
        lemma_groups_idle(s, None);
        let (t2, c2) = find_groups_spec(s, Some(true))->Some_0;
        if c2.len() == 0 {
            lemma_groups_idle(s, Some(true));
        }
    }
}

// ---------------------------------------------------------------------------
// A round of processing
// ---------------------------------------------------------------------------
/// Where tier one changes nothing, the cells are settled and left as they
/// were.
pub proof fn lemma_tier_one_idle(s: Seq<Node>)
    requires
        cells_wf(s),
        tier_one_spec(s) matches Some((t, cs)) && cs.len() == 0,
    ensures
        settled(s),
        tier_one_spec(s)->Some_0.0 == s,
{
    let (t1, c1) = direct_elimination_spec(s)->Some_0;
    let (t2, c2) = box_elimination_spec(t1)->Some_0;
    let (t3, c3) = depossibilize_spec(t2);
    assert((c1 + c2 + c3).len() == 0);
    lemma_direct_elimination_progress(s);
    lemma_box_elimination_progress(t1);
    lemma_depossibilize_progress(t2);
    assert(t1 == s && t2 == s && t3 == s);
    crate::disclusion::lemma_collect_empty(81, crate::solver::de_change(s));
    crate::disclusion::lemma_collect_empty(81, crate::solver::be_change(s));
    assert forall|a: int, b: int|
        0 <= a < 81 && 0 <= b < 81 && #[trigger] peers(a, b) && s[a].value is Pos && s[b].value is Def implies !s[a].value->Pos_0[s[b].value->Def_0 - 1] by {
        let d = s[b].value->Def_0;
        let k = d - 1;
        lemma_coords(s, a);
        lemma_coords(s, b);
        if s[a].value->Pos_0[k] {
            assert(crate::solver::de_change(s)(a) is None);
            if a / 9 == b / 9 {
                assert(crate::board_utils::def_in_row(s, k, s[a].y - 1));
                assert(de_hit(s, a, k));
            } else if a % 9 == b % 9 {
                assert(crate::board_utils::def_in_col(s, k, s[a].x - 1));
                assert(de_hit(s, a, k));
            } else {
                lemma_cell_box(a);
                lemma_cell_box(b);
                let ba = box_of(a);
                let u = 9 * ba + box_pos(a);
                assert(u / 9 == ba && u % 9 == box_pos(a));
                assert(crate::solver::be_change(s)(u) is None);
                assert(box_cells(s, ba)[box_pos(b)] == s[b]);
                assert(box_has(s, ba, k));
                assert(crate::solver::be_changed(s, a));
            }
        }
    }
}

/// Tier one on cells that agree with a solution finds no contradiction,
/// and its cells still agree with the solution.
pub proof fn lemma_tier_one_sound(s: Seq<Node>, sol: Seq<u8>)
    requires
        cells_wf(s),
        is_solution(sol),
        agrees(s, sol),
    ensures
        keeps(tier_one_spec(s), sol),
{
    lemma_direct_elimination_sound(s, sol);
    lemma_direct_elimination_progress(s);
    let (t1, c1) = direct_elimination_spec(s)->Some_0;
    lemma_narrows_wf(s, t1);
    lemma_box_elimination_sound(t1, sol);
    let (t2, c2) = box_elimination_spec(t1)->Some_0;
    lemma_depossibilize_sound(t2, sol);
}

/// The quantum tiers on settled cells that agree with a solution: no
/// contradiction, and cells that still agree with the solution.
#[verifier::spinoff_prover]
proof fn lemma_quantum_tiers_sound(s: Seq<Node>, sol: Seq<u8>)
    requires
        cells_wf(s),
        is_solution(sol),
        agrees(s, sol),
        settled(s),
    ensures
        keeps(quantum_tiers_spec(s), sol),
{
    lemma_settled_units(s, None);
    lemma_final_quantum_sound(s, sol);
    lemma_final_quantum_progress(s);
    let (v, cv) = final_quantum_spec(s)->Some_0;
    if cv.len() == 0 {
        assert(v == s);
        lemma_quantum_double_sound(s, sol);
    }
}

/// The group tiers on settled cells that agree with a solution: no
/// contradiction, and cells that still agree with the solution.
#[verifier::spinoff_prover]
proof fn lemma_group_tiers_sound(s: Seq<Node>, sol: Seq<u8>)
    requires
        cells_wf(s),
        is_solution(sol),
        agrees(s, sol),
        settled(s),
    ensures
        keeps(group_tiers_spec(s), sol),
{
    lemma_find_all_groups_sound(s, sol);
    lemma_find_all_groups_progress(s);
    let (u, cu) = find_all_groups_spec(s)->Some_0;
    if cu.len() == 0 {
        assert(u == s);
        lemma_quantum_tiers_sound(s, sol);
    }
}

/// The tiers from the solos on, on settled cells that agree with a
/// solution: no clash, no contradiction, and cells that still agree with
/// the solution.
#[verifier::spinoff_prover]
proof fn lemma_later_tiers_sound(s: Seq<Node>, sol: Seq<u8>)
    requires
        cells_wf(s),
        is_solution(sol),
        agrees(s, sol),
        settled(s),
    ensures
        !(apply_changes(s, solo_changes(s)) is Invalid),
        keeps(later_tiers_spec(s), sol),
{
    lemma_solos_sound(s, sol);
    let cs = solo_changes(s);
    if cs.len() == 0 {
        assert(apply_changes(s, cs) == Outcome::Board(s));
        assert(solos_spec(s) == Some((s, cs)));
        lemma_group_tiers_sound(s, sol);
        assert(later_tiers_spec(s) == group_tiers_spec(s));
    } else {
        let t = apply_changes(s, cs)->Board_0;
        assert(solos_spec(s) == Some((t, cs)));
        assert(later_tiers_spec(s) == Some((t, cs)));
    }
}

/// On cells that agree with a solution, a round of processing meets no
/// clash, finds no contradiction, and gives cells that still agree with the
/// solution: it removes only candidates that no solution uses, and it fails
/// only on cells that no solution agrees with.
#[verifier::spinoff_prover]
pub proof fn lemma_full_processing_sound(s: Seq<Node>, sol: Seq<u8>)
    requires
        cells_wf(s),
        is_solution(sol),
        agrees(s, sol),
    ensures
        full_processing_safe(s),
        keeps(full_processing_spec(s), sol),
{
    lemma_tier_one_sound(s, sol);
    let (t, cs) = tier_one_spec(s)->Some_0;
    if cs.len() == 0 {
        lemma_tier_one_idle(s);
        lemma_later_tiers_sound(s, sol);
    }
}

/// Cells narrowed from others agree with a solution only where the others
/// do.
pub proof fn lemma_narrows_agrees(s: Seq<Node>, t: Seq<Node>, sol: Seq<u8>)
    requires
        s.len() == 81,
        is_solution(sol),
        narrows_all(s, t),
        agrees(t, sol),
    ensures
        agrees(s, sol),
{
    assert forall|c: int| 0 <= c < 81 implies #[trigger] cell_agrees(s[c], sol[c]) by {
        assert(cell_agrees(t[c], sol[c]));
        assert(crate::progress::narrows(s[c], t[c]));
        assert(is_digit(sol[c]));
    }
}

/// A round of processing keeps exactly the solutions: where it gives cells,
/// they agree with a solution exactly when the board does; where it fails,
/// no solution agrees with the board.
pub proof fn lemma_full_processing_keeps_solutions(s: Seq<Node>, sol: Seq<u8>)
    requires
        cells_wf(s),
        is_solution(sol),
    ensures
        full_processing_spec(s) is None ==> !agrees(s, sol),
        full_processing_spec(s) matches Some((t, _cs)) ==> (agrees(s, sol) <==> agrees(t, sol)),
{
    if agrees(s, sol) {
        lemma_full_processing_sound(s, sol);
    }
    lemma_full_processing_progress(s);
    if let Some((t, _cs)) = full_processing_spec(s) {
        if agrees(t, sol) {
            lemma_narrows_agrees(s, t, sol);
        }
    }
}

/// The quantum double step keeps exactly the solutions: where it gives
/// cells, they agree with a solution exactly when the board does; where it
/// fails, no solution agrees with the board.
pub proof fn lemma_quantum_double_keeps_solutions(s: Seq<Node>, sol: Seq<u8>)
    requires
        cells_wf(s),
        is_solution(sol),
    ensures
        quantum_double_spec(s) is None ==> !agrees(s, sol),
        quantum_double_spec(s) matches Some((t, _cs)) ==> (agrees(s, sol) <==> agrees(t, sol)),
{
    if agrees(s, sol) {
        lemma_quantum_double_sound(s, sol);
    }
    lemma_quantum_double_progress(s);
    if let Some((t, _cs)) = quantum_double_spec(s) {
        if agrees(t, sol) {
            lemma_narrows_agrees(s, t, sol);
        }
    }
}

} // verus!
