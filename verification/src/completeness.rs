use vstd::prelude::*;

use crate::board_utils::box_of;
use crate::disclusion::{
    lemma_unit_geometry, unit_cell, unit_of, unit_pos,
};
use crate::disclusion::{
    find_all_groups_spec, find_group_spec, find_groups_spec, groups_changes_upto, groups_idle, grp_change,
    grp_changes, grp_new, lemma_groups_idle, lemma_grp_change_at, slice_mapping, unit_changes, unit_depth,
    unit_nodes,
};
use crate::process::{
    SearchOutcome, full_processing_safe, full_processing_spec, group_tiers_spec, later_tiers_spec,
    lemma_full_processing_progress, lemma_full_processing_shrinks, lemma_tier_one_progress,
    quantum_tiers_spec, settle, solos_spec, solved, tier_one_spec,
};
use crate::process::{
    candidates_left, first_untried, hypothesis, lemma_first_untried_open, lemma_untried_shrinks, search, trial,
    untried, untried_count,
};
use crate::utils::set_value;
use crate::progress::{
    lemma_final_quantum_progress, lemma_find_all_groups_progress, lemma_narrows_trans, narrows,
    narrows_all,
};
use crate::quantum_utils::{
    box_col_free, box_cols3, box_row_free, box_rows3, col_mark, final_quantum_spec, group_marks,
    pair_of, qd_col_free, qd_marked, qd_new, qd_row_free, quantum_double_spec, row_mark,
};
use crate::solos::{
    box_refs, cand_at, col_refs, places, row_refs, solo_change, solo_changes, solo_changes_upto, solo_upto,
    unit_solos,
};
use crate::progress::lemma_solo_upto_some;
use crate::utils::Reference;
use crate::utils::{Change, Node, Outcome, Value, apply_changes, cell_wf, collect, count_true, lemma_arr9};
use crate::board_utils::{box_cell, box_cells, box_pos, lemma_cell_box};
use crate::solver::{
    box_elimination_spec, de_changed, de_hit, de_new, depossibilize_spec, direct_elimination_spec, be_changed,
    be_new, box_has,
};
use crate::quantum_utils::{box_col_cert, box_row_cert, fq_changed, fq_hit, fq_new};
use crate::progress::{
    cells_wf, lemma_box_elimination_progress, lemma_direct_elimination_progress, lemma_narrows_wf,
};

verus! {

// ---------------------------------------------------------------------------
// Group searches
// ---------------------------------------------------------------------------
/// The group searches over boxes, rows and columns change nothing together
/// only where each of them changes nothing.
pub proof fn lemma_all_groups_idle(s: Seq<Node>)
    requires
        s.len() == 81,
        find_all_groups_spec(s) matches Some((_t, cs)) && cs.len() == 0,
    ensures
        groups_idle(s, None),
        groups_idle(s, Some(true)),
        groups_idle(s, Some(false)),
{
    let (t1, c1) = find_groups_spec(s, None)->Some_0;
    assert(c1.len() == 0);
    lemma_groups_idle(s, None);
    let (t2, c2) = find_groups_spec(s, Some(true))->Some_0;
    assert((c1 + c2).len() == c2.len());
    assert(c2.len() == 0);
    lemma_groups_idle(s, Some(true));
    let (t3, c3) = find_groups_spec(s, Some(false))->Some_0;
    assert((c1 + c2 + c3).len() == c3.len());
}

/// Where the searches over boxes and over rows change nothing, the search
/// over all units gives what the search over columns gives.
pub proof fn lemma_groups_fall_through(s: Seq<Node>)
    requires
        s.len() == 81,
        groups_idle(s, None),
        groups_idle(s, Some(true)),
    ensures
        find_all_groups_spec(s) == find_groups_spec(s, Some(false)),
{
    lemma_groups_idle(s, None);
    lemma_groups_idle(s, Some(true));
    if let Some((t3, c3)) = find_groups_spec(s, Some(false)) {
        let e = Seq::<Change>::empty();
        assert(e + e + c3 =~= c3);
    }
}

// ---------------------------------------------------------------------------
// Rounds of processing
// ---------------------------------------------------------------------------
/// Where tier one, the solos, the groups and the final quantum step all
/// change nothing, a round of processing gives what the quantum double
/// step gives.
pub proof fn lemma_round_falls_through(s: Seq<Node>)
    requires
        s.len() == 81,
        tier_one_spec(s) matches Some((_t, cs)) && cs.len() == 0,
        solo_changes(s).len() == 0,
        find_all_groups_spec(s) matches Some((_u, cs)) && cs.len() == 0,
        final_quantum_spec(s) matches Some((_w, cs)) && cs.len() == 0,
    ensures
        full_processing_spec(s) == quantum_double_spec(s),
{
    lemma_tier_one_progress(s);
    lemma_find_all_groups_progress(s);
    lemma_final_quantum_progress(s);
    assert(apply_changes(s, solo_changes(s)) == Outcome::Board(s));
    assert(solos_spec(s) == Some((s, solo_changes(s))));
    assert(quantum_tiers_spec(s) == quantum_double_spec(s));
    assert(group_tiers_spec(s) == quantum_double_spec(s));
    assert(later_tiers_spec(s) == quantum_double_spec(s));
}

/// A round of processing changes nothing only where every tier changes
/// nothing: tier one, the solos, the group searches over boxes, rows and
/// columns, the final quantum step and the quantum double step.
pub proof fn lemma_round_idle(s: Seq<Node>)
    requires
        s.len() == 81,
        full_processing_spec(s) matches Some((_t, cs)) && cs.len() == 0,
    ensures
        full_processing_spec(s) == Some((s, Seq::<Change>::empty())),
        tier_one_spec(s) == Some((s, Seq::<Change>::empty())),
        solo_changes(s).len() == 0,
        groups_idle(s, None),
        groups_idle(s, Some(true)),
        groups_idle(s, Some(false)),
        final_quantum_spec(s) matches Some((_u, cs)) && cs.len() == 0,
        quantum_double_spec(s) matches Some((_u, cs)) && cs.len() == 0,
{
    lemma_full_processing_progress(s);
    lemma_tier_one_progress(s);
    let (t1, c1) = tier_one_spec(s)->Some_0;
    assert(c1.len() == 0);
    assert(t1 == s);
    assert(c1 =~= Seq::<Change>::empty());
    let (t2, c2) = solos_spec(s)->Some_0;
    assert(c2 == solo_changes(s));
    assert(c2.len() == 0);
    assert(apply_changes(s, solo_changes(s)) == Outcome::Board(s));
    assert(t2 == s);
    lemma_find_all_groups_progress(s);
    let (t3, c3) = find_all_groups_spec(s)->Some_0;
    assert(c3.len() == 0);
    assert(t3 == s);
    lemma_all_groups_idle(s);
    lemma_final_quantum_progress(s);
    let (t4, c4) = final_quantum_spec(s)->Some_0;
    assert(c4.len() == 0);
    assert(t4 == s);
    assert(full_processing_spec(s) == quantum_double_spec(s));
    let (t, cs) = full_processing_spec(s)->Some_0;
    assert(cs =~= Seq::<Change>::empty());
}

// ---------------------------------------------------------------------------
// Settling a board
// ---------------------------------------------------------------------------
/// A round that changes something, without solving the board, is followed
/// by settling its result.
pub proof fn lemma_settle_continues(s: Seq<Node>)
    requires
        s.len() == 81,
        full_processing_safe(s),
        full_processing_spec(s) matches Some((t, cs)) && cs.len() > 0 && !solved(t),
    ensures
        settle(s) == settle(full_processing_spec(s)->Some_0.0),
{
    lemma_full_processing_progress(s);
    lemma_full_processing_shrinks(s);
}

/// Settling stalls only at a board, narrowed from the first, on which a
/// round changes nothing and leaves the board unsolved.
pub proof fn lemma_settle_stalls_when_idle(s: Seq<Node>)
    requires
        s.len() == 81,
        settle(s) is Stalled,
    ensures
        exists|u: Seq<Node>|
            #[trigger] narrows_all(s, u) && u.len() == 81 && full_processing_safe(u) && (full_processing_spec(
                u,
            ) matches Some((v, cs)) && cs.len() == 0 && !solved(v)),
    decreases candidates_left(s),
{
    lemma_full_processing_progress(s);
    let (t, cs) = full_processing_spec(s)->Some_0;
    if cs.len() == 0 {
        assert forall|c: int| 0 <= c < s.len() implies narrows(#[trigger] s[c], s[c]) by {}
        assert(narrows_all(s, s));
    } else {
        lemma_full_processing_shrinks(s);
        lemma_settle_continues(s);
        lemma_settle_stalls_when_idle(t);
        let u = choose|u: Seq<Node>|
            #[trigger] narrows_all(t, u) && u.len() == 81 && full_processing_safe(u) && (full_processing_spec(
                u,
            ) matches Some((v, cs)) && cs.len() == 0 && !solved(v));
        lemma_narrows_trans(s, t, u);
    }
}

// ---------------------------------------------------------------------------
// Quantum double
// ---------------------------------------------------------------------------
/// Among three patterns, two equal ones with two flags set are always
/// found; where the third differs, it is the box that loses the digit.
pub proof fn lemma_pair_of_finds(g: Seq<Seq<bool>>, p: int, q: int)
    requires
        g.len() == 3,
        0 <= p < 3,
        0 <= q < 3,
        p != q,
        count_true(g[p]) == 2,
        g[p] == g[q],
    ensures
        pair_of(g) is Some,
        g[3 - p - q] != g[p] ==> pair_of(g) == Some((3 - p - q, g[p])),
{
}

/// Where two boxes of band `y` (neither holding digit `v + 1`, nor any box
/// of the band pinning it to one row) confine the digit to the same two
/// rows, and the third box of the band does not, the digit leaves those
/// rows of the third box.
pub proof fn lemma_band_pair_clears(s: Seq<Node>, v: int, y: int, p: int, q: int, c: int)
    requires
        0 <= v < 9,
        0 <= y < 3,
        0 <= p < 3,
        0 <= q < 3,
        p != q,
        qd_row_free(s, v, y),
        count_true(box_rows3(s, 3 * y + p, v)) == 2,
        box_rows3(s, 3 * y + p, v) == box_rows3(s, 3 * y + q, v),
        box_rows3(s, 3 * y + (3 - p - q), v) != box_rows3(s, 3 * y + p, v),
        0 <= c < 81,
        box_of(c) == 3 * y + (3 - p - q),
        box_rows3(s, 3 * y + p, v)[(c / 9) % 3],
    ensures
        qd_marked(s, c, v),
        quantum_double_spec(s) matches Some((t, _cs)) ==> (s[c].value is Pos ==> t[c].value is Pos
            && !t[c].value->Pos_0[v]),
{
    broadcast use lemma_arr9;

    reveal(row_mark);
    let g = crate::quantum_utils::row_group(s, v, y);
    assert(g[p] == box_rows3(s, 3 * y + p, v));
    assert(g[q] == box_rows3(s, 3 * y + q, v));
    assert(g[3 - p - q] == box_rows3(s, 3 * y + (3 - p - q), v));
    lemma_pair_of_finds(g, p, q);
    assert(row_mark(s, v, y, c));
    assert(group_marks(s, v, y, c));
    if y == 0 {
        assert(group_marks(s, v, 0, c));
    } else if y == 1 {
        assert(group_marks(s, v, 1, c));
    } else {
        assert(group_marks(s, v, 2, c));
    }
    if s[c].value is Pos {
        assert(!qd_new(s, c)[v]);
    }
}

/// Where two boxes of stack `x` (neither holding digit `v + 1`, nor any box
/// of the stack pinning it to one column) confine the digit to the same two
/// columns, and the third box of the stack does not, the digit leaves those
/// columns of the third box.
pub proof fn lemma_stack_pair_clears(s: Seq<Node>, v: int, x: int, p: int, q: int, c: int)
    requires
        0 <= v < 9,
        0 <= x < 3,
        0 <= p < 3,
        0 <= q < 3,
        p != q,
        qd_col_free(s, v, x),
        count_true(box_cols3(s, x + 3 * p, v)) == 2,
        box_cols3(s, x + 3 * p, v) == box_cols3(s, x + 3 * q, v),
        box_cols3(s, x + 3 * (3 - p - q), v) != box_cols3(s, x + 3 * p, v),
        0 <= c < 81,
        box_of(c) == x + 3 * (3 - p - q),
        box_cols3(s, x + 3 * p, v)[(c % 9) % 3],
    ensures
        qd_marked(s, c, v),
        quantum_double_spec(s) matches Some((t, _cs)) ==> (s[c].value is Pos ==> t[c].value is Pos
            && !t[c].value->Pos_0[v]),
{
    broadcast use lemma_arr9;

    let g = crate::quantum_utils::col_group(s, v, x);
    assert(g[p] == box_cols3(s, x + 3 * p, v));
    assert(g[q] == box_cols3(s, x + 3 * q, v));
    assert(g[3 - p - q] == box_cols3(s, x + 3 * (3 - p - q), v));
    lemma_pair_of_finds(g, p, q);
    assert(col_mark(s, v, x, c));
    assert(group_marks(s, v, x, c));
    if x == 0 {
        assert(group_marks(s, v, 0, c));
    } else if x == 1 {
        assert(group_marks(s, v, 1, c));
    } else {
        assert(group_marks(s, v, 2, c));
    }
    if s[c].value is Pos {
        assert(!qd_new(s, c)[v]);
    }
}

// ---------------------------------------------------------------------------
// What each elimination leaves
// ---------------------------------------------------------------------------
/// After direct elimination, no cell that is not definite keeps a
/// candidate that was definite in another cell of its row or column.
pub proof fn lemma_direct_elimination_clears(s: Seq<Node>)
    requires
        cells_wf(s),
    ensures
        direct_elimination_spec(s) matches Some((t, _cs)) ==> forall|a: int, b: int|
            #![trigger t[a], s[b]]
            0 <= a < 81 && 0 <= b < 81 && a != b && (a / 9 == b / 9 || a % 9 == b % 9) && t[a].value is Pos
                && s[b].value is Def ==> !t[a].value->Pos_0[s[b].value->Def_0 - 1],
{
    broadcast use lemma_arr9;

    if let Some((t, _cs)) = direct_elimination_spec(s) {
        assert forall|a: int, b: int|
            #![trigger t[a], s[b]]
            0 <= a < 81 && 0 <= b < 81 && a != b && (a / 9 == b / 9 || a % 9 == b % 9) && t[a].value is Pos
                && s[b].value is Def implies !t[a].value->Pos_0[s[b].value->Def_0 - 1] by {
            assert(cell_wf(s[a], a));
            assert(cell_wf(s[b], b));
            let k = s[b].value->Def_0 - 1;
            assert(s[b].value == Value::Def((k + 1) as u8));
            if a / 9 == b / 9 {
                assert(crate::board_utils::def_in_row(s, k, s[a].y - 1));
            } else {
                assert(crate::board_utils::def_in_col(s, k, s[a].x - 1));
            }
            assert(de_hit(s, a, k));
            if de_changed(s, a) {
                assert(!de_new(s, a)[k]);
            }
        }
    }
}

/// After box elimination, no cell that is not definite keeps a candidate
/// that was definite in another cell of its box.
pub proof fn lemma_box_elimination_clears(s: Seq<Node>)
    requires
        cells_wf(s),
    ensures
        box_elimination_spec(s) matches Some((t, _cs)) ==> forall|a: int, b: int|
            #![trigger t[a], s[b]]
            0 <= a < 81 && 0 <= b < 81 && a != b && box_of(a) == box_of(b) && t[a].value is Pos
                && s[b].value is Def ==> !t[a].value->Pos_0[s[b].value->Def_0 - 1],
{
    broadcast use lemma_arr9;

    if let Some((t, _cs)) = box_elimination_spec(s) {
        assert forall|a: int, b: int|
            #![trigger t[a], s[b]]
            0 <= a < 81 && 0 <= b < 81 && a != b && box_of(a) == box_of(b) && t[a].value is Pos
                && s[b].value is Def implies !t[a].value->Pos_0[s[b].value->Def_0 - 1] by {
            assert(cell_wf(s[b], b));
            let k = s[b].value->Def_0 - 1;
            lemma_cell_box(b);
            let j = box_pos(b);
            assert(box_cells(s, box_of(b))[j] == s[b]);
            assert(box_cells(s, box_of(b))[j].value == Value::Def((k + 1) as u8));
            assert(box_has(s, box_of(a), k));
            if be_changed(s, a) {
                assert(!be_new(s, a)[k]);
            }
        }
    }
}

/// After making single candidates definite, no cell that is not definite
/// has exactly one candidate.
pub proof fn lemma_depossibilize_clears(s: Seq<Node>)
    ensures
        forall|a: int|
            0 <= a < 81 && (#[trigger] depossibilize_spec(s).0[a]).value is Pos ==> count_true(
                depossibilize_spec(s).0[a].value->Pos_0@,
            ) != 1,
{
}

/// After tier one, no cell that is not definite keeps a candidate that was
/// definite in another cell of its row, column or box, and none has a
/// single candidate.
pub proof fn lemma_tier_one_clears(s: Seq<Node>)
    requires
        cells_wf(s),
    ensures
        tier_one_spec(s) matches Some((t, _cs)) ==> {
            &&& forall|a: int, b: int|
                #![trigger t[a], s[b]]
                0 <= a < 81 && 0 <= b < 81 && a != b && (a / 9 == b / 9 || a % 9 == b % 9 || box_of(a)
                    == box_of(b)) && t[a].value is Pos && s[b].value is Def ==> !t[a].value->Pos_0[s[b].value->Def_0
                    - 1]
            &&& forall|a: int| 0 <= a < 81 && (#[trigger] t[a]).value is Pos ==> count_true(t[a].value->Pos_0@) != 1
        },
{
    if let Some((t, _cs)) = tier_one_spec(s) {
        lemma_direct_elimination_progress(s);
        lemma_direct_elimination_clears(s);
        let (t1, c1) = direct_elimination_spec(s)->Some_0;
        lemma_narrows_wf(s, t1);
        lemma_box_elimination_progress(t1);
        lemma_box_elimination_clears(t1);
        let (t2, c2) = box_elimination_spec(t1)->Some_0;
        lemma_depossibilize_clears(t2);
        assert(t == depossibilize_spec(t2).0);
        assert forall|a: int, b: int|
            #![trigger t[a], s[b]]
            0 <= a < 81 && 0 <= b < 81 && a != b && (a / 9 == b / 9 || a % 9 == b % 9 || box_of(a) == box_of(b))
                && t[a].value is Pos && s[b].value is Def implies !t[a].value->Pos_0[s[b].value->Def_0 - 1] by {
            assert(narrows(s[b], t1[b]));
            assert(narrows(t1[b], t2[b]));
            assert(t2[a] == t[a]);
            assert(narrows(t1[a], t2[a]));
            if a / 9 == b / 9 || a % 9 == b % 9 {
                assert(t1[a].value is Pos);
                assert(!t1[a].value->Pos_0[s[b].value->Def_0 - 1]);
            } else {
                assert(t1[b] == s[b]);
            }
        }
    }
}

/// After the final quantum step, where a box confines a digit to one row
/// (column), no cell of that row (column) outside the box keeps it.
pub proof fn lemma_final_quantum_clears(s: Seq<Node>)
    ensures
        final_quantum_spec(s) matches Some((t, _cs)) ==> {
            &&& forall|a: int, v: int, c: int|
                #![trigger box_row_cert(s, a, v), t[c]]
                0 <= a < 9 && 0 <= v < 9 && 0 <= c < 81 && box_of(c) != a && box_row_cert(s, a, v) == c / 9 + 1
                    && t[c].value is Pos ==> !t[c].value->Pos_0[v]
            &&& forall|a: int, v: int, c: int|
                #![trigger box_col_cert(s, a, v), t[c]]
                0 <= a < 9 && 0 <= v < 9 && 0 <= c < 81 && box_of(c) != a && box_col_cert(s, a, v) == c % 9 + 1
                    && t[c].value is Pos ==> !t[c].value->Pos_0[v]
        },
{
    broadcast use lemma_arr9;

    if let Some((t, _cs)) = final_quantum_spec(s) {
        assert forall|a: int, v: int, c: int|
            #![trigger box_row_cert(s, a, v), t[c]]
            0 <= a < 9 && 0 <= v < 9 && 0 <= c < 81 && box_of(c) != a && box_row_cert(s, a, v) == c / 9 + 1
                && t[c].value is Pos implies !t[c].value->Pos_0[v] by {
            assert(crate::quantum_utils::row_pinned_elsewhere(s, box_of(c), v, c / 9));
            assert(fq_hit(s, c, v));
            if fq_changed(s, c) {
                assert(!fq_new(s, c)[v]);
            }
        }
        assert forall|a: int, v: int, c: int|
            #![trigger box_col_cert(s, a, v), t[c]]
            0 <= a < 9 && 0 <= v < 9 && 0 <= c < 81 && box_of(c) != a && box_col_cert(s, a, v) == c % 9 + 1
                && t[c].value is Pos implies !t[c].value->Pos_0[v] by {
            assert(crate::quantum_utils::col_pinned_elsewhere(s, box_of(c), v, c % 9));
            assert(fq_hit(s, c, v));
            if fq_changed(s, c) {
                assert(!fq_new(s, c)[v]);
            }
        }
    }
}

// ---------------------------------------------------------------------------
// An idle group search
// ---------------------------------------------------------------------------
proof fn lemma_upto_empty(s: Seq<Node>, how: Option<bool>, n: int)
    requires
        groups_changes_upto(s, how, n).len() == 0,
    ensures
        forall|i: int| 0 <= i < n ==> (#[trigger] unit_changes(s, how, i)).len() == 0,
    decreases n,
{
    if n > 0 {
        lemma_upto_empty(s, how, n - 1);
    }
}

proof fn lemma_depth_found(s: Seq<Node>, how: Option<bool>, i: int, md: int)
    ensures
        unit_depth(s, how, i, md) <= 9,
        unit_depth(s, how, i, md) < 9 ==> grp_changes(s, how, i, unit_depth(s, how, i, md)).len() > 0,
        unit_depth(s, how, i, md) == 9 ==> forall|k: int| md <= k < 9 ==> (#[trigger] grp_changes(s, how, i, k)).len() == 0,
    decreases 9 - md,
{
    if md < 9 && grp_changes(s, how, i, md).len() == 0 {
        lemma_depth_found(s, how, i, md + 1);
    }
}

proof fn lemma_collect_none_at<T>(n: int, f: spec_fn(int) -> Option<T>, j: int)
    requires
        collect(n, f).len() == 0,
        0 <= j < n,
    ensures
        f(j) is None,
    decreases n,
{
    assert(collect(n, f) == collect(n - 1, f) + crate::utils::opt_seq(f(n - 1)));
    if j < n - 1 {
        lemma_collect_none_at(n - 1, f, j);
    }
}

/// Where the group search of a kind changes nothing, no group, at any depth
/// it tries, in any unit of that kind, would remove a candidate: each cell
/// among a group's places has only the group's digits as candidates.
pub proof fn lemma_groups_idle_no_group_acts(s: Seq<Node>, how: Option<bool>)
    requires
        s.len() == 81,
        groups_idle(s, how),
    ensures
        forall|i: int, md: int, j: int|
            #![trigger find_group_spec(slice_mapping(unit_nodes(s, how, i)), md), unit_nodes(s, how, i)[j]]
            0 <= i < 9 && 2 <= md < 9 && 0 <= j < 9 && (find_group_spec(slice_mapping(unit_nodes(s, how, i)), md) matches Some(
                g,
            ) && g.1[j]) && unit_nodes(s, how, i)[j].value is Pos ==> forall|k: int|
                0 <= k < 9 && #[trigger] unit_nodes(s, how, i)[j].value->Pos_0[k] ==> find_group_spec(
                    slice_mapping(unit_nodes(s, how, i)),
                    md,
                )->Some_0.0[k],
{
    broadcast use lemma_arr9;

    lemma_upto_empty(s, how, 9);
    assert forall|i: int, md: int, j: int|
        #![trigger find_group_spec(slice_mapping(unit_nodes(s, how, i)), md), unit_nodes(s, how, i)[j]]
        0 <= i < 9 && 2 <= md < 9 && 0 <= j < 9 && (find_group_spec(slice_mapping(unit_nodes(s, how, i)), md) matches Some(
            g,
        ) && g.1[j]) && unit_nodes(s, how, i)[j].value is Pos implies forall|k: int|
            0 <= k < 9 && #[trigger] unit_nodes(s, how, i)[j].value->Pos_0[k] ==> find_group_spec(
                slice_mapping(unit_nodes(s, how, i)),
                md,
            )->Some_0.0[k] by {
        assert(unit_changes(s, how, i).len() == 0);
        lemma_depth_found(s, how, i, 2);
        assert(unit_depth(s, how, i, 2) == 9);
        assert(grp_changes(s, how, i, md).len() == 0);
        lemma_collect_none_at(9, grp_change(s, how, i, md), j);
        let g = find_group_spec(slice_mapping(unit_nodes(s, how, i)), md)->Some_0;
        lemma_grp_change_at(s, how, i, md, j, g.0, g.1);
        let p = unit_nodes(s, how, i)[j].value->Pos_0;
        assert(grp_new(p, g.0) == p);
        assert forall|k: int| 0 <= k < 9 && #[trigger] p[k] implies g.0[k] by {
            assert(grp_new(p, g.0)[k]);
        }
    }
}

// ---------------------------------------------------------------------------
// Solos
// ---------------------------------------------------------------------------
/// Where digit `v + 1` has its only place at `refs[j]`, the search over the
/// digits finds a digit whose only place is there.
proof fn lemma_solo_upto_finds(s: Seq<Node>, refs: Seq<Reference>, j: int, v: int, n: int)
    requires
        0 <= v < n <= 9,
        count_true(places(s, refs, v)) == 1,
        cand_at(s, refs, v, j),
    ensures
        solo_upto(s, refs, j, n) is Some,
    decreases n,
{
    if v < n - 1 && !(count_true(places(s, refs, n - 1)) == 1 && cand_at(s, refs, n - 1, j)) {
        lemma_solo_upto_finds(s, refs, j, v, n - 1);
    }
}

proof fn lemma_collect_has<T>(n: int, f: spec_fn(int) -> Option<T>, j: int)
    requires
        0 <= j < n,
        f(j) is Some,
    ensures
        exists|k: int| 0 <= k < collect(n, f).len() && collect(n, f)[k] == f(j)->Some_0,
    decreases n,
{
    let a = collect(n - 1, f);
    let b = crate::utils::opt_seq(f(n - 1));
    assert(collect(n, f) == a + b);
    if j < n - 1 {
        lemma_collect_has(n - 1, f, j);
        let k = choose|k: int| 0 <= k < a.len() && a[k] == f(j)->Some_0;
        assert((a + b)[k] == a[k]);
    } else {
        assert((a + b)[a.len() as int] == f(j)->Some_0);
    }
}

proof fn lemma_upto_grows(s: Seq<Node>, x: Change, m: int, n: int)
    requires
        0 <= m <= n,
        exists|k: int| 0 <= k < solo_changes_upto(s, m).len() && solo_changes_upto(s, m)[k] == x,
    ensures
        exists|k: int| 0 <= k < solo_changes_upto(s, n).len() && solo_changes_upto(s, n)[k] == x,
    decreases n - m,
{
    if m < n {
        lemma_upto_grows(s, x, m, n - 1);
        let a = solo_changes_upto(s, n - 1);
        let b = unit_solos(s, box_refs(n - 1)) + unit_solos(s, col_refs(n - 1)) + unit_solos(s, row_refs(n - 1));
        assert(solo_changes_upto(s, n) =~= a + b);
        let k = choose|k: int| 0 <= k < a.len() && a[k] == x;
        assert((a + b)[k] == a[k]);
    }
}

proof fn lemma_unit_solo_listed(s: Seq<Node>, refs: Seq<Reference>, i: int, j: int, v: int)
    requires
        0 <= i < 9,
        0 <= j < 9,
        0 <= v < 9,
        refs == box_refs(i) || refs == col_refs(i) || refs == row_refs(i),
        count_true(places(s, refs, v)) == 1,
        cand_at(s, refs, v, j),
    ensures
        exists|k: int|
            0 <= k < solo_changes(s).len() && #[trigger] solo_changes(s)[k] == solo_change(s, refs)(j)->Some_0,
        solo_change(s, refs)(j) is Some,
{
    lemma_solo_upto_finds(s, refs, j, v, 9);
    lemma_collect_has(9, solo_change(s, refs), j);
    let x = solo_change(s, refs)(j)->Some_0;
    let u = unit_solos(s, refs);
    let kk = choose|k: int| 0 <= k < u.len() && u[k] == x;
    let a = solo_changes_upto(s, i);
    let bx = unit_solos(s, box_refs(i));
    let cl = unit_solos(s, col_refs(i));
    let rw = unit_solos(s, row_refs(i));
    let all = a + bx + cl + rw;
    assert(solo_changes_upto(s, i + 1) =~= all);
    if refs == box_refs(i) {
        assert(all[a.len() + kk] == x);
    } else if refs == col_refs(i) {
        assert(all[a.len() + bx.len() + kk] == x);
    } else {
        assert(all[a.len() + bx.len() + cl.len() + kk] == x);
    }
    lemma_upto_grows(s, x, i + 1, 9);
    let sc = solo_changes_upto(s, 9);
    assert(solo_changes(s) == sc);
    let k = choose|k: int| 0 <= k < sc.len() && sc[k] == x;
    assert(solo_changes(s)[k] == x);
}

/// Every cell that is the only place of a digit in its box, column or row
/// is made definite by the solo changes, with a digit whose only place, in
/// that unit, it is.
pub proof fn lemma_solos_cover(s: Seq<Node>, refs: Seq<Reference>, i: int, j: int, v: int)
    requires
        0 <= i < 9,
        0 <= j < 9,
        0 <= v < 9,
        refs == box_refs(i) || refs == col_refs(i) || refs == row_refs(i),
        count_true(places(s, refs, v)) == 1,
        cand_at(s, refs, v, j),
    ensures
        exists|k: int, w: int|
            #![trigger solo_changes(s)[k], places(s, refs, w)]
            0 <= k < solo_changes(s).len() && 0 <= w < 9 && solo_changes(s)[k].0 == refs[j]
                && solo_changes(s)[k].1 == Value::Def((w + 1) as u8) && count_true(places(s, refs, w)) == 1
                && cand_at(s, refs, w, j),
{
    lemma_unit_solo_listed(s, refs, i, j, v);
    let k = choose|k: int|
        0 <= k < solo_changes(s).len() && #[trigger] solo_changes(s)[k] == solo_change(s, refs)(j)->Some_0;
    lemma_solo_upto_some(s, refs, j, 9);
    let w = solo_upto(s, refs, j, 9)->Some_0 as int;
    assert(solo_changes(s)[k].0 == refs[j] && solo_changes(s)[k].1 == Value::Def((w + 1) as u8));
    assert(count_true(places(s, refs, w)) == 1);
}

// ---------------------------------------------------------------------------
// The hypothesis search
// ---------------------------------------------------------------------------
/// The hypothesis that cell `c` holds digit `k + 1`, as a change.
pub open spec fn attempt(s: Seq<Node>, c: int, k: int) -> Change {
    Change(Reference::XY((s[c].x, s[c].y)), Value::Def((k + 1) as u8))
}

/// The cells with cell `c` set to digit `k + 1`.
pub open spec fn filled(s: Seq<Node>, c: int, k: int) -> Seq<Node> {
    set_value(s, c, Value::Def((k + 1) as u8))
}

/// Settling a board never reports that hypotheses ran out.
pub proof fn lemma_settle_not_exhausted(s: Seq<Node>)
    requires
        s.len() == 81,
    ensures
        !(settle(s) is Exhausted),
    decreases candidates_left(s),
{
    if full_processing_safe(s) {
        if let Some((t, cs)) = full_processing_spec(s) {
            if !solved(t) && cs.len() > 0 {
                lemma_full_processing_progress(s);
                lemma_full_processing_shrinks(s);
                lemma_settle_not_exhausted(t);
            }
        }
    }
}

proof fn lemma_first_untried_all(s: Seq<Node>, a: Seq<Change>, u0: int)
    requires
        0 <= u0 <= 729,
    ensures
        first_untried(s, a, u0) is None ==> forall|v: int| u0 <= v < 729 ==> !#[trigger] untried(s, a, v),
        first_untried(s, a, u0) matches Some(u) ==> forall|v: int| u0 <= v < u ==> !#[trigger] untried(s, a, v),
    decreases 729 - u0,
{
    if u0 < 729 && !untried(s, a, u0) {
        lemma_first_untried_all(s, a, u0 + 1);
    }
}

/// Hypothesis number `9 * c + k` is cell `c` holding digit `k + 1`.
proof fn lemma_trial_is_attempt(s: Seq<Node>, c: int, k: int)
    requires
        cells_wf(s),
        0 <= c < 81,
        0 <= k < 9,
    ensures
        trial(s, 9 * c + k) == attempt(s, c, k),
        hypothesis(s, attempt(s, c, k)) == filled(s, c, k),
        (9 * c + k) / 9 == c,
        (9 * c + k) % 9 == k,
{
    assert(cell_wf(s[c], c));
}

/// Two hypotheses that are the same change name the same cell and digit.
proof fn lemma_attempt_unique(s: Seq<Node>, c: int, k: int, c2: int, k2: int)
    requires
        cells_wf(s),
        0 <= c < 81,
        0 <= k < 9,
        0 <= c2 < 81,
        0 <= k2 < 9,
        attempt(s, c, k) == attempt(s, c2, k2),
    ensures
        c == c2,
        k == k2,
{
    assert(cell_wf(s[c], c));
    assert(cell_wf(s[c2], c2));
}

/// Where the search runs out of hypotheses, every candidate of every cell
/// that is not definite, filled in, was already among the attempts or
/// settles to a refutation.
pub proof fn lemma_search_exhausted(s: Seq<Node>, a: Seq<Change>)
    requires
        cells_wf(s),
    ensures
        search(s, a) is Exhausted ==> forall|c: int, k: int|
            #![trigger filled(s, c, k)]
            0 <= c < 81 && 0 <= k < 9 && s[c].value is Pos && s[c].value->Pos_0[k] ==> a.contains(attempt(s, c, k))
                || settle(filled(s, c, k)) is Refuted,
    decreases untried_count(s, a),
{
    lemma_first_untried_all(s, a, 0);
    lemma_first_untried_open(s, a, 0);
    match first_untried(s, a, 0) {
        None => {
            assert forall|c: int, k: int|
                #![trigger filled(s, c, k)]
                0 <= c < 81 && 0 <= k < 9 && s[c].value is Pos && s[c].value->Pos_0[k] implies a.contains(
                    attempt(s, c, k),
                ) || settle(filled(s, c, k)) is Refuted by {
                lemma_trial_is_attempt(s, c, k);
                assert(!untried(s, a, 9 * c + k));
            }
        },
        Some(u) => {
            let ch = trial(s, u);
            let h = hypothesis(s, ch);
            lemma_settle_not_exhausted(h);
            if search(s, a) is Exhausted {
                assert(settle(h) is Refuted);
                lemma_untried_shrinks(s, a, u);
                lemma_search_exhausted(s, a.push(ch));
                assert forall|c: int, k: int|
                    #![trigger filled(s, c, k)]
                    0 <= c < 81 && 0 <= k < 9 && s[c].value is Pos && s[c].value->Pos_0[k] implies a.contains(
                        attempt(s, c, k),
                    ) || settle(filled(s, c, k)) is Refuted by {
                    if !a.contains(attempt(s, c, k)) && !(settle(filled(s, c, k)) is Refuted) {
                        assert(a.push(ch).contains(attempt(s, c, k)));
                        let i = choose|i: int| 0 <= i < a.push(ch).len() && a.push(ch)[i] == attempt(s, c, k);
                        if i < a.len() {
                            assert(a[i] == a.push(ch)[i]);
                        }
                        assert(attempt(s, c, k) == ch);
                        lemma_trial_is_attempt(s, u / 9, u % 9);
                        assert(9 * (u / 9) + u % 9 == u);
                        lemma_attempt_unique(s, c, k, u / 9, u % 9);
                        lemma_trial_is_attempt(s, c, k);
                    }
                }
            }
        },
    }
}

/// All candidates of cells that are not definite, up to hypothesis number
/// `u` (cell by cell, digit by digit), are among the attempts or settle to a
/// refutation.
pub open spec fn refuted_before(s: Seq<Node>, a: Seq<Change>, u: int) -> bool {
    forall|c2: int, k2: int|
        #![trigger filled(s, c2, k2)]
        0 <= c2 < 81 && 0 <= k2 < 9 && 9 * c2 + k2 < u && s[c2].value is Pos && s[c2].value->Pos_0[k2]
            ==> a.contains(attempt(s, c2, k2)) || settle(filled(s, c2, k2)) is Refuted
}

/// Where the search ends otherwise than by running out, its outcome is that
/// of settling the first hypothesis, cell by cell and digit by digit, that
/// is a candidate, not among the attempts, and not refuted.
pub proof fn lemma_search_decides(s: Seq<Node>, a: Seq<Change>)
    requires
        cells_wf(s),
    ensures
        !(search(s, a) is Exhausted) ==> exists|c: int, k: int|
            #![trigger filled(s, c, k)]
            0 <= c < 81 && 0 <= k < 9 && s[c].value is Pos && s[c].value->Pos_0[k] && !a.contains(
                attempt(s, c, k),
            ) && settle(filled(s, c, k)) == search(s, a) && !(settle(filled(s, c, k)) is Refuted)
                && refuted_before(s, a, 9 * c + k),
    decreases untried_count(s, a),
{
    lemma_first_untried_all(s, a, 0);
    lemma_first_untried_open(s, a, 0);
    if let Some(u) = first_untried(s, a, 0) {
        let ch = trial(s, u);
        let h = hypothesis(s, ch);
        let c = u / 9;
        let k = u % 9;
        lemma_trial_is_attempt(s, c, k);
        assert(9 * c + k == u);
        if settle(h) is Refuted {
            lemma_untried_shrinks(s, a, u);
            lemma_search_decides(s, a.push(ch));
            if !(search(s, a) is Exhausted) {
                let b = a.push(ch);
                let (c1, k1) = choose|c1: int, k1: int|
                    #![trigger filled(s, c1, k1)]
                    0 <= c1 < 81 && 0 <= k1 < 9 && s[c1].value is Pos && s[c1].value->Pos_0[k1] && !b.contains(
                        attempt(s, c1, k1),
                    ) && settle(filled(s, c1, k1)) == search(s, b) && !(settle(filled(s, c1, k1)) is Refuted)
                        && refuted_before(s, b, 9 * c1 + k1);
                assert(a.len() < b.len() && forall|i: int| 0 <= i < a.len() ==> b[i] == a[i]);
                assert(!a.contains(attempt(s, c1, k1))) by {
                    if a.contains(attempt(s, c1, k1)) {
                        let i = choose|i: int| 0 <= i < a.len() && a[i] == attempt(s, c1, k1);
                        assert(b[i] == attempt(s, c1, k1));
                    }
                }
                assert forall|c2: int, k2: int|
                    #![trigger filled(s, c2, k2)]
                    0 <= c2 < 81 && 0 <= k2 < 9 && 9 * c2 + k2 < 9 * c1 + k1 && s[c2].value is Pos
                        && s[c2].value->Pos_0[k2] implies a.contains(attempt(s, c2, k2)) || settle(
                        filled(s, c2, k2),
                    ) is Refuted by {
                    if b.contains(attempt(s, c2, k2)) && !a.contains(attempt(s, c2, k2)) {
                        let i = choose|i: int| 0 <= i < b.len() && b[i] == attempt(s, c2, k2);
                        if i < a.len() {
                            assert(a[i] == b[i]);
                        }
                        assert(attempt(s, c2, k2) == ch);
                        lemma_attempt_unique(s, c2, k2, c, k);
                    }
                }
                assert(refuted_before(s, a, 9 * c1 + k1));
            }
        } else {
            assert(search(s, a) == settle(h));
            assert forall|c2: int, k2: int|
                #![trigger filled(s, c2, k2)]
                0 <= c2 < 81 && 0 <= k2 < 9 && 9 * c2 + k2 < 9 * c + k && s[c2].value is Pos
                    && s[c2].value->Pos_0[k2] implies a.contains(attempt(s, c2, k2)) || settle(
                    filled(s, c2, k2),
                ) is Refuted by {
                lemma_trial_is_attempt(s, c2, k2);
                assert(!untried(s, a, 9 * c2 + k2));
            }
            assert(refuted_before(s, a, 9 * c + k));
        }
    }
}

proof fn lemma_collect_some_at<T>(n: int, f: spec_fn(int) -> Option<T>)
    requires
        collect(n, f).len() > 0,
    ensures
        exists|j: int| 0 <= j < n && (#[trigger] f(j)) is Some,
    decreases n,
{
    if n > 0 {
        assert(collect(n, f) == collect(n - 1, f) + crate::utils::opt_seq(f(n - 1)));
        if f(n - 1) is None {
            lemma_collect_some_at(n - 1, f);
        }
    } else {
        assert(collect(n, f).len() == 0);
    }
}

proof fn lemma_depth_at_most(s: Seq<Node>, how: Option<bool>, i: int, m0: int, md: int)
    requires
        m0 <= md < 9,
        grp_changes(s, how, i, md).len() > 0,
    ensures
        unit_depth(s, how, i, m0) <= md,
    decreases md - m0,
{
    if m0 < md && grp_changes(s, how, i, m0).len() == 0 {
        lemma_depth_at_most(s, how, i, m0 + 1, md);
    }
}

proof fn lemma_upto_has_unit(s: Seq<Node>, how: Option<bool>, i: int, n: int)
    requires
        0 <= i < n,
    ensures
        groups_changes_upto(s, how, n).len() >= unit_changes(s, how, i).len(),
    decreases n,
{
    if i < n - 1 {
        lemma_upto_has_unit(s, how, i, n - 1);
    }
}

/// Where a group that the search tries in a unit has, among its places, a
/// cell with a candidate outside the group, the search of that kind records
/// changes and alters some cell of that unit.
pub proof fn lemma_groups_act(s: Seq<Node>, how: Option<bool>, i: int, md: int, j: int, k: int)
    requires
        s.len() == 81,
        0 <= i < 9,
        2 <= md < 9,
        0 <= j < 9,
        0 <= k < 9,
        find_group_spec(slice_mapping(unit_nodes(s, how, i)), md) matches Some(g) && g.1[j] && !g.0[k],
        unit_nodes(s, how, i)[j].value is Pos,
        unit_nodes(s, how, i)[j].value->Pos_0[k],
    ensures
        find_groups_spec(s, how) matches Some((t, cs)) ==> cs.len() > 0 && exists|j2: int|
            0 <= j2 < 9 && t[#[trigger] unit_cell(how, i, j2)] != s[unit_cell(how, i, j2)],
{
    broadcast use lemma_arr9;

    let g = find_group_spec(slice_mapping(unit_nodes(s, how, i)), md)->Some_0;
    let p = unit_nodes(s, how, i)[j].value->Pos_0;
    lemma_grp_change_at(s, how, i, md, j, g.0, g.1);
    assert(!grp_new(p, g.0)[k]);
    assert(grp_new(p, g.0) != p);
    assert(grp_change(s, how, i, md)(j) is Some);
    if grp_changes(s, how, i, md).len() == 0 {
        lemma_collect_none_at(9, grp_change(s, how, i, md), j);
    }
    lemma_depth_at_most(s, how, i, 2, md);
    lemma_depth_found(s, how, i, 2);
    let d = unit_depth(s, how, i, 2);
    assert(d < 9);
    assert(unit_changes(s, how, i) == grp_changes(s, how, i, d));
    lemma_upto_has_unit(s, how, i, 9);
    lemma_collect_some_at(9, grp_change(s, how, i, d));
    let j2 = choose|j2: int| 0 <= j2 < 9 && (#[trigger] grp_change(s, how, i, d)(j2)) is Some;
    lemma_unit_geometry(how);
    let c2 = unit_cell(how, i, j2);
    assert(unit_of(how, c2) == i && unit_pos(how, c2) == j2);
    if let Some((t, cs)) = find_groups_spec(s, how) {
        let g2 = find_group_spec(slice_mapping(unit_nodes(s, how, i)), d);
        if let Some(gg) = g2 {
            lemma_grp_change_at(s, how, i, d, j2, gg.0, gg.1);
            assert(unit_nodes(s, how, i)[j2] == s[c2]);
            assert(t[c2] == crate::disclusion::fgs_node(s, how, c2));
            assert(t[c2] != s[c2]);
        } else {
            crate::disclusion::lemma_grp_change_none(s, how, i, d);
        }
    }
}

} // verus!
