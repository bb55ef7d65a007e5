use vstd::prelude::*;

use crate::board_utils::{box_cell, box_of, box_pos, lemma_box_cell, lemma_cell_box};
use crate::solver::{
    be_change, be_changed, be_new, box_elimination_spec, de_change, de_changed, de_new,
    depossibilize_spec, direct_elimination_spec, dp_change, dp_changed, with_candidates,
};
use crate::disclusion::{
    find_all_groups_spec, find_groups_spec, grp_change, lemma_groups_changes_some, lemma_groups_idle,
    lemma_grp_change_narrows, lemma_unit_geometry, unit_cell, unit_changes, unit_depth, unit_nodes, unit_of,
    unit_pos,
};
use crate::quantum_utils::{
    final_quantum_spec, fq_box, fq_change, fq_changed, fq_hit, fq_new, qd_change, qd_changed, qd_marked,
    qd_new, quantum_double_spec,
};
use crate::solos::{
    box_refs, cand_at, col_refs, places, row_refs, solo_change, solo_changes, solo_changes_upto, solo_upto,
    unit_solos,
};
use crate::utils::{
    Change, Node, Outcome, Reference, Value, apply_changes, candidate_digits, cell_wf, collect,
    count_true, is_digit, lemma_arr9, names_cell, opt_seq, set_value, spec_ordinal,
};

verus! {

// ---------------------------------------------------------------------------
// Narrowing
// ---------------------------------------------------------------------------
/// The candidates `q` are among the candidates `p`.
pub open spec fn within(q: [bool; 9], p: [bool; 9]) -> bool {
    forall|k: int| 0 <= k < 9 ==> #[trigger] q[k] ==> p[k]
}

/// The cell `b` is the cell `a`, or `a` (not definite) with some of its
/// candidates, or `a` made definite with one of its candidates.
pub open spec fn narrows(a: Node, b: Node) -> bool {
    ||| b == a
    ||| {
        &&& b.x == a.x
        &&& b.y == a.y
        &&& a.value is Pos
        &&& match b.value {
            Value::Pos(q) => within(q, a.value->Pos_0),
            Value::Def(d) => is_digit(d) && a.value->Pos_0[d - 1],
        }
    }
}

/// Every cell of `t` narrows the same cell of `s`.
pub open spec fn narrows_all(s: Seq<Node>, t: Seq<Node>) -> bool {
    &&& s.len() == t.len()
    &&& forall|c: int| 0 <= c < s.len() ==> narrows(#[trigger] s[c], t[c])
}

/// What a step made of the cells `s` only narrows them, and changes them
/// exactly when it records a change.
pub open spec fn step_progress(s: Seq<Node>, o: Option<(Seq<Node>, Seq<Change>)>) -> bool {
    match o {
        None => true,
        Some((t, cs)) => narrows_all(s, t) && (cs.len() == 0 <==> t == s),
    }
}

/// The 81 cells sit at the indices their coordinates name, and every
/// definite cell holds a digit from 1 to 9.
pub open spec fn cells_wf(s: Seq<Node>) -> bool {
    &&& s.len() == 81
    &&& forall|i: int| 0 <= i < 81 ==> cell_wf(#[trigger] s[i], i)
}

/// Narrowing is transitive.
pub proof fn lemma_narrows_trans(s: Seq<Node>, t: Seq<Node>, u: Seq<Node>)
    requires
        narrows_all(s, t),
        narrows_all(t, u),
    ensures
        narrows_all(s, u),
{
    assert forall|c: int| 0 <= c < s.len() implies narrows(#[trigger] s[c], u[c]) by {
        assert(narrows(s[c], t[c]));
        assert(narrows(t[c], u[c]));
    }
}

/// Narrowing keeps the cells well formed.
pub proof fn lemma_narrows_wf(s: Seq<Node>, t: Seq<Node>)
    requires
        cells_wf(s),
        narrows_all(s, t),
    ensures
        cells_wf(t),
{
    assert forall|i: int| 0 <= i < 81 implies cell_wf(#[trigger] t[i], i) by {
        assert(narrows(s[i], t[i]));
        assert(cell_wf(s[i], i));
    }
}

/// Removing the candidates that `q` lacks, at least `k`, narrows a cell and
/// changes it.
pub proof fn lemma_strip(n: Node, q: [bool; 9], k: int)
    requires
        n.value is Pos,
        0 <= k < 9,
        n.value->Pos_0[k],
        !q[k],
        within(q, n.value->Pos_0),
    ensures
        narrows(n, with_candidates(n, q)),
        with_candidates(n, q) != n,
{
    assert(with_candidates(n, q).value->Pos_0[k] != n.value->Pos_0[k]);
}

/// A step that changes each cell `c` for which `changed(c)` holds, narrowing
/// it, and records its changes in the order `cell(0)`, `cell(1)`, ... (a
/// reordering of the 81 cells) makes progress.
pub proof fn lemma_pointwise_progress(
    s: Seq<Node>,
    t: Seq<Node>,
    changed: spec_fn(int) -> bool,
    f: spec_fn(int) -> Option<Change>,
    cell: spec_fn(int) -> int,
    pos: spec_fn(int) -> int,
)
    requires
        s.len() == 81,
        t.len() == 81,
        forall|c: int|
            0 <= c < 81 ==> (if #[trigger] changed(c) {
                t[c] != s[c] && narrows(s[c], t[c])
            } else {
                t[c] == s[c]
            }),
        forall|u: int| 0 <= u < 81 ==> 0 <= #[trigger] cell(u) < 81 && (f(u) is Some <==> changed(cell(u))),
        forall|c: int| 0 <= c < 81 ==> 0 <= #[trigger] pos(c) < 81 && cell(pos(c)) == c,
    ensures
        step_progress(s, Some((t, collect(81, f)))),
{
    assert forall|c: int| 0 <= c < 81 implies narrows(#[trigger] s[c], t[c]) by {
        if changed(c) {
        } else {
        }
    }
    if collect(81, f).len() == 0 {
        crate::disclusion::lemma_collect_empty(81, f);
        assert forall|c: int| 0 <= c < 81 implies #[trigger] t[c] == s[c] by {
            assert(f(pos(c)) is None);
            assert(!changed(c));
        }
        assert(t =~= s);
    } else {
        if t == s {
            assert forall|u: int| 0 <= u < 81 implies #[trigger] f(u) is None by {
                let c = cell(u);
                if changed(c) {
                    assert(t[c] != s[c]);
                }
            }
            crate::disclusion::lemma_collect_none(81, f);
        }
    }
}

// ---------------------------------------------------------------------------
// The eliminations
// ---------------------------------------------------------------------------
/// Direct elimination only narrows the cells, and changes them exactly when
/// it records a change.
pub proof fn lemma_direct_elimination_progress(s: Seq<Node>)
    requires
        s.len() == 81,
    ensures
        step_progress(s, direct_elimination_spec(s)),
{
    broadcast use lemma_arr9;

    if let Some((t, cs)) = direct_elimination_spec(s) {
        assert forall|c: int|
            0 <= c < 81 implies (if #[trigger] de_changed(s, c) {
            t[c] != s[c] && narrows(s[c], t[c])
        } else {
            t[c] == s[c]
        }) by {
            if de_changed(s, c) {
                let k = choose|k: int| 0 <= k < 9 && s[c].value->Pos_0[k] && crate::solver::de_hit(s, c, k);
                lemma_strip(s[c], de_new(s, c), k);
            }
        }
        lemma_pointwise_progress(s, t, |c: int| de_changed(s, c), de_change(s), |u: int| u, |c: int| c);
    }
}

/// Box elimination only narrows the cells, and changes them exactly when it
/// records a change.
pub proof fn lemma_box_elimination_progress(s: Seq<Node>)
    requires
        s.len() == 81,
    ensures
        step_progress(s, box_elimination_spec(s)),
{
    broadcast use lemma_arr9;

    if let Some((t, cs)) = box_elimination_spec(s) {
        assert forall|c: int|
            0 <= c < 81 implies (if #[trigger] be_changed(s, c) {
            t[c] != s[c] && narrows(s[c], t[c])
        } else {
            t[c] == s[c]
        }) by {
            if be_changed(s, c) {
                let k = choose|k: int|
                    0 <= k < 9 && s[c].value->Pos_0[k] && crate::solver::box_has(s, box_of(c), k);
                lemma_strip(s[c], be_new(s, c), k);
            }
        }
        assert forall|u: int| 0 <= u < 81 implies 0 <= #[trigger] box_cell(u / 9, u % 9) < 81 by {
            lemma_box_cell(u / 9, u % 9);
        }
        assert forall|c: int| 0 <= c < 81 implies 0 <= #[trigger] (9 * box_of(c) + box_pos(c)) < 81 && box_cell(
            (9 * box_of(c) + box_pos(c)) / 9,
            (9 * box_of(c) + box_pos(c)) % 9,
        ) == c by {
            lemma_cell_box(c);
        }
        lemma_pointwise_progress(
            s,
            t,
            |c: int| be_changed(s, c),
            be_change(s),
            |u: int| box_cell(u / 9, u % 9),
            |c: int| 9 * box_of(c) + box_pos(c),
        );
    }
}

/// Every candidate digit is a flagged position of `p`, counted from 1.
pub proof fn lemma_candidate_digits_flagged(p: Seq<bool>)
    requires
        p.len() <= 255,
    ensures
        forall|i: int|
            0 <= i < candidate_digits(p).len() ==> p[#[trigger] candidate_digits(p)[i] - 1],
    decreases p.len(),
{
    if p.len() > 0 {
        lemma_candidate_digits_flagged(p.drop_last());
        crate::solver::lemma_candidate_digits(p.drop_last());
        let a = candidate_digits(p.drop_last());
        assert forall|i: int| 0 <= i < candidate_digits(p).len() implies p[#[trigger] candidate_digits(p)[i] - 1] by {
            if i < a.len() {
                assert(candidate_digits(p)[i] == a[i]);
                assert(p.drop_last()[a[i] - 1] == p[a[i] - 1]);
            }
        }
    }
}

/// Depossibilizing only narrows the cells, and changes them exactly when it
/// records a change.
pub proof fn lemma_depossibilize_progress(s: Seq<Node>)
    requires
        s.len() == 81,
    ensures
        step_progress(s, Some(depossibilize_spec(s))),
{
    let t = depossibilize_spec(s).0;
    assert forall|c: int|
        0 <= c < 81 implies (if #[trigger] dp_changed(s, c) {
        t[c] != s[c] && narrows(s[c], t[c])
    } else {
        t[c] == s[c]
    }) by {
        if dp_changed(s, c) {
            let p = s[c].value->Pos_0@;
            crate::solver::lemma_candidate_digits(p);
            lemma_candidate_digits_flagged(p);
            assert(candidate_digits(p).len() == 1);
            let d = candidate_digits(p)[0];
            assert(1 <= d <= 9);
            assert(p[d - 1]);
        }
    }
    lemma_pointwise_progress(s, t, |c: int| dp_changed(s, c), dp_change(s), |u: int| u, |c: int| c);
}

// ---------------------------------------------------------------------------
// The box-pinning steps
// ---------------------------------------------------------------------------
/// `fq_box` is its own inverse on the nine boxes.
proof fn lemma_fq_box(b: int)
    requires
        0 <= b < 9,
    ensures
        0 <= fq_box(b) < 9,
        fq_box(fq_box(b)) == b,
{
    assert(b == 0 || b == 1 || b == 2 || b == 3 || b == 4 || b == 5 || b == 6 || b == 7 || b == 8);
}

proof fn lemma_fq_pos(c: int)
    requires
        0 <= c < 81,
    ensures
        0 <= 9 * fq_box(box_of(c)) + box_pos(c) < 81,
        box_cell(
            fq_box((9 * fq_box(box_of(c)) + box_pos(c)) / 9),
            (9 * fq_box(box_of(c)) + box_pos(c)) % 9,
        ) == c,
{
    lemma_cell_box(c);
    let b = box_of(c);
    let p = box_pos(c);
    lemma_fq_box(b);
    let u = 9 * fq_box(b) + p;
    assert(u / 9 == fq_box(b) && u % 9 == p);
}

/// The final quantum step visits every cell once: position `u` of its
/// order is cell `box_cell(fq_box(u / 9), u % 9)`.
proof fn lemma_fq_order()
    ensures
        forall|u: int| 0 <= u < 81 ==> 0 <= #[trigger] box_cell(fq_box(u / 9), u % 9) < 81,
        forall|c: int|
            0 <= c < 81 ==> 0 <= #[trigger] (9 * fq_box(box_of(c)) + box_pos(c)) < 81 && box_cell(
                fq_box((9 * fq_box(box_of(c)) + box_pos(c)) / 9),
                (9 * fq_box(box_of(c)) + box_pos(c)) % 9,
            ) == c,
{
    assert forall|u: int| 0 <= u < 81 implies 0 <= #[trigger] box_cell(fq_box(u / 9), u % 9) < 81 by {
        lemma_fq_box(u / 9);
        lemma_box_cell(fq_box(u / 9), u % 9);
    }
    assert forall|c: int| 0 <= c < 81 implies 0 <= #[trigger] (9 * fq_box(box_of(c)) + box_pos(c)) < 81
        && box_cell(
        fq_box((9 * fq_box(box_of(c)) + box_pos(c)) / 9),
        (9 * fq_box(box_of(c)) + box_pos(c)) % 9,
    ) == c by {
        lemma_fq_pos(c);
    }
}

/// The final quantum step only narrows the cells, and changes them exactly
/// when it records a change.
pub proof fn lemma_final_quantum_progress(s: Seq<Node>)
    requires
        s.len() == 81,
    ensures
        step_progress(s, final_quantum_spec(s)),
{
    broadcast use lemma_arr9;

    if let Some((t, cs)) = final_quantum_spec(s) {
        assert forall|c: int|
            0 <= c < 81 implies (if #[trigger] fq_changed(s, c) {
            t[c] != s[c] && narrows(s[c], t[c])
        } else {
            t[c] == s[c]
        }) by {
            if fq_changed(s, c) {
                let k = choose|k: int| 0 <= k < 9 && s[c].value->Pos_0[k] && fq_hit(s, c, k);
                lemma_strip(s[c], fq_new(s, c), k);
            }
        }
        lemma_fq_order();
        lemma_pointwise_progress(
            s,
            t,
            |c: int| fq_changed(s, c),
            fq_change(s),
            |u: int| box_cell(fq_box(u / 9), u % 9),
            |c: int| 9 * fq_box(box_of(c)) + box_pos(c),
        );
    }
}

/// The quantum double step only narrows the cells, and changes them exactly
/// when it records a change.
pub proof fn lemma_quantum_double_progress(s: Seq<Node>)
    requires
        s.len() == 81,
    ensures
        step_progress(s, quantum_double_spec(s)),
{
    broadcast use lemma_arr9;

    if let Some((t, cs)) = quantum_double_spec(s) {
        assert forall|c: int|
            0 <= c < 81 implies (if #[trigger] qd_changed(s, c) {
            t[c] != s[c] && narrows(s[c], t[c])
        } else {
            t[c] == s[c]
        }) by {
            if qd_changed(s, c) {
                let k = choose|k: int| 0 <= k < 9 && s[c].value->Pos_0[k] && qd_marked(s, c, k);
                lemma_strip(s[c], qd_new(s, c), k);
            }
        }
        lemma_pointwise_progress(
            s,
            t,
            |c: int| qd_changed(s, c),
            qd_change(s),
            |u: int| 9 * (u % 9) + u / 9,
            |c: int| 9 * (c % 9) + c / 9,
        );
    }
}

// ---------------------------------------------------------------------------
// Solos
// ---------------------------------------------------------------------------
/// The change makes definite, with one of its candidates, a cell of `s`
/// that is not definite.
pub open spec fn picks_candidate(s: Seq<Node>, ch: Change) -> bool {
    &&& names_cell(ch.0)
    &&& ch.1 is Def
    &&& is_digit(ch.1->Def_0)
    &&& s[spec_ordinal(ch.0)].value is Pos
    &&& s[spec_ordinal(ch.0)].value->Pos_0[ch.1->Def_0 - 1]
}

/// Every change picks a candidate of its cell in `s`.
pub open spec fn all_pick(s: Seq<Node>, cs: Seq<Change>) -> bool {
    forall|i: int| 0 <= i < cs.len() ==> picks_candidate(s, #[trigger] cs[i])
}

/// A solo found for cell `j` is a digit whose only place among `refs` is
/// that cell.
pub proof fn lemma_solo_upto_some(s: Seq<Node>, refs: Seq<Reference>, j: int, n: int)
    requires
        n <= 9,
        solo_upto(s, refs, j, n) is Some,
    ensures
        0 <= solo_upto(s, refs, j, n)->Some_0 < n,
        cand_at(s, refs, solo_upto(s, refs, j, n)->Some_0 as int, j),
        count_true(places(s, refs, solo_upto(s, refs, j, n)->Some_0 as int)) == 1,
    decreases n,
{
    if n > 0 && !(count_true(places(s, refs, n - 1)) == 1 && cand_at(s, refs, n - 1, j)) {
        lemma_solo_upto_some(s, refs, j, n - 1);
    }
}

/// The references of box, column and row `i` name cells.
pub proof fn lemma_unit_refs_name_cells(i: int)
    requires
        0 <= i < 9,
    ensures
        forall|j: int| 0 <= j < 9 ==> names_cell(#[trigger] box_refs(i)[j]),
        forall|j: int| 0 <= j < 9 ==> names_cell(#[trigger] col_refs(i)[j]),
        forall|j: int| 0 <= j < 9 ==> names_cell(#[trigger] row_refs(i)[j]),
{
    assert forall|j: int| 0 <= j < 9 implies names_cell(#[trigger] box_refs(i)[j]) by {
        crate::board_utils::lemma_box_reference(i, j);
    }
    assert forall|j: int| 0 <= j < 9 implies names_cell(#[trigger] col_refs(i)[j]) by {
        assert(((j + 1) as u8) == j + 1);
        assert(((i + 1) as u8) == i + 1);
    }
    assert forall|j: int| 0 <= j < 9 implies names_cell(#[trigger] row_refs(i)[j]) by {
        assert(((j + 1) as u8) == j + 1);
        assert(((i + 1) as u8) == i + 1);
    }
}

proof fn lemma_all_pick_concat(s: Seq<Node>, a: Seq<Change>, b: Seq<Change>)
    requires
        all_pick(s, a),
        all_pick(s, b),
    ensures
        all_pick(s, a + b),
{
    assert forall|i: int| 0 <= i < (a + b).len() implies picks_candidate(s, #[trigger] (a + b)[i]) by {
        if i < a.len() {
            assert((a + b)[i] == a[i]);
        } else {
            assert((a + b)[i] == b[i - a.len()]);
        }
    }
}

proof fn lemma_unit_solos_pick(s: Seq<Node>, refs: Seq<Reference>, n: int)
    requires
        n <= 9,
        forall|j: int| 0 <= j < 9 ==> names_cell(#[trigger] refs[j]),
    ensures
        all_pick(s, collect(n, solo_change(s, refs))),
    decreases n,
{
    if n > 0 {
        lemma_unit_solos_pick(s, refs, n - 1);
        let o = solo_change(s, refs)(n - 1);
        if o is Some {
            lemma_solo_upto_some(s, refs, n - 1, 9);
        }
        lemma_all_pick_concat(s, collect(n - 1, solo_change(s, refs)), opt_seq(o));
    }
}

pub proof fn lemma_solo_changes_pick(s: Seq<Node>, n: int)
    requires
        n <= 9,
    ensures
        all_pick(s, solo_changes_upto(s, n)),
    decreases n,
{
    if n > 0 {
        lemma_solo_changes_pick(s, n - 1);
        lemma_unit_refs_name_cells(n - 1);
        lemma_unit_solos_pick(s, box_refs(n - 1), 9);
        lemma_unit_solos_pick(s, col_refs(n - 1), 9);
        lemma_unit_solos_pick(s, row_refs(n - 1), 9);
        let a = solo_changes_upto(s, n - 1);
        let b = unit_solos(s, box_refs(n - 1));
        let c = unit_solos(s, col_refs(n - 1));
        let d = unit_solos(s, row_refs(n - 1));
        lemma_all_pick_concat(s, a, b);
        lemma_all_pick_concat(s, a + b, c);
        lemma_all_pick_concat(s, a + b + c, d);
    }
}

/// Applying changes that each pick a candidate of a cell of `s` narrows the
/// cells, leaves each either as it was or definite, and changes some cell
/// as soon as there is a change.
proof fn lemma_apply_picks(s: Seq<Node>, cs: Seq<Change>, t: Seq<Node>)
    requires
        s.len() == 81,
        all_pick(s, cs),
        apply_changes(s, cs) == Outcome::Board(t),
    ensures
        narrows_all(s, t),
        forall|c: int| 0 <= c < 81 ==> #[trigger] t[c] == s[c] || (t[c].value is Def && s[c].value is Pos),
        cs.len() > 0 ==> t != s,
    decreases cs.len(),
{
    if cs.len() > 0 {
        let init = cs.drop_last();
        assert(all_pick(s, init)) by {
            assert forall|i: int| 0 <= i < init.len() implies picks_candidate(s, #[trigger] init[i]) by {
                assert(init[i] == cs[i]);
            }
        }
        let t1 = apply_changes(s, init)->Board_0;
        lemma_apply_picks(s, init, t1);
        let ch = cs.last();
        assert(picks_candidate(s, cs[cs.len() - 1]));
        let c = spec_ordinal(ch.0);
        assert(t == set_value(t1, c, ch.1));
        if t1[c] == s[c] {
            assert(t[c] != s[c]);
        } else {
            assert(t[c] == t1[c]);
            assert(t =~= t1);
        }
        assert forall|c2: int| 0 <= c2 < 81 implies narrows(#[trigger] s[c2], t[c2]) by {
            if c2 != c {
                assert(t[c2] == t1[c2]);
            }
        }
    } else {
        assert(t == s);
    }
}

/// Filling the solos only narrows the cells, and changes them exactly when
/// there are solo changes.
pub proof fn lemma_solos_progress(s: Seq<Node>, t: Seq<Node>)
    requires
        s.len() == 81,
        apply_changes(s, solo_changes(s)) == Outcome::Board(t),
    ensures
        step_progress(s, Some((t, solo_changes(s)))),
{
    lemma_solo_changes_pick(s, 9);
    lemma_apply_picks(s, solo_changes(s), t);
    if solo_changes(s).len() == 0 {
        assert(t == s);
    }
}

// ---------------------------------------------------------------------------
// Groups
// ---------------------------------------------------------------------------
/// The group search of one kind only narrows the cells, and changes them
/// exactly when it records a change.
pub proof fn lemma_find_groups_progress(s: Seq<Node>, how: Option<bool>)
    requires
        s.len() == 81,
    ensures
        step_progress(s, find_groups_spec(s, how)),
{
    if let Some((t, cs)) = find_groups_spec(s, how) {
        lemma_unit_geometry(how);
        assert forall|c: int| 0 <= c < 81 implies narrows(#[trigger] s[c], t[c]) by {
            let i = unit_of(how, c);
            let j = unit_pos(how, c);
            let d = unit_depth(s, how, i, 2);
            lemma_grp_change_narrows(s, how, i, d, j);
            assert(unit_nodes(s, how, i)[j] == s[c]);
        }
        if cs.len() == 0 {
            lemma_groups_idle(s, how);
        } else {
            lemma_groups_changes_some(s, how, 9);
            let i = choose|i: int| 0 <= i < 9 && (#[trigger] unit_changes(s, how, i)).len() > 0;
            let d = unit_depth(s, how, i, 2);
            assert(d < 9);
            let f = grp_change(s, how, i, d);
            if forall|j: int| 0 <= j < 9 ==> #[trigger] f(j) is None {
                crate::disclusion::lemma_collect_none(9, f);
            }
            let j = choose|j: int| 0 <= j < 9 && #[trigger] f(j) is Some;
            let c = unit_cell(how, i, j);
            lemma_grp_change_narrows(s, how, i, d, j);
            assert(unit_nodes(s, how, i)[j] == s[c]);
            assert(t[c].value != s[c].value);
        }
    }
}

/// The group search over boxes, rows and columns only narrows the cells,
/// and changes them exactly when it records a change.
pub proof fn lemma_find_all_groups_progress(s: Seq<Node>)
    requires
        s.len() == 81,
    ensures
        step_progress(s, find_all_groups_spec(s)),
{
    lemma_find_groups_progress(s, None);
    if let Some((t1, c1)) = find_groups_spec(s, None) {
        if c1.len() == 0 {
            lemma_find_groups_progress(t1, Some(true));
            if let Some((t2, c2)) = find_groups_spec(t1, Some(true)) {
                if c2.len() == 0 {
                    lemma_find_groups_progress(t2, Some(false));
                    if let Some((t3, c3)) = find_groups_spec(t2, Some(false)) {
                        assert((c1 + c2 + c3).len() == c3.len());
                    }
                } else {
                    assert((c1 + c2).len() == c2.len());
                }
            }
        }
    }
}

} // verus!
