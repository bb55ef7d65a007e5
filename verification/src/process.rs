use vstd::prelude::*;

use crate::disclusion::{find_all_groups_spec, find_groups_spec, lemma_no_solos_groups_defined};
use crate::progress::{
    cells_wf, lemma_box_elimination_progress, lemma_depossibilize_progress,
    lemma_direct_elimination_progress, lemma_final_quantum_progress,
    lemma_find_all_groups_progress, lemma_narrows_trans, lemma_narrows_wf,
    lemma_quantum_double_progress, lemma_solos_progress, narrows, narrows_all, step_progress,
};
use crate::quantum_utils::{final_quantum_spec, quantum_double_spec};
use crate::solos::solo_changes;
use crate::solver::{box_elimination_spec, depossibilize_spec, direct_elimination_spec, step_matches};
use crate::board_utils::with_digit;
use crate::utils::{
    Board, Change, Node, Outcome, Reference, SudokuError, Value, apply_changes, cell_wf,
    contains_change, count_true, filter_map, lemma_filter_map_empty, set_value, spec_ordinal,
};

verus! {

// ---------------------------------------------------------------------------
// Model of the full processing
// ---------------------------------------------------------------------------
/// Tier one: direct elimination, then box elimination, then making definite
/// the cells with a single candidate; the changes of all three.
pub open spec fn tier_one_spec(s: Seq<Node>) -> Option<(Seq<Node>, Seq<Change>)> {
    match direct_elimination_spec(s) {
        None => None,
        Some((t1, c1)) => match box_elimination_spec(t1) {
            None => None,
            Some((t2, c2)) => Some((depossibilize_spec(t2).0, c1 + c2 + depossibilize_spec(t2).1)),
        },
    }
}

/// Tier two: the solo changes, applied in order.
pub open spec fn solos_spec(s: Seq<Node>) -> Option<(Seq<Node>, Seq<Change>)> {
    match apply_changes(s, solo_changes(s)) {
        Outcome::Board(t) => Some((t, solo_changes(s))),
        _ => None,
    }
}

/// The final quantum step, then the quantum double step if the first
/// changed nothing.
pub open spec fn quantum_tiers_spec(s: Seq<Node>) -> Option<(Seq<Node>, Seq<Change>)> {
    match final_quantum_spec(s) {
        None => None,
        Some((t4, c4)) => if c4.len() > 0 {
            Some((t4, c4))
        } else {
            quantum_double_spec(t4)
        },
    }
}

/// The group search, then the quantum tiers if it changed nothing.
pub open spec fn group_tiers_spec(s: Seq<Node>) -> Option<(Seq<Node>, Seq<Change>)> {
    match find_all_groups_spec(s) {
        None => None,
        Some((t3, c3)) => if c3.len() > 0 {
            Some((t3, c3))
        } else {
            quantum_tiers_spec(t3)
        },
    }
}

/// The tiers from the solos on, each tried only where the ones before it
/// changed nothing.
pub open spec fn later_tiers_spec(s: Seq<Node>) -> Option<(Seq<Node>, Seq<Change>)> {
    match solos_spec(s) {
        None => None,
        Some((t2, c2)) => if c2.len() > 0 {
            Some((t2, c2))
        } else {
            group_tiers_spec(t2)
        },
    }
}

/// One round of processing: the first tier that changes something gives
/// the result; `None` where a tier finds a contradiction.
pub open spec fn full_processing_spec(s: Seq<Node>) -> Option<(Seq<Node>, Seq<Change>)> {
    match tier_one_spec(s) {
        None => None,
        Some((t, cs)) => if cs.len() > 0 {
            Some((t, cs))
        } else {
            later_tiers_spec(t)
        },
    }
}

/// Where the processing reaches the solos, their changes can be applied in
/// order: no cell is the only place of two different digits.
pub open spec fn full_processing_safe(s: Seq<Node>) -> bool {
    match tier_one_spec(s) {
        Some((t, cs)) => cs.len() == 0 ==> !(apply_changes(t, solo_changes(t)) is Invalid),
        None => true,
    }
}

// ---------------------------------------------------------------------------
// Laws
// ---------------------------------------------------------------------------
/// Narrowing both ways leaves the cells as they were.
pub proof fn lemma_narrows_antisym(s: Seq<Node>, t: Seq<Node>)
    requires
        narrows_all(s, t),
        narrows_all(t, s),
    ensures
        s == t,
{
    assert forall|c: int| 0 <= c < s.len() implies #[trigger] s[c] == t[c] by {
        assert(narrows(s[c], t[c]));
        assert(narrows(t[c], s[c]));
        if s[c] != t[c] {
            assert(s[c].value->Pos_0 =~= t[c].value->Pos_0);
        }
    }
    assert(s =~= t);
}

/// Tier one only narrows the cells, and changes them exactly when it
/// records a change.
pub proof fn lemma_tier_one_progress(s: Seq<Node>)
    requires
        s.len() == 81,
    ensures
        step_progress(s, tier_one_spec(s)),
{
    lemma_direct_elimination_progress(s);
    if let Some((t1, c1)) = direct_elimination_spec(s) {
        lemma_box_elimination_progress(t1);
        if let Some((t2, c2)) = box_elimination_spec(t1) {
            lemma_depossibilize_progress(t2);
            let (t3, c3) = depossibilize_spec(t2);
            lemma_narrows_trans(s, t1, t2);
            lemma_narrows_trans(s, t2, t3);
            if t3 == s {
                lemma_narrows_trans(t1, t2, t3);
                lemma_narrows_antisym(s, t1);
                lemma_narrows_antisym(t1, t2);
            }
        }
    }
}

/// One round of processing only narrows the cells, and changes them
/// exactly when it records a change.
pub proof fn lemma_full_processing_progress(s: Seq<Node>)
    requires
        s.len() == 81,
    ensures
        step_progress(s, full_processing_spec(s)),
{
    lemma_tier_one_progress(s);
    if let Some((t, cs)) = tier_one_spec(s) {
        if cs.len() == 0 {
            if let Some((t2, c2)) = solos_spec(t) {
                lemma_solos_progress(t, t2);
                if c2.len() == 0 {
                    lemma_find_all_groups_progress(t2);
                    if let Some((t3, c3)) = find_all_groups_spec(t2) {
                        if c3.len() == 0 {
                            lemma_final_quantum_progress(t3);
                            if let Some((t4, c4)) = final_quantum_spec(t3) {
                                if c4.len() == 0 {
                                    lemma_quantum_double_progress(t4);
                                }
                            }
                        }
                    }
                }
            }
        }
    }
}

/// A round of processing keeps the cells well formed.
pub proof fn lemma_full_processing_wf(s: Seq<Node>)
    requires
        cells_wf(s),
    ensures
        full_processing_spec(s) matches Some((t, cs)) ==> cells_wf(t),
{
    lemma_full_processing_progress(s);
    if let Some((t, cs)) = full_processing_spec(s) {
        lemma_narrows_wf(s, t);
    }
}

/// Narrowing a board on which every cell is definite leaves it as it is.
proof fn lemma_narrows_solved(s: Seq<Node>, t: Seq<Node>)
    requires
        solved(s),
        narrows_all(s, t),
    ensures
        t == s,
{
    assert forall|c: int| 0 <= c < s.len() implies #[trigger] t[c] == s[c] by {
        assert(narrows(s[c], t[c]));
    }
    assert(t =~= s);
}

/// On a board where every cell is definite, a round of processing changes
/// nothing and meets no clash.
pub proof fn lemma_solved_is_fixed(s: Seq<Node>)
    requires
        s.len() == 81,
        solved(s),
    ensures
        full_processing_safe(s),
        full_processing_spec(s) == Some((s, Seq::<Change>::empty())),
{
    lemma_direct_elimination_progress(s);
    assert(direct_elimination_spec(s) is Some);
    let (t1, c1) = direct_elimination_spec(s)->Some_0;
    lemma_narrows_solved(s, t1);
    lemma_box_elimination_progress(s);
    assert(box_elimination_spec(s) is Some);
    let (t2, c2) = box_elimination_spec(s)->Some_0;
    lemma_narrows_solved(s, t2);
    lemma_depossibilize_progress(s);
    let (t3, c3) = depossibilize_spec(s);
    lemma_narrows_solved(s, t3);
    assert(tier_one_spec(s) == Some((s, c1 + c2 + c3)));
    assert((c1 + c2 + c3).len() == 0);
    assert(solo_changes(s).len() == 0) by {
        if solo_changes(s).len() > 0 {
            crate::progress::lemma_solo_changes_pick(s, 9);
            assert(crate::progress::picks_candidate(s, solo_changes(s)[0]));
        }
    }
    assert(solos_spec(s) == Some((s, solo_changes(s))));
    lemma_groups_solved(s, None);
    lemma_groups_solved(s, Some(true));
    lemma_groups_solved(s, Some(false));
    assert(find_all_groups_spec(s) == Some((s, Seq::<Change>::empty())));
    lemma_final_quantum_progress(s);
    assert(final_quantum_spec(s) is Some);
    lemma_narrows_solved(s, final_quantum_spec(s)->Some_0.0);
    lemma_quantum_double_progress(s);
    assert(quantum_double_spec(s) is Some);
    lemma_narrows_solved(s, quantum_double_spec(s)->Some_0.0);
}

/// On a board where every cell is definite, the group search of any kind
/// changes nothing.
proof fn lemma_groups_solved(s: Seq<Node>, how: Option<bool>)
    requires
        s.len() == 81,
        solved(s),
    ensures
        find_groups_spec(s, how) == Some((s, Seq::<Change>::empty())),
{
    crate::disclusion::lemma_unit_geometry(how);
    assert forall|c: int| 0 <= c < 81 implies !#[trigger] crate::disclusion::group_fails(s, how, c) by {
        let i = crate::disclusion::unit_of(how, c);
        let j = crate::disclusion::unit_pos(how, c);
        let d = crate::disclusion::unit_depth(s, how, i, 2);
        crate::disclusion::lemma_grp_change_narrows(s, how, i, d, j);
        assert(crate::disclusion::unit_nodes(s, how, i)[j] == s[c]);
    }
    crate::progress::lemma_find_groups_progress(s, how);
    lemma_narrows_solved(s, find_groups_spec(s, how)->Some_0.0);
}

// ---------------------------------------------------------------------------
// Code
// ---------------------------------------------------------------------------
proof fn lemma_wf_cells(b: Board)
    ensures
        b.wf() <==> cells_wf(b.spaces@),
{
}

impl Board {
    /// One round of processing: tier one (direct elimination, box
    /// elimination, single candidates); if it changes nothing, the solos;
    /// then the groups; then the final quantum step; then the quantum
    /// double step. Returns the board after the first tier that changes
    /// something, with that tier's changes.
    pub fn full_processing(self) -> (r: Result<(Self, Vec<Change>), SudokuError>)
        requires
            self.wf(),
            full_processing_safe(self.spaces@),
        ensures
            step_matches(r, full_processing_spec(self.spaces@)),
    {
        let ghost s = self.spaces@;
        proof {
            lemma_wf_cells(self);
            lemma_direct_elimination_progress(s);
        }
        let (board, mut all_changes) = self.direct_elimination()?;
        proof {
            lemma_narrows_wf(s, board.spaces@);
            lemma_box_elimination_progress(board.spaces@);
        }
        let ghost t1 = board.spaces@;
        let (board, mut changes) = board.box_elimination()?;
        all_changes.append(&mut changes);
        proof {
            lemma_narrows_wf(t1, board.spaces@);
        }
        let (board, mut changes) = board.depossibilize()?;
        all_changes.append(&mut changes);
        if all_changes.len() > 0 {
            return Ok((board, all_changes));
        }
        let ghost t = board.spaces@;
        proof {
            lemma_tier_one_progress(s);
            lemma_narrows_wf(s, t);
        }
        let (board, mut changes) = board.fill_all_solos()?;
        all_changes.append(&mut changes);
        if all_changes.len() > 0 {
            return Ok((board, all_changes));
        }
        proof {
            assert(board.spaces@ == t);
            lemma_no_solos_groups_defined(t);
            lemma_find_all_groups_progress(t);
        }
        let (board, mut changes) = board.find_all_groups()?;
        all_changes.append(&mut changes);
        if all_changes.len() > 0 {
            return Ok((board, all_changes));
        }
        proof {
            assert(board.spaces@ == t);
        }
        let (board, mut changes) = board.final_quantum()?;
        all_changes.append(&mut changes);
        if all_changes.len() > 0 {
            return Ok((board, all_changes));
        }
        proof {
            lemma_final_quantum_progress(t);
            assert(board.spaces@ == t);
        }
        let (board, mut changes) = board.quantum_double()?;
        all_changes.append(&mut changes);
        Ok((board, all_changes))
    }
}

impl Board {
    /// Whether `full_processing` would reach solo changes that cannot all
    /// be applied: a cell that is the only place of two different digits.
    pub fn full_processing_clash(&self) -> (r: bool)
        requires
            self.wf(),
        ensures
            r == !full_processing_safe(self.spaces@),
    {
        let ghost s = self.spaces@;
        proof {
            lemma_wf_cells(*self);
            lemma_direct_elimination_progress(s);
        }
        let board = *self;
        let (board, mut all_changes) = match board.direct_elimination() {
            Ok(res) => res,
            Err(_) => {
                return false;
            },
        };
        proof {
            lemma_narrows_wf(s, board.spaces@);
        }
        let (board, mut changes) = match board.box_elimination() {
            Ok(res) => res,
            Err(_) => {
                return false;
            },
        };
        all_changes.append(&mut changes);
        let (board, mut changes) = match board.depossibilize() {
            Ok(res) => res,
            Err(_) => {
                return false;
            },
        };
        all_changes.append(&mut changes);
        if all_changes.len() > 0 {
            return false;
        }
        let solos = board.solo_changes();
        !board.can_take_changes(&solos)
    }
}

// ---------------------------------------------------------------------------
// Candidates left
// ---------------------------------------------------------------------------
/// The candidates of a cell that is not definite; none for a definite one.
pub open spec fn cell_candidates(n: Node) -> nat {
    match n.value {
        Value::Pos(p) => count_true(p@),
        Value::Def(_) => 0,
    }
}

/// The candidates left on all the cells.
pub open spec fn candidates_left(s: Seq<Node>) -> nat
    decreases s.len(),
{
    if s.len() == 0 {
        0
    } else {
        candidates_left(s.drop_last()) + cell_candidates(s.last())
    }
}

/// Flags that imply others are no more, and fewer if they differ.
pub proof fn lemma_count_within(q: Seq<bool>, p: Seq<bool>)
    requires
        q.len() == p.len(),
        forall|k: int| 0 <= k < q.len() ==> #[trigger] q[k] ==> p[k],
    ensures
        count_true(q) <= count_true(p),
        q != p ==> count_true(q) < count_true(p),
    decreases q.len(),
{
    if q.len() > 0 {
        let q1 = q.drop_last();
        let p1 = p.drop_last();
        assert forall|k: int| 0 <= k < q1.len() && #[trigger] q1[k] implies p1[k] by {
            assert(q1[k] == q[k] && p1[k] == p[k]);
        }
        assert(q[q.len() - 1] ==> p[p.len() - 1]);
        lemma_count_within(q1, p1);
        if q != p && q.drop_last() == p.drop_last() {
            assert(q.last() != p.last()) by {
                if q.last() == p.last() {
                    assert forall|k: int| 0 <= k < q.len() implies q[k] == p[k] by {
                        if k < q.len() - 1 {
                            assert(q.drop_last()[k] == p.drop_last()[k]);
                        }
                    }
                    assert(q =~= p);
                }
            }
        }
    } else {
        assert(q =~= p);
    }
}

proof fn lemma_cell_candidates(a: Node, b: Node)
    requires
        narrows(a, b),
    ensures
        cell_candidates(b) <= cell_candidates(a),
        b != a ==> cell_candidates(b) < cell_candidates(a),
{
    if b != a {
        let p = a.value->Pos_0;
        match b.value {
            Value::Pos(q) => {
                assert(q@ != p@) by {
                    if q@ == p@ {
                        assert(q == p);
                    }
                }
                lemma_count_within(q@, p@);
            },
            Value::Def(d) => {
                crate::utils::lemma_count_true_zero(p@);
                assert(p@[d - 1]);
            },
        }
    }
}

/// Narrowing never adds candidates, and removes some whenever it changes a
/// cell.
pub proof fn lemma_candidates_left(s: Seq<Node>, t: Seq<Node>)
    requires
        narrows_all(s, t),
    ensures
        candidates_left(t) <= candidates_left(s),
        t != s ==> candidates_left(t) < candidates_left(s),
    decreases s.len(),
{
    if s.len() > 0 {
        let s1 = s.drop_last();
        let t1 = t.drop_last();
        assert(narrows_all(s1, t1)) by {
            assert forall|c: int| 0 <= c < s1.len() implies narrows(#[trigger] s1[c], t1[c]) by {
                assert(narrows(s[c], t[c]));
            }
        }
        lemma_candidates_left(s1, t1);
        assert(narrows(s[s.len() - 1], t[t.len() - 1]));
        lemma_cell_candidates(s.last(), t.last());
        if t != s && t1 == s1 {
            assert(t.last() != s.last()) by {
                if t.last() == s.last() {
                    assert forall|k: int| 0 <= k < t.len() implies t[k] == s[k] by {
                        if k < t.len() - 1 {
                            assert(t1[k] == s1[k]);
                        }
                    }
                    assert(t =~= s);
                }
            }
        }
    } else {
        assert(t =~= s);
    }
}

/// One round of processing that records a change leaves fewer candidates.
pub proof fn lemma_full_processing_shrinks(s: Seq<Node>)
    requires
        s.len() == 81,
        full_processing_spec(s) matches Some((t, cs)) && cs.len() > 0,
    ensures
        candidates_left(full_processing_spec(s)->Some_0.0) < candidates_left(s),
{
    lemma_full_processing_progress(s);
    lemma_candidates_left(s, full_processing_spec(s)->Some_0.0);
}

// ---------------------------------------------------------------------------
// Hypotheses
// ---------------------------------------------------------------------------
/// The hypothesis numbered `u`: cell `u / 9`, named by its coordinates,
/// holds digit `u % 9 + 1`.
pub open spec fn trial(s: Seq<Node>, u: int) -> Change {
    Change(Reference::XY((s[u / 9].x, s[u / 9].y)), Value::Def((u % 9 + 1) as u8))
}

/// Hypothesis `u` is open: the digit is a candidate of its cell, and the
/// hypothesis is not among the attempts.
pub open spec fn untried(s: Seq<Node>, a: Seq<Change>, u: int) -> bool {
    &&& s[u / 9].value is Pos
    &&& s[u / 9].value->Pos_0[u % 9]
    &&& !a.contains(trial(s, u))
}

/// The first open hypothesis from number `u` on.
pub open spec fn first_untried(s: Seq<Node>, a: Seq<Change>, u: int) -> Option<int>
    decreases 729 - u,
{
    if u >= 729 {
        None
    } else if untried(s, a, u) {
        Some(u)
    } else {
        first_untried(s, a, u + 1)
    }
}

/// The first open hypothesis, cell by cell and digit by digit.
pub open spec fn find_change_spec(s: Seq<Node>, a: Seq<Change>) -> Option<Change> {
    match first_untried(s, a, 0) {
        Some(u) => Some(trial(s, u)),
        None => None,
    }
}

proof fn lemma_first_untried_found(s: Seq<Node>, a: Seq<Change>, u0: int, u: int)
    requires
        0 <= u0 <= u < 729,
        forall|v: int| u0 <= v < u ==> !#[trigger] untried(s, a, v),
        untried(s, a, u),
    ensures
        first_untried(s, a, u0) == Some(u),
    decreases u - u0,
{
    if u0 < u {
        lemma_first_untried_found(s, a, u0 + 1, u);
    }
}

proof fn lemma_first_untried_none(s: Seq<Node>, a: Seq<Change>, u0: int)
    requires
        0 <= u0,
        forall|v: int| u0 <= v < 729 ==> !#[trigger] untried(s, a, v),
    ensures
        first_untried(s, a, u0) is None,
    decreases 729 - u0,
{
    if u0 < 729 {
        lemma_first_untried_none(s, a, u0 + 1);
    }
}

/// The first open hypothesis is open.
pub proof fn lemma_first_untried_open(s: Seq<Node>, a: Seq<Change>, u0: int)
    requires
        0 <= u0,
    ensures
        first_untried(s, a, u0) matches Some(u) ==> u0 <= u < 729 && untried(s, a, u),
    decreases 729 - u0,
{
    if u0 < 729 && !untried(s, a, u0) {
        lemma_first_untried_open(s, a, u0 + 1);
    }
}

/// The number of open hypotheses.
pub open spec fn untried_count(s: Seq<Node>, a: Seq<Change>) -> nat {
    count_true(Seq::new(729, |u: int| untried(s, a, u)))
}

/// Recording an open hypothesis as attempted leaves fewer open ones.
pub proof fn lemma_untried_shrinks(s: Seq<Node>, a: Seq<Change>, u: int)
    requires
        0 <= u < 729,
        untried(s, a, u),
    ensures
        untried_count(s, a.push(trial(s, u))) < untried_count(s, a),
{
    let b = a.push(trial(s, u));
    let q = Seq::new(729, |v: int| untried(s, b, v));
    let p = Seq::new(729, |v: int| untried(s, a, v));
    assert forall|k: int| 0 <= k < q.len() && #[trigger] q[k] implies p[k] by {
        if q[k] && !a.contains(trial(s, k)) {
        } else if q[k] {
            let j = choose|j: int| 0 <= j < a.len() && a[j] == trial(s, k);
            assert(b[j] == a[j]);
        }
    }
    assert(b[a.len() as int] == trial(s, u));
    assert(!q[u] && p[u]);
    lemma_count_within(q, p);
}

/// Every cell is definite.
pub open spec fn solved(s: Seq<Node>) -> bool {
    forall|c: int| 0 <= c < s.len() ==> (#[trigger] s[c]).value is Def
}

/// How processing a hypothesis, or searching through them, ends.
pub enum SearchOutcome {
    /// Every cell became definite.
    Solved(Seq<Node>),
    /// A round of processing found a contradiction.
    Refuted,
    /// Every hypothesis was refuted.
    Exhausted,
    /// A round of processing would meet solo changes that cannot all be
    /// applied.
    Clash,
    /// A round of processing changed nothing on an unsolved board.
    Stalled,
}

/// Processes the cells round after round until they are solved, a round
/// finds a contradiction, would meet clashing solos, or changes nothing.
pub open spec fn settle(s: Seq<Node>) -> SearchOutcome
    decreases candidates_left(s),
    when s.len() == 81
{
    if !full_processing_safe(s) {
        SearchOutcome::Clash
    } else {
        match full_processing_spec(s) {
            None => SearchOutcome::Refuted,
            Some((t, cs)) => if solved(t) {
                SearchOutcome::Solved(t)
            } else if cs.len() == 0 {
                SearchOutcome::Stalled
            } else {
                proof {
                    lemma_full_processing_progress(s);
                    lemma_full_processing_shrinks(s);
                }
                settle(t)
            },
        }
    }
}

/// The cells with the hypothesis filled in.
pub open spec fn hypothesis(s: Seq<Node>, ch: Change) -> Seq<Node> {
    set_value(s, spec_ordinal(ch.0), ch.1)
}

/// Tries the open hypotheses in order, each on the cells `s`, recording the
/// refuted ones as attempted, until one ends otherwise than refuted.
pub open spec fn search(s: Seq<Node>, a: Seq<Change>) -> SearchOutcome
    decreases untried_count(s, a),
    when s.len() == 81
{
    match first_untried(s, a, 0) {
        None => SearchOutcome::Exhausted,
        Some(u) => {
            let ch = trial(s, u);
            match settle(hypothesis(s, ch)) {
                SearchOutcome::Refuted => {
                    proof {
                        lemma_first_untried_open(s, a, 0);
                        lemma_untried_shrinks(s, a, u);
                    }
                    search(s, a.push(ch))
                },
                other => other,
            }
        },
    }
}

/// On well-formed cells, no cell is reported as holding no digit exactly
/// when every cell is definite.
pub proof fn lemma_finished_iff_solved(s: Seq<Node>)
    requires
        cells_wf(s),
    ensures
        filter_map(s, with_digit(0)).len() == 0 <==> solved(s),
{
    lemma_filter_map_empty(s, with_digit(0));
    if solved(s) {
        assert forall|c: int| 0 <= c < s.len() implies #[trigger] with_digit(0)(s[c]) is None by {
            assert(cell_wf(s[c], c));
        }
    }
    if filter_map(s, with_digit(0)).len() == 0 {
        assert forall|c: int| 0 <= c < s.len() implies (#[trigger] s[c]).value is Def by {
            assert(with_digit(0)(s[c]) is None);
        }
    }
}

/// A board that processing round after round leaves solved has every cell
/// definite, and only narrows the cells it started from.
pub proof fn lemma_settle_solved(s: Seq<Node>)
    requires
        s.len() == 81,
    ensures
        settle(s) matches SearchOutcome::Solved(t) ==> solved(t) && narrows_all(s, t),
    decreases candidates_left(s),
{
    if full_processing_safe(s) {
        if let Some((t, cs)) = full_processing_spec(s) {
            lemma_full_processing_progress(s);
            if !solved(t) && cs.len() > 0 {
                lemma_full_processing_shrinks(s);
                lemma_settle_solved(t);
                if let SearchOutcome::Solved(u) = settle(t) {
                    lemma_narrows_trans(s, t, u);
                }
            }
        }
    }
}

/// Filling in an open hypothesis narrows the cells.
pub proof fn lemma_hypothesis_narrows(s: Seq<Node>, a: Seq<Change>, u: int)
    requires
        cells_wf(s),
        0 <= u < 729,
        untried(s, a, u),
    ensures
        narrows_all(s, hypothesis(s, trial(s, u))),
{
    let c = u / 9;
    assert(cell_wf(s[c], c));
    assert(spec_ordinal(trial(s, u).0) == c);
    let h = hypothesis(s, trial(s, u));
    assert forall|i: int| 0 <= i < s.len() implies narrows(#[trigger] s[i], h[i]) by {
        if i == c {
            assert(h[i].value == Value::Def((u % 9 + 1) as u8));
        }
    }
}

/// A search that ends with a solved board gives a board on which every cell
/// is definite, and which only narrows the cells the search started from:
/// no definite cell changes, and each cell becomes one of its candidates.
pub proof fn lemma_search_solved(s: Seq<Node>, a: Seq<Change>)
    requires
        cells_wf(s),
    ensures
        search(s, a) matches SearchOutcome::Solved(t) ==> solved(t) && narrows_all(s, t),
    decreases untried_count(s, a),
{
    if let Some(u) = first_untried(s, a, 0) {
        lemma_first_untried_open(s, a, 0);
        let ch = trial(s, u);
        let h = hypothesis(s, ch);
        lemma_hypothesis_narrows(s, a, u);
        lemma_settle_solved(h);
        match settle(h) {
            SearchOutcome::Refuted => {
                lemma_untried_shrinks(s, a, u);
                lemma_search_solved(s, a.push(ch));
            },
            SearchOutcome::Solved(t) => {
                lemma_narrows_trans(s, h, t);
            },
            _ => {},
        }
    }
}

/// How a simulation ends.
pub enum Simulation {
    /// The board is solved.
    Solved(Board),
    /// The hypothesis was refuted.
    Refuted,
    /// Every hypothesis was refuted.
    Exhausted,
    /// Processing met solo changes that cannot all be applied.
    Clash,
    /// Processing stopped changing an unsolved board.
    Stalled,
}

/// The simulation result `r` is the outcome `o`.
pub open spec fn simulation_is(r: Simulation, o: SearchOutcome) -> bool {
    match r {
        Simulation::Solved(b) => o == SearchOutcome::Solved(b.spaces@),
        Simulation::Refuted => o == SearchOutcome::Refuted,
        Simulation::Exhausted => o == SearchOutcome::Exhausted,
        Simulation::Clash => o == SearchOutcome::Clash,
        Simulation::Stalled => o == SearchOutcome::Stalled,
    }
}

impl Board {
    /// The first change, cell by cell and digit by digit, that makes a cell
    /// definite with one of its candidates and is not among the attempts.
    pub fn find_change(&self, change_attempts: &Vec<Change>) -> (r: Option<Change>)
        ensures
            r == find_change_spec(self.spaces@, change_attempts@),
    {
        let ghost s = self.spaces@;
        let ghost a = change_attempts@;
        let mut c: usize = 0;
        while c < 81
            invariant
                c <= 81,
                s == self.spaces@,
                a == change_attempts@,
                forall|v: int| 0 <= v < 9 * c ==> !#[trigger] untried(s, a, v),
            decreases 81 - c,
        {
            let node = self.spaces[c];
            if let Value::Pos(p) = node.value {
                let mut i: usize = 0;
                while i < 9
                    invariant
                        c < 81,
                        i <= 9,
                        s == self.spaces@,
                        a == change_attempts@,
                        node == s[c as int],
                        node.value == Value::Pos(p),
                        forall|v: int| 0 <= v < 9 * c + i ==> !#[trigger] untried(s, a, v),
                    decreases 9 - i,
                {
                    if p[i] {
                        let potential = Change(Reference::XY((node.x, node.y)), Value::Def((i + 1) as u8));
                        let ghost u = 9 * c + i;
                        assert(u / 9 == c && u % 9 == i);
                        assert(potential == trial(s, u));
                        if !contains_change(change_attempts, &potential) {
                            proof {
                                lemma_first_untried_found(s, a, 0, u);
                            }
                            return Some(potential);
                        }
                    }
                    proof {
                        let u = 9 * c + i;
                        assert(u / 9 == c && u % 9 == i);
                    }
                    i += 1;
                }
            } else {
                proof {
                    assert forall|v: int| 0 <= v < 9 * c + 9 implies !#[trigger] untried(s, a, v) by {
                        if v >= 9 * c {
                            assert(v / 9 == c);
                        }
                    }
                }
            }
            c += 1;
        }
        proof {
            lemma_first_untried_none(s, a, 0);
        }
        None
    }
}

/// Processes the board round after round, as `settle` describes.
fn settle_board(board: Board) -> (r: Simulation)
    requires
        board.wf(),
    ensures
        simulation_is(r, settle(board.spaces@)),
{
    let mut b = board;
    loop
        invariant
            b.wf(),
            settle(b.spaces@) == settle(board.spaces@),
        decreases candidates_left(b.spaces@),
    {
        proof {
            lemma_wf_cells(b);
        }
        if b.full_processing_clash() {
            return Simulation::Clash;
        }
        let ghost s = b.spaces@;
        match b.full_processing() {
            Err(_) => {
                return Simulation::Refuted;
            },
            Ok((next, changes)) => {
                proof {
                    lemma_full_processing_progress(s);
                    lemma_narrows_wf(s, next.spaces@);
                    lemma_wf_cells(next);
                    lemma_filter_map_empty(next.spaces@, with_digit(0));
                }
                if next.get_spaces_with(0).len() == 0 {
                    proof {
                        assert forall|c: int| 0 <= c < 81 implies (#[trigger] next.spaces@[c]).value is Def by {
                            assert(with_digit(0)(next.spaces@[c]) is None);
                        }
                    }
                    return Simulation::Solved(next);
                }
                proof {
                    let c = choose|c: int| 0 <= c < 81 && !(with_digit(0)(#[trigger] next.spaces@[c]) is None);
                    assert(!solved(next.spaces@));
                }
                if changes.len() == 0 {
                    return Simulation::Stalled;
                }
                proof {
                    lemma_full_processing_shrinks(s);
                }
                b = next;
            },
        }
    }
}

impl Board {
    /// Tries hypotheses in order: for the first change `find_change` gives,
    /// fills it in on a copy of the board and processes the copy round after
    /// round; a refuted hypothesis is recorded and the next one tried.
    /// Ends with the solved board, or as soon as a hypothesis ends otherwise
    /// than refuted, or when every hypothesis is refuted.
    pub fn simulate(&self) -> (r: Simulation)
        requires
            self.wf(),
        ensures
            simulation_is(r, search(self.spaces@, Seq::empty())),
    {
        let ghost s = self.spaces@;
        let mut change_attempts: Vec<Change> = Vec::new();
        loop
            invariant
                self.wf(),
                s == self.spaces@,
                search(s, change_attempts@) == search(s, Seq::empty()),
            decreases untried_count(s, change_attempts@),
        {
            let ghost a = change_attempts@;
            let change = match self.find_change(&change_attempts) {
                Some(c) => c,
                None => {
                    return Simulation::Exhausted;
                },
            };
            let ghost u = first_untried(s, a, 0)->Some_0;
            proof {
                lemma_first_untried_open(s, a, 0);
                let c = u / 9;
                assert(cell_wf(s[c], c));
                assert(spec_ordinal(change.0) == c);
            }
            let hypothesis_board = match self.fill_board(&change.0, change.1) {
                Ok(b) => b,
                Err(_) => {
                    proof {
                        assert(false);
                    }
                    return Simulation::Refuted;
                },
            };
            proof {
                assert(hypothesis_board.spaces@ == hypothesis(s, change));
                assert forall|i: int| 0 <= i < 81 implies cell_wf(#[trigger] hypothesis_board.spaces[i], i) by {
                    assert(cell_wf(s[i], i));
                }
            }
            match settle_board(hypothesis_board) {
                Simulation::Refuted => {
                    proof {
                        lemma_untried_shrinks(s, a, u);
                    }
                    change_attempts.push(change);
                },
                other => {
                    return other;
                },
            }
        }
    }
}

} // verus!
