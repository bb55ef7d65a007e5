use vstd::prelude::*;

use crate::board_utils::{
    box_cell, box_cells, box_reference, def_among, get_references_for_box, lemma_box_cell,
    lemma_box_reference, BoxCoord,
};
use crate::quantum_utils::{
    as_definite, cand_cols, cand_rows, certainties_in_range, certainty, check_solos, get_certainties,
    get_possibilities, solo_of,
};
use crate::solver::lemma_collect_step;
use crate::utils::{
    Board, Change, Node, Outcome, Reference, SudokuError, Value, apply_change, apply_changes,
    collect, count_true, lemma_apply_changes_step, lemma_count_true_one,
    names_a_cell, names_cell, no_candidates, only_position, opt_seq, ordinal, same_value,
    spec_ordinal, sum_bool, coords_in_range, filter_map, ord, value_wf,
};

verus! {

// ---------------------------------------------------------------------------
// Model
// ---------------------------------------------------------------------------
/// Digit `v + 1` is still possible in the cell named by `refs[j]`.
pub open spec fn cand_at(s: Seq<Node>, refs: Seq<Reference>, v: int, j: int) -> bool {
    &&& 0 <= j < refs.len()
    &&& s[spec_ordinal(refs[j])].value is Pos
    &&& s[spec_ordinal(refs[j])].value->Pos_0[v]
}

/// The places among `refs` where digit `v + 1` is still possible.
pub open spec fn places(s: Seq<Node>, refs: Seq<Reference>, v: int) -> Seq<bool> {
    Seq::new(9, |j: int| cand_at(s, refs, v, j))
}

/// Among the digits `1..=n`, the index of the largest whose only place among
/// `refs` is `refs[j]`.
pub open spec fn solo_upto(s: Seq<Node>, refs: Seq<Reference>, j: int, n: int) -> Option<u8>
    decreases n,
{
    if n <= 0 {
        None
    } else if count_true(places(s, refs, n - 1)) == 1 && cand_at(s, refs, n - 1, j) {
        Some((n - 1) as u8)
    } else {
        solo_upto(s, refs, j, n - 1)
    }
}

/// The change making `refs[j]` definite, where it is the only place of a digit.
pub open spec fn solo_change(s: Seq<Node>, refs: Seq<Reference>) -> spec_fn(int) -> Option<Change> {
    |j: int|
        match solo_upto(s, refs, j, 9) {
            Some(x) => Some(Change(refs[j], Value::Def((x + 1) as u8))),
            None => None,
        }
}

/// The changes for the digits that have a single place among nine cells.
pub open spec fn unit_solos(s: Seq<Node>, refs: Seq<Reference>) -> Seq<Change> {
    collect(9, solo_change(s, refs))
}

/// The cells of box `i`.
pub open spec fn box_refs(i: int) -> Seq<Reference> {
    Seq::new(9, |j: int| box_reference((i % 3) as u8, (i / 3) as u8, j))
}

/// The cells of column `i` (0-based), top to bottom.
pub open spec fn col_refs(i: int) -> Seq<Reference> {
    Seq::new(9, |k: int| Reference::XY(((i + 1) as u8, (k + 1) as u8)))
}

/// The cells of row `i` (0-based), left to right.
pub open spec fn row_refs(i: int) -> Seq<Reference> {
    Seq::new(9, |k: int| Reference::XY(((k + 1) as u8, (i + 1) as u8)))
}

/// The solo changes of boxes, columns and rows `0..n`, unit by unit.
pub open spec fn solo_changes_upto(s: Seq<Node>, n: int) -> Seq<Change>
    decreases n,
{
    if n <= 0 {
        Seq::empty()
    } else {
        solo_changes_upto(s, n - 1) + unit_solos(s, box_refs(n - 1)) + unit_solos(s, col_refs(n - 1))
            + unit_solos(s, row_refs(n - 1))
    }
}

/// All solo changes: for box, column and row `i` in turn, each cell that is
/// the only place of a digit there becomes that digit.
pub open spec fn solo_changes(s: Seq<Node>) -> Seq<Change> {
    solo_changes_upto(s, 9)
}

/// Every change of the sequence makes its cell definite.
pub open spec fn all_definite(cs: Seq<Change>) -> bool {
    forall|i: int| 0 <= i < cs.len() ==> (#[trigger] cs[i]).1 is Def
}

// ---------------------------------------------------------------------------
// Lemmas
// ---------------------------------------------------------------------------
/// Changes that only make cells definite never meet a contradiction.
pub proof fn lemma_apply_definite(s: Seq<Node>, cs: Seq<Change>)
    requires
        all_definite(cs),
    ensures
        !(apply_changes(s, cs) is Contradiction),
    decreases cs.len(),
{
    if cs.len() > 0 {
        assert(all_definite(cs.drop_last())) by {
            assert forall|i: int| 0 <= i < cs.drop_last().len() implies (
            #[trigger] cs.drop_last()[i]).1 is Def by {
                assert(cs.drop_last()[i] == cs[i]);
            }
        }
        lemma_apply_definite(s, cs.drop_last());
        assert(cs.last().1 is Def);
    }
}

proof fn lemma_unit_solos_definite(s: Seq<Node>, refs: Seq<Reference>)
    ensures
        all_definite(unit_solos(s, refs)),
{
    lemma_collect_definite(s, refs, 9);
}

proof fn lemma_collect_definite(s: Seq<Node>, refs: Seq<Reference>, n: int)
    ensures
        all_definite(collect(n, solo_change(s, refs))),
    decreases n,
{
    if n > 0 {
        lemma_collect_definite(s, refs, n - 1);
        let a = collect(n - 1, solo_change(s, refs));
        let b = opt_seq(solo_change(s, refs)(n - 1));
        assert forall|i: int| 0 <= i < (a + b).len() implies (#[trigger] (a + b)[i]).1 is Def by {
            if i < a.len() {
                assert((a + b)[i] == a[i]);
            }
        }
    }
}

pub proof fn lemma_solo_changes_definite(s: Seq<Node>, n: int)
    ensures
        all_definite(solo_changes_upto(s, n)),
    decreases n,
{
    if n > 0 {
        lemma_solo_changes_definite(s, n - 1);
        lemma_unit_solos_definite(s, box_refs(n - 1));
        lemma_unit_solos_definite(s, col_refs(n - 1));
        lemma_unit_solos_definite(s, row_refs(n - 1));
        let a = solo_changes_upto(s, n - 1);
        let b = unit_solos(s, box_refs(n - 1));
        let c = unit_solos(s, col_refs(n - 1));
        let d = unit_solos(s, row_refs(n - 1));
        assert forall|i: int| 0 <= i < (a + b + c + d).len() implies (#[trigger] (a + b + c
            + d)[i]).1 is Def by {
            if i < a.len() {
                assert((a + b + c + d)[i] == a[i]);
            } else if i < a.len() + b.len() {
                assert((a + b + c + d)[i] == b[i - a.len()]);
            } else if i < a.len() + b.len() + c.len() {
                assert((a + b + c + d)[i] == c[i - a.len() - b.len()]);
            } else {
                assert((a + b + c + d)[i] == d[i - a.len() - b.len() - c.len()]);
            }
        }
    }
}

// ---------------------------------------------------------------------------
// Code
// ---------------------------------------------------------------------------
impl Board {
    /// Makes definite every cell that is the only place of a digit in its box,
    /// column or row (the changes of `solo_changes`, applied in order).
    pub fn fill_all_solos(self) -> (r: Result<(Self, Vec<Change>), SudokuError>)
        requires
            !(apply_changes(self.spaces@, solo_changes(self.spaces@)) is Invalid),
        ensures
            r is Ok,
            r->Ok_0.1@ == solo_changes(self.spaces@),
            apply_changes(self.spaces@, solo_changes(self.spaces@)) == Outcome::Board(
                r->Ok_0.0.spaces@,
            ),
    {
        let changes = self.solo_changes();
        proof {
            lemma_solo_changes_definite(self.spaces@, 9);
            lemma_apply_definite(self.spaces@, changes@);
        }
        let board = match self.fill_board_x(&changes) {
            Ok(b) => b,
            Err(e) => {
                return Err(e);
            },
        };
        Ok((board, changes))
    }

    /// The solo changes of every box, column and row, in that order unit by
    /// unit.
    pub fn solo_changes(&self) -> (r: Vec<Change>)
        ensures
            r@ == solo_changes(self.spaces@),
    {
        let mut changes: Vec<Change> = Vec::new();
        let mut references: [Reference; 9];
        let mut i: u8 = 0;
        while i < 9
            invariant
                i <= 9,
                changes@ == solo_changes_upto(self.spaces@, i as int),
            decreases 9 - i,
        {
            references = get_references_for_box(BoxCoord::Ord(i));
            assert(references@ =~= box_refs(i as int));
            proof {
                assert forall|j: int| 0 <= j < 9 implies names_cell(#[trigger] references@[j]) by {
                    lemma_box_reference(i as int, j);
                }
            }
            let mut new_changes = self.fill_solo(references);
            changes.append(&mut new_changes);
            let mut k: usize = 0;
            while k < 9
                invariant
                    i < 9,
                    k <= 9,
                    forall|kk: int|
                        0 <= kk < k ==> #[trigger] references[kk] == Reference::XY(
                            ((i + 1) as u8, (kk + 1) as u8),
                        ),
                decreases 9 - k,
            {
                references[k] = Reference::XY((i + 1, (k + 1) as u8));
                k += 1;
            }
            assert(references@ =~= col_refs(i as int));
            let mut new_changes = self.fill_solo(references);
            changes.append(&mut new_changes);
            let mut k: usize = 0;
            while k < 9
                invariant
                    i < 9,
                    k <= 9,
                    forall|kk: int|
                        0 <= kk < k ==> #[trigger] references[kk] == Reference::XY(
                            ((kk + 1) as u8, (i + 1) as u8),
                        ),
                decreases 9 - k,
            {
                references[k] = Reference::XY(((k + 1) as u8, i + 1));
                k += 1;
            }
            assert(references@ =~= row_refs(i as int));
            let mut new_changes = self.fill_solo(references);
            changes.append(&mut new_changes);
            i += 1;
        }
        changes
    }

    /// The changes making definite each of the nine cells that is the only
    /// place of a digit among them.
    pub fn fill_solo(&self, references: [Reference; 9]) -> (r: Vec<Change>)
        requires
            forall|j: int| 0 <= j < 9 ==> names_cell(#[trigger] references@[j]),
        ensures
            r@ == unit_solos(self.spaces@, references@),
    {
        let mut changes: Vec<Change> = Vec::new();
        let solos = self.find_solos(references);
        let mut j: usize = 0;
        while j < 9
            invariant
                j <= 9,
                forall|jj: int|
                    0 <= jj < 9 ==> solos[jj] == solo_upto(self.spaces@, references@, jj, 9),
                changes@ == collect(j as int, solo_change(self.spaces@, references@)),
            decreases 9 - j,
        {
            if let Some(x) = solos[j] {
                proof {
                    lemma_solo_upto_bound(self.spaces@, references@, j as int, 9);
                }
                changes.push(Change(references[j], Value::Def(x + 1)));
            }
            j += 1;
        }
        changes
    }

    /// For each of the nine cells, the digit (counted from 0) that has its
    /// only place there; the largest such digit where there are several.
    pub fn find_solos(&self, refs: [Reference; 9]) -> (r: [Option<u8>; 9])
        requires
            forall|j: int| 0 <= j < 9 ==> names_cell(#[trigger] refs@[j]),
        ensures
            forall|j: int| 0 <= j < 9 ==> r[j] == solo_upto(self.spaces@, refs@, j, 9),
    {
        let mut return_array: [Option<u8>; 9] = [None;9];
        let converted = self.convert_poss(refs.as_slice());
        let mut i: u8 = 0;
        while i < 9
            invariant
                i <= 9,
                forall|v: int, j: int|
                    0 <= v < 9 && 0 <= j < 9 ==> converted[v][j] == cand_at(self.spaces@, refs@, v, j),
                forall|j: int| 0 <= j < 9 ==> return_array[j] == solo_upto(self.spaces@, refs@, j, i as int),
            decreases 9 - i,
        {
            let n = converted[i as usize];
            assert(n@ =~= places(self.spaces@, refs@, i as int));
            let s = sum_bool(n);
            if s == 1 {
                proof {
                    lemma_count_true_one(n@);
                }
                let mut truth_index: usize = 0;
                while n[truth_index] == false
                    invariant
                        truth_index <= only_position(n@) < 9,
                        n[only_position(n@)],
                    decreases 9 - truth_index,
                {
                    truth_index += 1;
                }
                assert(truth_index == only_position(n@));
                return_array[truth_index] = Some(i);
            }
            i += 1;
        }
        return_array
    }

    /// For each digit (outer index), the references (inner index) whose cells
    /// still allow it; at most nine references.
    fn convert_poss(&self, refs: &[Reference]) -> (r: [[bool; 9]; 9])
        requires
            refs@.len() <= 9,
            forall|j: int| 0 <= j < refs@.len() ==> names_cell(#[trigger] refs@[j]),
        ensures
            forall|v: int, j: int|
                0 <= v < 9 && 0 <= j < 9 ==> r[v][j] == cand_at(self.spaces@, refs@, v, j),
    {
        let mut return_array: [[bool; 9]; 9] = [[false;9];9];
        let ghost rs = refs@;
        let ghost s = self.spaces@;
        let mut j: usize = 0;
        while j < refs.len()
            invariant
                j <= rs.len() <= 9,
                rs == refs@,
                s == self.spaces@,
                forall|jj: int| 0 <= jj < rs.len() ==> names_cell(#[trigger] rs[jj]),
                forall|v: int, jj: int|
                    0 <= v < 9 && 0 <= jj < 9 ==> #[trigger] return_array[v][jj] == (jj < j && cand_at(
                        s,
                        rs,
                        v,
                        jj,
                    )),
            decreases refs@.len() - j,
        {
            let node: Node = self.spaces[ordinal(&refs[j])];
            let ghost outer0 = return_array;
            if let Value::Pos(p) = node.value {
                let mut i: usize = 0;
                while i < 9
                    invariant
                        i <= 9,
                        j < 9,
                        forall|v: int, jj: int|
                            0 <= v < 9 && 0 <= jj < 9 ==> return_array[v][jj] == (outer0[v][jj] || (jj
                                == j && v < i && p[v])),
                    decreases 9 - i,
                {
                    if p[i] {
                        return_array[i][j] = true;
                    }
                    i += 1;
                }
            }
            assert forall|v: int, jj: int| 0 <= v < 9 && 0 <= jj < 9 implies return_array[v][jj] == (jj
                < j + 1 && cand_at(s, rs, v, jj)) by {
                assert(outer0[v][jj] == (jj < j && cand_at(s, rs, v, jj)));
            }
            j += 1;
        }
        return_array
    }

    /// Whether the changes can be applied one by one: each names a cell and
    /// leaves a definite cell as it is (up to the first contradiction).
    pub fn can_take_changes(&self, changes: &Vec<Change>) -> (r: bool)
        ensures
            r == !(apply_changes(self.spaces@, changes@) is Invalid),
    {
        let ghost s0 = self.spaces@;
        let mut spaces = self.spaces;
        let mut i: usize = 0;
        while i < changes.len()
            invariant
                i <= changes@.len(),
                s0 == self.spaces@,
                apply_changes(s0, changes@.take(i as int)) == Outcome::Board(spaces@),
            decreases changes@.len() - i,
        {
            let Change(reference, value) = changes[i];
            proof {
                lemma_apply_changes_step(s0, changes@, i as int);
            }
            if !names_a_cell(&reference) {
                proof {
                    crate::utils::lemma_apply_changes_stops(s0, changes@, i + 1);
                }
                return false;
            }
            let idx = ordinal(&reference);
            let node = spaces[idx];
            if let Value::Def(_) = node.value {
                if !same_value(&value, &node.value) {
                    proof {
                        crate::utils::lemma_apply_changes_stops(s0, changes@, i + 1);
                    }
                    return false;
                }
            }
            if let Value::Pos(p) = value {
                if no_candidates(&p) {
                    proof {
                        crate::utils::lemma_apply_changes_stops(s0, changes@, i + 1);
                    }
                    return true;
                }
            }
            spaces[idx] = Node { value: value, ..node };
            i += 1;
        }
        proof {
            assert(changes@.take(changes@.len() as int) =~= changes@);
        }
        true
    }
}

proof fn lemma_solo_upto_bound(s: Seq<Node>, refs: Seq<Reference>, j: int, n: int)
    requires
        n <= 9,
    ensures
        solo_upto(s, refs, j, n) matches Some(x) ==> x < n,
    decreases n,
{
    if n > 0 {
        lemma_solo_upto_bound(s, refs, j, n - 1);
    }
}

// ---------------------------------------------------------------------------
// Solos box by box, from the rows and columns of each box
// ---------------------------------------------------------------------------
/// The change for digit `n + 1` in box `b` of the cells `s`: where the digit
/// is not definite in the box and is possible on a single row and a single
/// column of it, the cell there becomes that digit.
pub open spec fn box_solo_change(s: Seq<Node>, b: int) -> spec_fn(int) -> Option<Change> {
    |n: int|
        {
            let sl = box_cells(s, b);
            let col = certainty(cand_cols(sl, n));
            let row = certainty(cand_rows(sl, n));
            if !def_among(sl, n) && col != 0 && row != 0 {
                Some(Change(Reference::XY((col, row)), Value::Def((n + 1) as u8)))
            } else {
                None
            }
        }
}

/// Boxes `0..k` in turn: each box's changes, found on the cells as the
/// boxes before it left them, applied in order; with all the changes.
pub open spec fn box_solos_upto(s: Seq<Node>, k: int) -> (Outcome, Seq<Change>)
    decreases k,
{
    if k <= 0 {
        (Outcome::Board(s), Seq::empty())
    } else {
        let (o, cs) = box_solos_upto(s, k - 1);
        match o {
            Outcome::Board(t) => (
                apply_changes(t, collect(9, box_solo_change(t, k - 1))),
                cs + collect(9, box_solo_change(t, k - 1)),
            ),
            other => (other, cs),
        }
    }
}

proof fn lemma_box_solos_stop(s: Seq<Node>, k: int, m: int)
    requires
        0 <= k <= m,
        !(box_solos_upto(s, k).0 is Board),
    ensures
        box_solos_upto(s, m).0 == box_solos_upto(s, k).0,
    decreases m - k,
{
    if k < m {
        lemma_box_solos_stop(s, k, m - 1);
    }
}

proof fn lemma_collect_apply_stop(t: Seq<Node>, f: spec_fn(int) -> Option<Change>, n: int, m: int)
    requires
        0 <= n <= m,
        !(apply_changes(t, collect(n, f)) is Board),
    ensures
        apply_changes(t, collect(m, f)) == apply_changes(t, collect(n, f)),
    decreases m - n,
{
    if n < m {
        lemma_collect_apply_stop(t, f, n, m - 1);
        let a = collect(m - 1, f);
        if f(m - 1) is Some {
            assert((a + opt_seq(f(m - 1))).drop_last() =~= a);
        } else {
            assert(a + opt_seq(f(m - 1)) =~= a);
        }
    }
}

/// Some definite cell among `s` holds digit `n + 1` exactly when one of its
/// `Definite`s does; each `Definite` holds the digit of a cell.
proof fn lemma_definites(s: Seq<Node>, n: int)
    ensures
        (exists|k: int|
            0 <= k < filter_map(s, as_definite()).len() && (#[trigger] filter_map(s, as_definite())[k]).0
                == (n + 1) as u8) <==> def_among(s, n),
        forall|k: int|
            0 <= k < filter_map(s, as_definite()).len() ==> exists|i: int|
                0 <= i < s.len() && s[i].value == Value::Def(#[trigger] filter_map(s, as_definite())[k].0),
    decreases s.len(),
{
    if s.len() > 0 {
        let s1 = s.drop_last();
        lemma_definites(s1, n);
        let a = filter_map(s1, as_definite());
        let b = opt_seq(as_definite()(s.last()));
        assert(filter_map(s, as_definite()) == a + b);
        assert forall|k: int| 0 <= k < (a + b).len() implies exists|i: int|
            0 <= i < s.len() && s[i].value == Value::Def(#[trigger] (a + b)[k].0) by {
            if k < a.len() {
                assert((a + b)[k] == a[k]);
                let i = choose|i: int| 0 <= i < s1.len() && s1[i].value == Value::Def(a[k].0);
                assert(s[i] == s1[i]);
            } else {
                assert(s[s.len() - 1].value == Value::Def((a + b)[k].0));
            }
        }
        if def_among(s, n) {
            let i = choose|i: int| 0 <= i < s.len() && (#[trigger] s[i]).value == Value::Def((n + 1) as u8);
            if i < s.len() - 1 {
                assert(s1[i] == s[i]);
                let k = choose|k: int| 0 <= k < a.len() && (#[trigger] a[k]).0 == (n + 1) as u8;
                assert((a + b)[k] == a[k]);
            } else {
                assert((a + b)[a.len() as int].0 == (n + 1) as u8);
            }
        }
        if exists|k: int| 0 <= k < (a + b).len() && (#[trigger] (a + b)[k]).0 == (n + 1) as u8 {
            let k = choose|k: int| 0 <= k < (a + b).len() && (#[trigger] (a + b)[k]).0 == (n + 1) as u8;
            if k < a.len() {
                assert((a + b)[k] == a[k]);
                let i = choose|i: int| 0 <= i < s1.len() && (#[trigger] s1[i]).value == Value::Def((n + 1) as u8);
                assert(s[i] == s1[i]);
            } else {
                assert(s[s.len() - 1].value == Value::Def((n + 1) as u8));
            }
        }
    } else {
        assert(filter_map(s, as_definite()).len() == 0);
    }
}

impl Board {
    /// Box by box, for each digit not definite in the box that is possible
    /// on a single row and a single column of it, makes the cell there that
    /// digit.
    #[allow(dead_code)]
    fn fill_solos(self) -> (r: Result<(Self, Vec<Change>), SudokuError>)
        requires
            self.wf(),
            !(box_solos_upto(self.spaces@, 9).0 is Invalid),
        ensures
            r is Ok,
            box_solos_upto(self.spaces@, 9) == (Outcome::Board(r->Ok_0.0.spaces@), r->Ok_0.1@),
    {
        let ghost s0 = self.spaces@;
        let mut board = self;
        let mut changes: Vec<Change> = Vec::new();
        let mut i_box: u8 = 0;
        while i_box < 9
            invariant
                i_box <= 9,
                s0 == self.spaces@,
                board.wf(),
                !(box_solos_upto(s0, 9).0 is Invalid),
                box_solos_upto(s0, i_box as int) == (Outcome::Board(board.spaces@), changes@),
            decreases 9 - i_box,
        {
            let references = get_references_for_box(BoxCoord::Ord(i_box));
            proof {
                assert forall|j: int| 0 <= j < 9 implies names_cell(#[trigger] references[j])
                    && spec_ordinal(references[j]) == box_cell(i_box as int, j) by {
                    lemma_box_reference(i_box as int, j);
                }
            }
            let nodes = board.nodes_of(&references);
            let ghost t = board.spaces@;
            let ghost f = box_solo_change(t, i_box as int);
            let ghost before = changes@;
            proof {
                assert(nodes@ =~= box_cells(t, i_box as int));
                assert forall|j: int| 0 <= j < 9 implies value_wf((#[trigger] nodes@[j]).value)
                    && ((nodes@[j]).value is Pos ==> coords_in_range(nodes@[j])) by {
                    lemma_box_cell(i_box as int, j);
                    assert(crate::utils::cell_wf(t[box_cell(i_box as int, j)], box_cell(i_box as int, j)));
                }
            }
            let (rows_poss, cols_poss, definites) = get_possibilities(&nodes);
            let certainties = get_certainties((rows_poss, cols_poss));
            let solos = check_solos(&certainties);
            let mut n: usize = 0;
            while n < 9
                invariant
                    i_box < 9,
                    n <= 9,
                    s0 == self.spaces@,
                    board.wf(),
                    !(box_solos_upto(s0, 9).0 is Invalid),
                    box_solos_upto(s0, i_box as int) == (Outcome::Board(t), before),
                    f == box_solo_change(t, i_box as int),
                    nodes@ == box_cells(t, i_box as int),
                    forall|j: int| 0 <= j < 9 ==> value_wf((#[trigger] nodes@[j]).value),
                    definites@ == filter_map(nodes@, as_definite()),
                    forall|m: int| 0 <= m < 9 ==> #[trigger] solos[m] == solo_of(certainties, m),
                    forall|m: int|
                        0 <= m < 9 ==> certainties.rows[m] == certainty(#[trigger] rows_poss[m])
                            && certainties.cols[m] == certainty(cols_poss[m]),
                    forall|m: int| 0 <= m < 9 ==> #[trigger] rows_poss[m] == cand_rows(nodes@, m),
                    forall|m: int| 0 <= m < 9 ==> #[trigger] cols_poss[m] == cand_cols(nodes@, m),
                    certainties_in_range(certainties),
                    apply_changes(t, collect(n as int, f)) == Outcome::Board(board.spaces@),
                    changes@ == before + collect(n as int, f),
                decreases 9 - n,
            {
                proof {
                    lemma_definites(nodes@, n as int);
                    lemma_collect_step(n as int, f);
                }
                let mut skip = false;
                let mut k: usize = 0;
                while k < definites.len()
                    invariant
                        n < 9,
                        k <= definites@.len(),
                        definites@ == filter_map(nodes@, as_definite()),
                        forall|j: int| 0 <= j < 9 ==> value_wf((#[trigger] nodes@[j]).value),
                        forall|k: int|
                            0 <= k < definites@.len() ==> exists|i: int|
                                0 <= i < nodes@.len() && nodes@[i].value == Value::Def(#[trigger] definites@[k].0),
                        skip == exists|j: int| 0 <= j < k && (#[trigger] definites@[j]).0 == (n + 1) as u8,
                    decreases definites@.len() - k,
                {
                    let def = definites[k];
                    proof {
                        let i = choose|i: int| 0 <= i < nodes@.len() && nodes@[i].value == Value::Def(definites@[k as int].0);
                        assert(value_wf(nodes@[i].value));
                    }
                    if n == ord(&def.0) {
                        skip = true;
                    }
                    k += 1;
                }
                proof {
                    assert(skip == def_among(nodes@, n as int));
                    assert(solos[n as int] == solo_of(certainties, n as int));
                    assert(rows_poss[n as int] == cand_rows(nodes@, n as int));
                    assert(cols_poss[n as int] == cand_cols(nodes@, n as int));
                    assert(f(n as int) == (if !skip && solos[n as int] is Some {
                        Some(Change(Reference::XY(solos[n as int]->Some_0), Value::Def((n + 1) as u8)))
                    } else {
                        None
                    }));
                    if f(n as int) is None {
                        assert(collect(n + 1, f) =~= collect(n as int, f));
                    }
                }
                if !skip {
                    match solos[n] {
                        None => {},
                        Some((x, y)) => {
                            let refer = Reference::XY((x, y));
                            let val = Value::Def((n + 1) as u8);
                            let ghost ch = Change(refer, val);
                            assert(f(n as int) == Some(ch));
                            assert(collect(n + 1, f) =~= collect(n as int, f).push(ch));
                            assert(collect(n + 1, f).drop_last() =~= collect(n as int, f));
                            proof {
                                if !(apply_change(board.spaces@, ch) is Board) {
                                    lemma_collect_apply_stop(t, f, n + 1, 9);
                                    lemma_box_solos_stop(s0, i_box + 1, 9);
                                }
                            }
                            board = match board.fill_board(&refer, val) {
                                Ok(b) => b,
                                Err(_) => {
                                    proof {
                                        assert(false);
                                    }
                                    return Err(SudokuError);
                                },
                            };
                            changes.push(Change(refer, val));
                            proof {
                                assert(changes@ =~= before + collect(n + 1, f));
                                assert forall|i: int| 0 <= i < 81 implies crate::utils::cell_wf(#[trigger] board.spaces[i], i) by {
                                }
                            }
                        },
                    }
                }
                n += 1;
            }
            proof {
                assert(box_solos_upto(s0, i_box + 1) == (apply_changes(t, collect(9, f)), before + collect(9, f)));
            }
            i_box += 1;
        }
        Ok((board, changes))
    }
}

} // verus!
