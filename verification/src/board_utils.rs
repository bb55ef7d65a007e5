use vstd::prelude::*;

use crate::utils::{
    Board, Change, Node, Outcome, Reference, SudokuError, Value, all_possible, apply_change,
    apply_changes, coords_in_range, filter_map, lemma_apply_changes_step,
    lemma_apply_changes_stops, lemma_filter_map_all, lemma_filter_map_step, match_value, names_cell,
    ord, ordinal, is_contradiction, is_pos, same_value, spec_is_pos, spec_match_value, spec_ordinal,
    value_wf,
};

use crate::text::{change_to_text, definite_text};

verus! {

// ---------------------------------------------------------------------------
// Model
// ---------------------------------------------------------------------------
/// A fresh cell at index `i`: its own coordinates, every digit possible.
pub open spec fn fresh_cell(n: Node, i: int) -> bool {
    &&& n.x == i % 9 + 1
    &&& n.y == i / 9 + 1
    &&& n.value is Pos
    &&& all_possible(n.value->Pos_0)
}

/// Definite cells carry digits and coordinates from 1 to 9.
pub open spec fn defs_in_range(s: Seq<Node>) -> bool {
    forall|i: int|
        0 <= i < s.len() && (#[trigger] s[i]).value is Def ==> coords_in_range(s[i]) && value_wf(
            s[i].value,
        )
}

/// Digit `d + 1` is definite in some cell of `s` on row `r + 1`.
pub open spec fn def_in_row(s: Seq<Node>, d: int, r: int) -> bool {
    exists|i: int|
        0 <= i < s.len() && (#[trigger] s[i]).value == Value::Def((d + 1) as u8) && s[i].y == r
            + 1
}

/// Digit `d + 1` is definite in some cell of `s` on column `c + 1`.
pub open spec fn def_in_col(s: Seq<Node>, d: int, c: int) -> bool {
    exists|i: int|
        0 <= i < s.len() && (#[trigger] s[i]).value == Value::Def((d + 1) as u8) && s[i].x == c
            + 1
}

/// Digit `d + 1` is definite in some cell of `s`.
pub open spec fn def_among(s: Seq<Node>, d: int) -> bool {
    exists|i: int| 0 <= i < s.len() && (#[trigger] s[i]).value == Value::Def((d + 1) as u8)
}

/// The coordinates of a cell that holds digit `n` (0 for a cell that is not
/// definite).
pub open spec fn with_digit(n: u8) -> spec_fn(Node) -> Option<Reference> {
    |node: Node|
        if spec_match_value(node.value, 0) == n {
            Some(Reference::XY((node.x, node.y)))
        } else {
            None
        }
}

/// The coordinates of a cell where digit `n` is still possible.
pub open spec fn with_candidate(n: u8) -> spec_fn(Node) -> Option<Reference> {
    |node: Node|
        if spec_is_pos(node.value, n) {
            Some(Reference::XY((node.x, node.y)))
        } else {
            None
        }
}

/// A box named by its index (0 to 8, row-major) or by its 0-based
/// `(column, row)` among the boxes.
pub enum BoxCoord {
    Ord(u8),
    XY((u8, u8)),
}

/// The 0-based `(column, row)` of a box.
pub open spec fn box_origin(b: BoxCoord) -> (u8, u8) {
    match b {
        BoxCoord::Ord(n) => (n % 3, n / 3),
        BoxCoord::XY(xy) => xy,
    }
}

/// The reference to cell `i` (row-major, 0 to 8) of the box at `(bx, by)`.
pub open spec fn box_reference(bx: u8, by: u8, i: int) -> Reference {
    Reference::XY(((bx * 3 + i % 3 + 1) as u8, (by * 3 + i / 3 + 1) as u8))
}

/// The row-major index of cell `j` of box `b`.
pub open spec fn box_cell(b: int, j: int) -> int {
    27 * (b / 3) + 3 * (b % 3) + 9 * (j / 3) + j % 3
}

/// The box (row-major, 0 to 8) holding cell `c`.
pub open spec fn box_of(c: int) -> int {
    3 * (c / 27) + (c % 9) / 3
}

/// The position (row-major, 0 to 8) of cell `c` within its box.
pub open spec fn box_pos(c: int) -> int {
    3 * ((c / 9) % 3) + (c % 9) % 3
}

/// The cells of box `b`, in row-major order.
pub open spec fn box_cells(s: Seq<Node>, b: int) -> Seq<Node> {
    Seq::new(9, |j: int| s[box_cell(b, j)])
}

/// Cell `j` of box `b` lies on row `3 * (b / 3) + j / 3` and column
/// `3 * (b % 3) + j % 3`; each cell is in exactly one box.
pub proof fn lemma_box_cell(b: int, j: int)
    requires
        0 <= b < 9,
        0 <= j < 9,
    ensures
        0 <= box_cell(b, j) < 81,
        box_cell(b, j) / 9 == 3 * (b / 3) + j / 3,
        box_cell(b, j) % 9 == 3 * (b % 3) + j % 3,
        box_of(box_cell(b, j)) == b,
        box_pos(box_cell(b, j)) == j,
{
}

pub proof fn lemma_cell_box(c: int)
    requires
        0 <= c < 81,
    ensures
        0 <= box_of(c) < 9,
        0 <= box_pos(c) < 9,
        box_cell(box_of(c), box_pos(c)) == c,
{
}

/// The reference to cell `j` of a box names that cell.
pub proof fn lemma_box_reference(b: int, j: int)
    requires
        0 <= b < 9,
        0 <= j < 9,
    ensures
        names_cell(box_reference((b % 3) as u8, (b / 3) as u8, j)),
        spec_ordinal(box_reference((b % 3) as u8, (b / 3) as u8, j)) == box_cell(b, j),
{
}

// ---------------------------------------------------------------------------
// Applying changes cell by cell
// ---------------------------------------------------------------------------
/// Cell `c` of the starting cells `s0` meets the change `ch` on the cells
/// `t`: where the cell the change names still equals it, the change is
/// made to it.
pub open spec fn x3_step(s0: Seq<Node>, t: Seq<Node>, c: int, ch: Change) -> Outcome {
    let i = spec_ordinal(ch.0);
    if t[i] == s0[c] {
        if s0[c].value is Def && ch.1 != s0[c].value {
            Outcome::Invalid
        } else if is_contradiction(ch.1) {
            Outcome::Contradiction
        } else {
            Outcome::Board(t.update(i, Node { value: ch.1, ..s0[c] }))
        }
    } else {
        Outcome::Board(t)
    }
}

/// Cell `c` of `s0` meets the first `k` changes, from the cells `t`.
pub open spec fn x3_changes(s0: Seq<Node>, cs: Seq<Change>, t: Seq<Node>, c: int, k: int) -> Outcome
    decreases k,
{
    if k <= 0 {
        Outcome::Board(t)
    } else {
        match x3_changes(s0, cs, t, c, k - 1) {
            Outcome::Board(t2) => x3_step(s0, t2, c, cs[k - 1]),
            o => o,
        }
    }
}

/// The first `n` cells of `s0`, in order, each meet all the changes.
pub open spec fn x3_nodes(s0: Seq<Node>, cs: Seq<Change>, n: int) -> Outcome
    decreases n,
{
    if n <= 0 {
        Outcome::Board(s0)
    } else {
        match x3_nodes(s0, cs, n - 1) {
            Outcome::Board(t) => x3_changes(s0, cs, t, n - 1, cs.len() as int),
            o => o,
        }
    }
}

proof fn lemma_x3_changes_stop(s0: Seq<Node>, cs: Seq<Change>, t: Seq<Node>, c: int, k: int, m: int)
    requires
        0 <= k <= m,
        !(x3_changes(s0, cs, t, c, k) is Board),
    ensures
        x3_changes(s0, cs, t, c, m) == x3_changes(s0, cs, t, c, k),
    decreases m - k,
{
    if k < m {
        lemma_x3_changes_stop(s0, cs, t, c, k, m - 1);
    }
}

proof fn lemma_x3_nodes_stop(s0: Seq<Node>, cs: Seq<Change>, n: int, m: int)
    requires
        0 <= n <= m,
        !(x3_nodes(s0, cs, n) is Board),
    ensures
        x3_nodes(s0, cs, m) == x3_nodes(s0, cs, n),
    decreases m - n,
{
    if n < m {
        lemma_x3_nodes_stop(s0, cs, n, m - 1);
    }
}

/// Every change names a cell, and no two name the same one.
pub open spec fn distinct_cells(cs: Seq<Change>) -> bool {
    &&& forall|k: int| 0 <= k < cs.len() ==> names_cell(#[trigger] cs[k].0)
    &&& forall|a: int, b: int|
        0 <= a < cs.len() && 0 <= b < cs.len() && a != b ==> spec_ordinal(#[trigger] cs[a].0)
            != spec_ordinal(#[trigger] cs[b].0)
}

/// The last of the first `k` changes that names cell `c`.
pub open spec fn hit_at(cs: Seq<Change>, c: int, k: int) -> Option<int>
    decreases k,
{
    if k <= 0 {
        None
    } else if spec_ordinal(cs[k - 1].0) == c {
        Some(k - 1)
    } else {
        hit_at(cs, c, k - 1)
    }
}

/// The change cannot be made to the cells `s0`: it alters a definite cell,
/// or leaves a cell without candidates.
pub open spec fn change_fails(s0: Seq<Node>, ch: Change) -> bool {
    let n = s0[spec_ordinal(ch.0)];
    (n.value is Def && ch.1 != n.value) || is_contradiction(ch.1)
}

/// Cell `c` after the first `k` changes, where each cell is named once.
pub open spec fn cell_after(s0: Seq<Node>, cs: Seq<Change>, c: int, k: int) -> Node {
    match hit_at(cs, c, k) {
        Some(j) => Node { value: cs[j].1, ..s0[c] },
        None => s0[c],
    }
}

proof fn lemma_hit_at(cs: Seq<Change>, c: int, k: int)
    requires
        0 <= k <= cs.len(),
    ensures
        hit_at(cs, c, k) matches Some(j) ==> 0 <= j < k && spec_ordinal(cs[j].0) == c,
        forall|j: int| 0 <= j < k && spec_ordinal(#[trigger] cs[j].0) == c ==> hit_at(cs, c, k) is Some,
    decreases k,
{
    if k > 0 {
        lemma_hit_at(cs, c, k - 1);
    }
}

/// Applying the first `m` changes, each to its own cell, in order.
proof fn lemma_apply_distinct(s0: Seq<Node>, cs: Seq<Change>, m: int)
    requires
        s0.len() == 81,
        distinct_cells(cs),
        0 <= m <= cs.len(),
    ensures
        (apply_changes(s0, cs.take(m)) is Board) <==> forall|j: int|
            0 <= j < m ==> !change_fails(s0, #[trigger] cs[j]),
        apply_changes(s0, cs.take(m)) is Board ==> apply_changes(s0, cs.take(m)) == Outcome::Board(
            Seq::new(81, |c: int| cell_after(s0, cs, c, m)),
        ),
    decreases m,
{
    if m == 0 {
        assert(cs.take(0) =~= Seq::<Change>::empty());
        assert(Seq::new(81, |c: int| cell_after(s0, cs, c, 0)) =~= s0);
    } else {
        lemma_apply_distinct(s0, cs, m - 1);
        lemma_apply_changes_step(s0, cs, m - 1);
        let ch = cs[m - 1];
        let i = spec_ordinal(ch.0);
        assert(names_cell(ch.0));
        if apply_changes(s0, cs.take(m - 1)) is Board {
            let t = Seq::new(81, |c: int| cell_after(s0, cs, c, m - 1));
            lemma_hit_at(cs, i, m - 1);
            if hit_at(cs, i, m - 1) is Some {
                let j = hit_at(cs, i, m - 1)->Some_0;
                assert(spec_ordinal(cs[j].0) != spec_ordinal(cs[m - 1].0));
            }
            assert(t[i] == s0[i]);
            if !change_fails(s0, ch) {
                let u = Seq::new(81, |c: int| cell_after(s0, cs, c, m));
                assert(crate::utils::set_value(t, i, ch.1) =~= u);
            }
        } else {
            let j = choose|j: int| 0 <= j < m - 1 && change_fails(s0, #[trigger] cs[j]);
            assert(change_fails(s0, cs[j]));
        }
    }
}

/// Cell `c` meeting the first `k` changes: only the change that names it
/// acts, and it acts on the cell as it was.
proof fn lemma_x3_cell(s0: Seq<Node>, cs: Seq<Change>, t: Seq<Node>, c: int, k: int)
    requires
        crate::progress::cells_wf(s0),
        t.len() == 81,
        forall|i: int| 0 <= i < 81 ==> (#[trigger] t[i]).x == s0[i].x && t[i].y == s0[i].y,
        distinct_cells(cs),
        0 <= c < 81,
        t[c] == s0[c],
        0 <= k <= cs.len(),
    ensures
        x3_changes(s0, cs, t, c, k) == match hit_at(cs, c, k) {
            Some(j) => x3_step(s0, t, c, cs[j]),
            None => Outcome::Board(t),
        },
    decreases k,
{
    if k > 0 {
        lemma_x3_cell(s0, cs, t, c, k - 1);
        let ch = cs[k - 1];
        let i = spec_ordinal(ch.0);
        assert(names_cell(ch.0));
        if i == c {
            lemma_hit_at(cs, c, k - 1);
            if hit_at(cs, c, k - 1) is Some {
                let j = hit_at(cs, c, k - 1)->Some_0;
                assert(spec_ordinal(cs[j].0) != spec_ordinal(cs[k - 1].0));
            }
        } else {
            assert(crate::utils::cell_wf(s0[i], i));
            assert(crate::utils::cell_wf(s0[c], c));
            assert(s0[i].x != s0[c].x || s0[i].y != s0[c].y);
            match hit_at(cs, c, k - 1) {
                Some(j) => {
                    lemma_hit_at(cs, c, k - 1);
                    if let Outcome::Board(t2) = x3_step(s0, t, c, cs[j]) {
                        assert(t2[i] == t[i]);
                        assert(t2[i] != s0[c]);
                    }
                },
                None => {
                    assert(t[i] != s0[c]);
                },
            }
        }
    }
}

/// The first `n` cells, each meeting all the changes, where each cell is
/// named once.
proof fn lemma_x3_distinct(s0: Seq<Node>, cs: Seq<Change>, n: int)
    requires
        crate::progress::cells_wf(s0),
        distinct_cells(cs),
        0 <= n <= 81,
    ensures
        (x3_nodes(s0, cs, n) is Board) <==> forall|c: int|
            0 <= c < n ==> !(#[trigger] hit_at(cs, c, cs.len() as int) matches Some(j) && change_fails(
                s0,
                cs[j],
            )),
        x3_nodes(s0, cs, n) is Board ==> x3_nodes(s0, cs, n) == Outcome::Board(
            Seq::new(81, |c: int| if c < n { cell_after(s0, cs, c, cs.len() as int) } else { s0[c] }),
        ),
    decreases n,
{
    let len = cs.len() as int;
    if n == 0 {
        assert(Seq::new(81, |c: int| if c < 0 { cell_after(s0, cs, c, len) } else { s0[c] }) =~= s0);
    } else {
        lemma_x3_distinct(s0, cs, n - 1);
        let c = n - 1;
        if x3_nodes(s0, cs, n - 1) is Board {
            let t = Seq::new(81, |e: int| if e < n - 1 { cell_after(s0, cs, e, len) } else { s0[e] });
            lemma_x3_cell(s0, cs, t, c, len);
            lemma_hit_at(cs, c, len);
            let u = Seq::new(81, |e: int| if e < n { cell_after(s0, cs, e, len) } else { s0[e] });
            match hit_at(cs, c, len) {
                Some(j) => {
                    if !change_fails(s0, cs[j]) {
                        assert(t.update(c, Node { value: cs[j].1, ..s0[c] }) =~= u);
                    }
                },
                None => {
                    assert(t =~= u);
                },
            }
        } else {
            let e = choose|e: int|
                0 <= e < n - 1 && (#[trigger] hit_at(cs, e, len) matches Some(j) && change_fails(s0, cs[j]));
            assert(hit_at(cs, e, len) matches Some(j) && change_fails(s0, cs[j]));
        }
    }
}

/// Making changes that each name their own cell succeeds exactly when none
/// of them alters a definite cell or leaves a cell without candidates; it
/// then gives each named cell the value of its change, and leaves the other
/// cells as they were.
pub proof fn lemma_fill_distinct(s0: Seq<Node>, cs: Seq<Change>)
    requires
        s0.len() == 81,
        distinct_cells(cs),
    ensures
        (apply_changes(s0, cs) is Board) <==> forall|j: int| 0 <= j < cs.len() ==> !change_fails(s0, #[trigger] cs[j]),
        apply_changes(s0, cs) matches Outcome::Board(t) ==> {
            &&& t.len() == 81
            &&& forall|k: int|
                0 <= k < cs.len() ==> #[trigger] t[spec_ordinal(cs[k].0)] == Node { value: cs[k].1, ..s0[spec_ordinal(cs[k].0)] }
            &&& forall|c: int|
                0 <= c < 81 && (forall|k: int| 0 <= k < cs.len() ==> spec_ordinal(#[trigger] cs[k].0) != c) ==> #[trigger] t[c]
                    == s0[c]
        },
{
    let len = cs.len() as int;
    lemma_apply_distinct(s0, cs, len);
    assert(cs.take(len) =~= cs);
    if let Outcome::Board(t) = apply_changes(s0, cs) {
        assert forall|k: int| 0 <= k < cs.len() implies #[trigger] t[spec_ordinal(cs[k].0)] == Node {
            value: cs[k].1,
            ..s0[spec_ordinal(cs[k].0)]
        } by {
            let c = spec_ordinal(cs[k].0);
            assert(names_cell(cs[k].0));
            lemma_hit_at(cs, c, len);
            let j = hit_at(cs, c, len)->Some_0;
            if j != k {
                assert(spec_ordinal(cs[j].0) != spec_ordinal(cs[k].0));
            }
        }
        assert forall|c: int|
            0 <= c < 81 && (forall|k: int| 0 <= k < cs.len() ==> spec_ordinal(#[trigger] cs[k].0) != c) implies #[trigger] t[c]
                == s0[c] by {
            lemma_hit_at(cs, c, len);
        }
    }
}

/// Where the cells are well formed and no two changes name the same cell,
/// making the changes cell by cell (`fill_board_x3`) and in order
/// (`fill_board_x`) come to the same: both give the same cells, or neither
/// gives cells.
pub proof fn lemma_fill_board_x3_agrees(s0: Seq<Node>, cs: Seq<Change>)
    requires
        crate::progress::cells_wf(s0),
        distinct_cells(cs),
    ensures
        (x3_nodes(s0, cs, 81) is Board) <==> (apply_changes(s0, cs) is Board),
        x3_nodes(s0, cs, 81) is Board ==> x3_nodes(s0, cs, 81) == apply_changes(s0, cs),
{
    let len = cs.len() as int;
    lemma_x3_distinct(s0, cs, 81);
    lemma_apply_distinct(s0, cs, len);
    assert(cs.take(len) =~= cs);
    assert(Seq::new(81, |c: int| if c < 81 { cell_after(s0, cs, c, len) } else { s0[c] }) =~= Seq::new(
        81,
        |c: int| cell_after(s0, cs, c, len),
    ));
    if apply_changes(s0, cs) is Board {
        assert forall|c: int| 0 <= c < 81 implies !(#[trigger] hit_at(cs, c, len) matches Some(j)
            && change_fails(s0, cs[j])) by {
            lemma_hit_at(cs, c, len);
        }
    } else {
        let j = choose|j: int| 0 <= j < len && change_fails(s0, #[trigger] cs[j]);
        let c = spec_ordinal(cs[j].0);
        assert(names_cell(cs[j].0));
        lemma_hit_at(cs, c, len);
        let j2 = hit_at(cs, c, len)->Some_0;
        if j2 != j {
            assert(spec_ordinal(cs[j2].0) != spec_ordinal(cs[j].0));
        }
        assert(hit_at(cs, c, len) matches Some(jj) && change_fails(s0, cs[jj]));
    }
}

// ---------------------------------------------------------------------------
// Board access
// ---------------------------------------------------------------------------
impl Board {
    /// A board on which every digit is possible in every cell.
    pub fn create_board() -> (r: Self)
        ensures
            forall|i: int| 0 <= i < 81 ==> fresh_cell(#[trigger] r.spaces[i], i),
            r.wf(),
    {
        let mut new_spaces: [Node; 81] = [Node::make_empty_node();81];
        let mut i: usize = 0;
        while i < 81
            invariant
                i <= 81,
                forall|j: int| 0 <= j < i ==> fresh_cell(#[trigger] new_spaces[j], j),
            decreases 81 - i,
        {
            let nth_node = Node {
                x: (i % 9 + 1) as u8,
                y: (i / 9 + 1) as u8,
                value: Value::Pos([true;9]),
            };
            new_spaces[i] = nth_node;
            i += 1;
        }
        Board { spaces: new_spaces }
    }

    /// The cell at row-major index `n`.
    pub fn return_space_ord(&self, n: usize) -> (r: Node)
        requires
            n < 81,
        ensures
            r == self.spaces[n as int],
    {
        self.spaces[n]
    }

    /// The cells the nine references name.
    pub fn nodes_of(&self, references: &[Reference; 9]) -> (r: [Node; 9])
        requires
            forall|i: int| 0 <= i < 9 ==> names_cell(#[trigger] references[i]),
        ensures
            forall|i: int| 0 <= i < 9 ==> #[trigger] r[i] == self.spaces[spec_ordinal(references[i])],
    {
        let mut nodes = [Node::make_empty_node();9];
        let mut i: usize = 0;
        while i < 9
            invariant
                i <= 9,
                forall|i: int| 0 <= i < 9 ==> names_cell(#[trigger] references[i]),
                forall|k: int| 0 <= k < i ==> #[trigger] nodes[k] == self.spaces[spec_ordinal(references[k])],
            decreases 9 - i,
        {
            nodes[i] = self.return_space(&references[i]);
            i += 1;
        }
        nodes
    }

    /// The cell a reference names.
    pub fn return_space(&self, reference: &Reference) -> (r: Node)
        requires
            names_cell(*reference),
        ensures
            r == self.spaces[spec_ordinal(*reference)],
    {
        self.spaces[ordinal(reference)]
    }

    /// Gives the named cell a new value; a definite cell may only be given its
    /// own value again.
    pub fn fill_board(self, reference: &Reference, value: Value) -> (r: Result<
        Self,
        SudokuError,
    >)
        requires
            names_cell(*reference),
            self.spaces[spec_ordinal(*reference)].value is Def ==> value
                == self.spaces[spec_ordinal(*reference)].value,
        ensures
            r is Err <==> apply_change(self.spaces@, Change(*reference, value)) is Contradiction,
            r is Ok ==> apply_change(self.spaces@, Change(*reference, value)) == Outcome::Board(
                r->Ok_0.spaces@,
            ),
    {
        let mut board = self;
        let idx = ordinal(reference);
        match board.return_space(reference).change_value(value) {
            Ok(node) => {
                board.spaces[idx] = node;
                Ok(board)
            },
            Err(e) => Err(e),
        }
    }

    /// Applies the changes in order.
    pub fn fill_board_x(self, changes: &Vec<Change>) -> (r: Result<Self, SudokuError>)
        requires
            !(apply_changes(self.spaces@, changes@) is Invalid),
        ensures
            r is Err <==> apply_changes(self.spaces@, changes@) is Contradiction,
            r is Ok ==> apply_changes(self.spaces@, changes@) == Outcome::Board(r->Ok_0.spaces@),
    {
        let ghost s0 = self.spaces@;
        let mut board = self;
        let mut i: usize = 0;
        while i < changes.len()
            invariant
                i <= changes@.len(),
                !(apply_changes(s0, changes@) is Invalid),
                s0 == self.spaces@,
                apply_changes(s0, changes@.take(i as int)) == Outcome::Board(board.spaces@),
            decreases changes@.len() - i,
        {
            let Change(reference, value) = changes[i];
            proof {
                lemma_apply_changes_step(s0, changes@, i as int);
                if !(apply_changes(s0, changes@.take(i + 1)) is Board) {
                    lemma_apply_changes_stops(s0, changes@, i + 1);
                }
            }
            let new_node = match board.return_space(&reference).change_value(value) {
                Ok(node) => node,
                Err(e) => {
                    assert(apply_changes(s0, changes@.take(i + 1)) is Contradiction);
                    proof {
                        lemma_apply_changes_stops(s0, changes@, i + 1);
                    }
                    assert(apply_changes(s0, changes@) is Contradiction);
                    return Err(e);
                },
            };
            board.spaces[ordinal(&reference)] = new_node;
            i += 1;
        }
        proof {
            assert(changes@.take(changes@.len() as int) =~= changes@);
        }
        Ok(board)
    }

    /// Applies the changes in order, one `fill_board` at a time.
    #[allow(dead_code)]
    fn fill_board_x2(self, changes: Vec<Change>) -> (r: Result<Self, SudokuError>)
        requires
            !(apply_changes(self.spaces@, changes@) is Invalid),
        ensures
            r is Err <==> apply_changes(self.spaces@, changes@) is Contradiction,
            r is Ok ==> apply_changes(self.spaces@, changes@) == Outcome::Board(r->Ok_0.spaces@),
    {
        let ghost s0 = self.spaces@;
        let mut board = self;
        let mut i: usize = 0;
        while i < changes.len()
            invariant
                i <= changes@.len(),
                !(apply_changes(s0, changes@) is Invalid),
                s0 == self.spaces@,
                apply_changes(s0, changes@.take(i as int)) == Outcome::Board(board.spaces@),
            decreases changes@.len() - i,
        {
            let Change(reference, value) = changes[i];
            proof {
                lemma_apply_changes_step(s0, changes@, i as int);
                if !(apply_changes(s0, changes@.take(i + 1)) is Board) {
                    lemma_apply_changes_stops(s0, changes@, i + 1);
                }
            }
            board = match board.fill_board(&reference, value) {
                Ok(b) => b,
                Err(e) => {
                    assert(apply_changes(s0, changes@.take(i + 1)) is Contradiction);
                    proof {
                        lemma_apply_changes_stops(s0, changes@, i + 1);
                    }
                    assert(apply_changes(s0, changes@) is Contradiction);
                    return Err(e);
                },
            };
            i += 1;
        }
        proof {
            assert(changes@.take(changes@.len() as int) =~= changes@);
        }
        Ok(board)
    }

    /// For each cell of the board as it was, in order, makes each change
    /// in turn to the cell it names wherever that cell still equals it.
    #[allow(dead_code)]
    fn fill_board_x3(self, changes: Vec<Change>) -> (r: Result<Self, SudokuError>)
        requires
            forall|k: int| 0 <= k < changes@.len() ==> names_cell(#[trigger] changes@[k].0),
            !(x3_nodes(self.spaces@, changes@, 81) is Invalid),
        ensures
            r is Err <==> x3_nodes(self.spaces@, changes@, 81) is Contradiction,
            r is Ok ==> x3_nodes(self.spaces@, changes@, 81) == Outcome::Board(r->Ok_0.spaces@),
    {
        let ghost s0 = self.spaces@;
        let ghost cs = changes@;
        let spaces = self.spaces;
        let mut board = self;
        let mut c: usize = 0;
        while c < 81
            invariant
                c <= 81,
                s0 == spaces@,
                s0 == self.spaces@,
                cs == changes@,
                forall|k: int| 0 <= k < cs.len() ==> names_cell(#[trigger] cs[k].0),
                !(x3_nodes(s0, cs, 81) is Invalid),
                x3_nodes(s0, cs, c as int) == Outcome::Board(board.spaces@),
            decreases 81 - c,
        {
            let node = spaces[c];
            let ghost t = board.spaces@;
            let mut k: usize = 0;
            while k < changes.len()
                invariant
                    c < 81,
                    k <= cs.len(),
                    s0 == spaces@,
                    s0 == self.spaces@,
                    cs == changes@,
                    node == s0[c as int],
                    forall|k: int| 0 <= k < cs.len() ==> names_cell(#[trigger] cs[k].0),
                    !(x3_nodes(s0, cs, 81) is Invalid),
                    x3_nodes(s0, cs, c as int) == Outcome::Board(t),
                    x3_changes(s0, cs, t, c as int, k as int) == Outcome::Board(board.spaces@),
                decreases cs.len() - k,
            {
                let Change(reference, value) = changes[k];
                assert(names_cell(cs[k as int].0));
                let idx = ordinal(&reference);
                let current = board.spaces[idx];
                if current.x == node.x && current.y == node.y && same_value(&current.value, &node.value) {
                    if let Value::Def(_) = node.value {
                        if !same_value(&value, &node.value) {
                            proof {
                                assert(x3_changes(s0, cs, t, c as int, k + 1) is Invalid);
                                lemma_x3_changes_stop(s0, cs, t, c as int, k + 1, cs.len() as int);
                                lemma_x3_nodes_stop(s0, cs, c + 1, 81);
                            }
                            assert(false);
                        }
                    }
                    let new_node = match node.change_value(value) {
                        Ok(n) => n,
                        Err(e) => {
                            proof {
                                assert(x3_changes(s0, cs, t, c as int, k + 1) is Contradiction);
                                lemma_x3_changes_stop(s0, cs, t, c as int, k + 1, cs.len() as int);
                                lemma_x3_nodes_stop(s0, cs, c + 1, 81);
                            }
                            return Err(e);
                        },
                    };
                    board.spaces[idx] = new_node;
                }
                k += 1;
            }
            c += 1;
        }
        Ok(board)
    }

    /// Cells holding digit `n` (0 for cells that are not definite).
    pub fn get_spaces_with(&self, n: u8) -> (r: Vec<Reference>)
        ensures
            r@ == filter_map(self.spaces@, with_digit(n)),
    {
        get_spaces_with(&self.spaces, n)
    }

    /// Cells where digit `n` is still possible.
    fn get_spaces_with_poss(&self, n: u8) -> (r: Vec<Reference>)
        ensures
            r@ == filter_map(self.spaces@, with_candidate(n)),
    {
        get_spaces_with_poss(&self.spaces, n)
    }

    /// For each digit, the rows and the columns where it is definite.
    pub fn get_rows_and_columns(&self) -> (r: ([[bool; 9]; 9], [[bool; 9]; 9]))
        requires
            defs_in_range(self.spaces@),
        ensures
            forall|d: int, k: int|
                0 <= d < 9 && 0 <= k < 9 ==> r.0[d][k] == def_in_row(self.spaces@, d, k) && r.1[d][k]
                    == def_in_col(self.spaces@, d, k),
    {
        get_rows_and_columns(&self.spaces)
    }

    /// For each digit, whether it is definite in one of the nine cells.
    pub fn get_def_exists(&self, board_slice: [Node; 9]) -> (r: [bool; 9])
        requires
            forall|j: int| 0 <= j < 9 ==> value_wf((#[trigger] board_slice[j]).value),
        ensures
            forall|d: int| 0 <= d < 9 ==> r[d] == def_among(board_slice@, d),
    {
        let mut def_exists = [false;9];
        let mut j: usize = 0;
        while j < 9
            invariant
                j <= 9,
                forall|j: int| 0 <= j < 9 ==> value_wf((#[trigger] board_slice[j]).value),
                forall|d: int| 0 <= d < 9 ==> def_exists[d] == def_among(board_slice@.take(j as int), d),
            decreases 9 - j,
        {
            let ghost before = def_exists;
            if let Value::Def(d) = board_slice[j].value {
                def_exists[ord(&d)] = true;
            }
            assert forall|d: int| 0 <= d < 9 implies def_exists[d] == def_among(
                board_slice@.take(j + 1),
                d,
            ) by {
                let t = board_slice@.take(j + 1);
                if def_among(t, d) {
                    let w = choose|w: int| 0 <= w < t.len() && t[w].value == Value::Def((d + 1) as u8);
                    if w < j {
                        assert(board_slice@.take(j as int)[w] == t[w]);
                    }
                }
                if before[d] {
                    let u = board_slice@.take(j as int);
                    let w = choose|w: int| 0 <= w < u.len() && u[w].value == Value::Def((d + 1) as u8);
                    assert(t[w] == u[w]);
                }
                if def_exists[d] && !before[d] {
                    assert(t[j as int] == board_slice[j as int]);
                }
            }
            j += 1;
        }
        assert(board_slice@.take(9) =~= board_slice@);
        def_exists
    }
}

/// Cells among `board_slice` holding digit `n` (0 for cells that are not
/// definite), in order.
pub fn get_spaces_with(board_slice: &[Node], n: u8) -> (r: Vec<Reference>)
    ensures
        r@ == filter_map(board_slice@, with_digit(n)),
{
    let mut answer = Vec::new();
    let mut i: usize = 0;
    while i < board_slice.len()
        invariant
            i <= board_slice@.len(),
            answer@ == filter_map(board_slice@.take(i as int), with_digit(n)),
        decreases board_slice@.len() - i,
    {
        proof {
            lemma_filter_map_step(board_slice@, with_digit(n), i as int);
        }
        let node = board_slice[i];
        let definite_value = match_value(&node.value, 0);
        if definite_value == n {
            answer.push(Reference::XY((node.x, node.y)));
        }
        i += 1;
    }
    proof {
        lemma_filter_map_all(board_slice@, with_digit(n));
    }
    answer
}

/// Cells among `board_slice` where digit `n` is still possible, in order.
pub fn get_spaces_with_poss(board_slice: &[Node], n: u8) -> (r: Vec<Reference>)
    ensures
        r@ == filter_map(board_slice@, with_candidate(n)),
{
    let mut answer = Vec::new();
    let mut i: usize = 0;
    while i < board_slice.len()
        invariant
            i <= board_slice@.len(),
            answer@ == filter_map(board_slice@.take(i as int), with_candidate(n)),
        decreases board_slice@.len() - i,
    {
        proof {
            lemma_filter_map_step(board_slice@, with_candidate(n), i as int);
        }
        let node = board_slice[i];
        if is_pos(&node.value, &n) {
            answer.push(Reference::XY((node.x, node.y)));
        }
        i += 1;
    }
    proof {
        lemma_filter_map_all(board_slice@, with_candidate(n));
    }
    answer
}

/// For each digit `d + 1`, the rows (`.0[d]`) and the columns (`.1[d]`) in
/// which some cell holds it.
pub fn get_rows_and_columns(board_slice: &[Node]) -> (r: ([[bool; 9]; 9], [[bool; 9]; 9]))
    requires
        defs_in_range(board_slice@),
    ensures
        forall|d: int, k: int|
            0 <= d < 9 && 0 <= k < 9 ==> r.0[d][k] == def_in_row(board_slice@, d, k) && r.1[d][k]
                == def_in_col(board_slice@, d, k),
{
    let ghost s = board_slice@;
    let mut rows = [[false;9];9];
    let mut columns = [[false;9];9];
    let mut i: usize = 0;
    while i < board_slice.len()
        invariant
            i <= s.len(),
            s == board_slice@,
            defs_in_range(s),
            forall|d: int, k: int|
                0 <= d < 9 && 0 <= k < 9 ==> rows[d][k] == def_in_row(s.take(i as int), d, k)
                    && columns[d][k] == def_in_col(s.take(i as int), d, k),
        decreases s.len() - i,
    {
        let ghost rows0 = rows;
        let ghost cols0 = columns;
        let node = board_slice[i];
        match node.value {
            Value::Pos(_) => {},
            Value::Def(n) => {
                let a = ord(&n);
                let b = ord(&node.y);
                let c = ord(&node.x);
                rows[a][b] = true;
                columns[a][c] = true;
            },
        }
        assert forall|d: int, k: int| 0 <= d < 9 && 0 <= k < 9 implies rows[d][k] == def_in_row(
            s.take(i + 1),
            d,
            k,
        ) && columns[d][k] == def_in_col(s.take(i + 1), d, k) by {
            lemma_def_in_take(s, i as int, d, k);
            assert(rows0[d][k] == def_in_row(s.take(i as int), d, k));
            assert(cols0[d][k] == def_in_col(s.take(i as int), d, k));
        }
        i += 1;
    }
    assert(s.take(s.len() as int) =~= s);
    (rows, columns)
}

proof fn lemma_def_in_take(s: Seq<Node>, i: int, d: int, k: int)
    requires
        0 <= i < s.len(),
    ensures
        def_in_row(s.take(i + 1), d, k) == (def_in_row(s.take(i), d, k) || (s[i].value
            == Value::Def((d + 1) as u8) && s[i].y == k + 1)),
        def_in_col(s.take(i + 1), d, k) == (def_in_col(s.take(i), d, k) || (s[i].value
            == Value::Def((d + 1) as u8) && s[i].x == k + 1)),
{
    let t = s.take(i + 1);
    let u = s.take(i);
    assert(t[i] == s[i]);
    assert forall|w: int| 0 <= w < i implies t[w] == u[w] by {}
    if def_in_row(t, d, k) {
        let w = choose|w: int|
            0 <= w < t.len() && t[w].value == Value::Def((d + 1) as u8) && t[w].y == k + 1;
        if w < i {
            assert(u[w] == t[w]);
        }
    }
    if def_in_row(u, d, k) {
        let w = choose|w: int|
            0 <= w < u.len() && u[w].value == Value::Def((d + 1) as u8) && u[w].y == k + 1;
        assert(t[w] == u[w]);
    }
    if def_in_col(t, d, k) {
        let w = choose|w: int|
            0 <= w < t.len() && t[w].value == Value::Def((d + 1) as u8) && t[w].x == k + 1;
        if w < i {
            assert(u[w] == t[w]);
        }
    }
    if def_in_col(u, d, k) {
        let w = choose|w: int|
            0 <= w < u.len() && u[w].value == Value::Def((d + 1) as u8) && u[w].x == k + 1;
        assert(t[w] == u[w]);
    }
}

/// The changes that make cells definite, as text in order, and whether any
/// change is to candidates.
pub fn filter_changes(changes: &Vec<Change>) -> (r: (Vec<String>, bool))
    ensures
        r.0.deep_view() == filter_map(changes@, definite_text()),
        r.1 == exists|i: int| 0 <= i < changes@.len() && (#[trigger] changes@[i]).1 is Pos,
{
    let mut any_poss = false;
    let mut new_changes: Vec<String> = Vec::new();
    let mut i: usize = 0;
    while i < changes.len()
        invariant
            i <= changes@.len(),
            new_changes.deep_view() == filter_map(changes@.take(i as int), definite_text()),
            any_poss == exists|j: int| 0 <= j < i && (#[trigger] changes@[j]).1 is Pos,
        decreases changes@.len() - i,
    {
        proof {
            lemma_filter_map_step(changes@, definite_text(), i as int);
        }
        let change = &changes[i];
        match change.1 {
            Value::Def(_) => {
                let text = change_to_text(change);
                let ghost before = new_changes.deep_view();
                new_changes.push(text);
                assert(new_changes.deep_view() =~= before.push(text@));
            },
            Value::Pos(_) => {
                any_poss = true;
            },
        }
        i += 1;
    }
    proof {
        lemma_filter_map_all(changes@, definite_text());
    }
    (new_changes, any_poss)
}

/// The nine references of a box, row by row.
pub fn get_references_for_box(boxc: BoxCoord) -> (r: [Reference; 9])
    requires
        box_origin(boxc).0 * 3 + 3 <= 255,
        box_origin(boxc).1 * 3 + 3 <= 255,
    ensures
        forall|i: int|
            0 <= i < 9 ==> #[trigger] r[i] == box_reference(box_origin(boxc).0, box_origin(boxc).1, i),
{
    let (box_x, box_y) = match boxc {
        BoxCoord::Ord(n) => (n % 3, n / 3),
        BoxCoord::XY(xy) => xy,
    };
    let mut answer = [Reference::Ord(0);9];
    let mut i: usize = 0;
    while i < 9
        invariant
            i <= 9,
            (box_x, box_y) == box_origin(boxc),
            box_x * 3 + 3 <= 255,
            box_y * 3 + 3 <= 255,
            forall|j: int| 0 <= j < i ==> #[trigger] answer[j] == box_reference(box_x, box_y, j),
        decreases 9 - i,
    {
        let inner_x = (i % 3 + 1) as u8;
        let inner_y = (i / 3 + 1) as u8;
        answer[i] = Reference::XY((box_x * 3 + inner_x, box_y * 3 + inner_y));
        i += 1;
    }
    answer
}

} // verus!
