use vstd::prelude::*;

verus! {

/// Reported when a step would leave some cell with no possible digit.
#[derive(Debug)]
pub struct SudokuError;

/// What a cell holds: the digits still possible there (`Pos`, index `k`
/// stands for digit `k + 1`) or a definite digit (`Def`).
#[derive(Copy, Clone, Debug, PartialEq)]
pub enum Value {
    Pos([bool; 9]),
    Def(u8),
}

/// A cell with its 1-based column `x` and row `y`, counted from the top left.
#[derive(Copy, Clone, Debug, PartialEq)]
pub struct Node {
    pub x: u8,
    pub y: u8,
    pub value: Value,
}

/// A way to name a cell: its index in row-major order, or its 1-based
/// `(x, y)` coordinates.
#[derive(Copy, Clone, Debug, PartialEq)]
pub enum Reference {
    Ord(usize),
    XY((u8, u8)),
}

/// A change a solving step makes: the cell, and the value it now holds.
#[derive(Copy, Clone, Debug, PartialEq)]
pub struct Change(pub Reference, pub Value);

/// The 81 cells of a board in row-major order.
#[derive(PartialEq, Copy, Clone)]
pub struct Board {
    pub spaces: [Node; 81],
}

// ---------------------------------------------------------------------------
// Mathematical model
// ---------------------------------------------------------------------------
/// The flags `f(0), ..., f(8)` as an array.
pub open spec fn arr9(f: spec_fn(int) -> bool) -> [bool; 9] {
    let a = vstd::array::spec_array_fill_for_copy_type::<bool, 9>(false);
    let a = vstd::array::spec_array_update(a, 0, f(0));
    let a = vstd::array::spec_array_update(a, 1, f(1));
    let a = vstd::array::spec_array_update(a, 2, f(2));
    let a = vstd::array::spec_array_update(a, 3, f(3));
    let a = vstd::array::spec_array_update(a, 4, f(4));
    let a = vstd::array::spec_array_update(a, 5, f(5));
    let a = vstd::array::spec_array_update(a, 6, f(6));
    let a = vstd::array::spec_array_update(a, 7, f(7));
    vstd::array::spec_array_update(a, 8, f(8))
}

pub broadcast proof fn lemma_arr9(f: spec_fn(int) -> bool, k: int)
    requires
        0 <= k < 9,
    ensures
        #[trigger] arr9(f)[k] == f(k),
{
}

/// An array is determined by its flags.
pub proof fn lemma_arr9_ext(f: spec_fn(int) -> bool, a: [bool; 9])
    requires
        forall|k: int| 0 <= k < 9 ==> a[k] == f(k),
    ensures
        a == arr9(f),
{
    broadcast use lemma_arr9;
    assert(a =~= arr9(f));
}

/// The values `f(i)` that are present, for `i` from `0` to `n - 1`, in order.
pub open spec fn collect<T>(n: int, f: spec_fn(int) -> Option<T>) -> Seq<T>
    decreases n,
{
    if n <= 0 {
        Seq::empty()
    } else {
        collect(n - 1, f) + opt_seq(f(n - 1))
    }
}

/// The sequence holding the value of an option, if any.
pub open spec fn opt_seq<T>(o: Option<T>) -> Seq<T> {
    match o {
        Some(t) => seq![t],
        None => Seq::empty(),
    }
}

/// The values `f(s[i])` that are present, in the order of `s`.
pub open spec fn filter_map<A, B>(s: Seq<A>, f: spec_fn(A) -> Option<B>) -> Seq<B>
    decreases s.len(),
{
    if s.len() == 0 {
        Seq::empty()
    } else {
        filter_map(s.drop_last(), f) + opt_seq(f(s.last()))
    }
}

pub proof fn lemma_filter_map_step<A, B>(s: Seq<A>, f: spec_fn(A) -> Option<B>, i: int)
    requires
        0 <= i < s.len(),
    ensures
        filter_map(s.take(i + 1), f) == filter_map(s.take(i), f) + opt_seq(f(s[i])),
{
    assert(s.take(i + 1).drop_last() =~= s.take(i));
}

pub proof fn lemma_filter_map_all<A, B>(s: Seq<A>, f: spec_fn(A) -> Option<B>)
    ensures
        filter_map(s.take(s.len() as int), f) == filter_map(s, f),
{
    assert(s.take(s.len() as int) =~= s);
}

/// The cell `i` of `s` with its value replaced by `v`.
pub open spec fn set_value(s: Seq<Node>, i: int, v: Value) -> Seq<Node> {
    s.update(i, Node { value: v, ..s[i] })
}

/// What applying changes one by one, as `fill_board` does, comes to.
pub enum Outcome {
    /// A change names no cell, or would alter a definite cell.
    Invalid,
    /// A change would leave a cell with no possible digit.
    Contradiction,
    /// All changes applied; the resulting cells.
    Board(Seq<Node>),
}

/// Applying one change to the cells `s`.
pub open spec fn apply_change(s: Seq<Node>, c: Change) -> Outcome {
    if !names_cell(c.0) {
        Outcome::Invalid
    } else if s[spec_ordinal(c.0)].value is Def && c.1 != s[spec_ordinal(c.0)].value {
        Outcome::Invalid
    } else if is_contradiction(c.1) {
        Outcome::Contradiction
    } else {
        Outcome::Board(set_value(s, spec_ordinal(c.0), c.1))
    }
}

/// Applying the changes in order, stopping at the first that does not apply.
pub open spec fn apply_changes(s: Seq<Node>, cs: Seq<Change>) -> Outcome
    decreases cs.len(),
{
    if cs.len() == 0 {
        Outcome::Board(s)
    } else {
        match apply_changes(s, cs.drop_last()) {
            Outcome::Board(t) => apply_change(t, cs.last()),
            o => o,
        }
    }
}

/// Once the application stops, later changes do not matter.
pub proof fn lemma_apply_changes_stops(s: Seq<Node>, cs: Seq<Change>, k: int)
    requires
        0 <= k <= cs.len(),
        !(apply_changes(s, cs.take(k)) is Board),
    ensures
        apply_changes(s, cs) == apply_changes(s, cs.take(k)),
    decreases cs.len() - k,
{
    if k < cs.len() {
        assert(cs.take(k + 1).drop_last() =~= cs.take(k));
        lemma_apply_changes_stops(s, cs, k + 1);
    } else {
        assert(cs.take(k) =~= cs);
    }
}

pub proof fn lemma_apply_changes_step(s: Seq<Node>, cs: Seq<Change>, k: int)
    requires
        0 <= k < cs.len(),
    ensures
        apply_changes(s, cs.take(k + 1)) == match apply_changes(s, cs.take(k)) {
            Outcome::Board(t) => apply_change(t, cs[k]),
            o => o,
        },
{
    assert(cs.take(k + 1).drop_last() =~= cs.take(k));
}

/// Number of `true` entries of a sequence of flags.
pub open spec fn count_true(s: Seq<bool>) -> nat
    decreases s.len(),
{
    if s.len() == 0 {
        0
    } else {
        count_true(s.drop_last()) + if s.last() {
            1nat
        } else {
            0nat
        }
    }
}

/// The position of a flag that is set (the only one, where exactly one is).
pub open spec fn only_position(s: Seq<bool>) -> int {
    choose|i: int| 0 <= i < s.len() && s[i]
}

pub proof fn lemma_count_true_bound(s: Seq<bool>)
    ensures
        count_true(s) <= s.len(),
    decreases s.len(),
{
    if s.len() > 0 {
        lemma_count_true_bound(s.drop_last());
    }
}

/// No flag is set exactly when the count is zero.
pub proof fn lemma_count_true_zero(s: Seq<bool>)
    ensures
        count_true(s) == 0 <==> forall|i: int| 0 <= i < s.len() ==> !s[i],
    decreases s.len(),
{
    if s.len() > 0 {
        lemma_count_true_zero(s.drop_last());
        if count_true(s) == 0 {
            assert forall|i: int| 0 <= i < s.len() implies !s[i] by {
                if i < s.len() - 1 {
                    assert(s.drop_last()[i] == s[i]);
                }
            }
        }
        if forall|i: int| 0 <= i < s.len() ==> !s[i] {
            assert forall|i: int| 0 <= i < s.drop_last().len() implies !s.drop_last()[i] by {
                assert(s.drop_last()[i] == s[i]);
            }
        }
    }
}

/// Exactly one flag is set: it is at `only_position`, and no other is set.
pub proof fn lemma_count_true_one(s: Seq<bool>)
    requires
        count_true(s) == 1,
    ensures
        0 <= only_position(s) < s.len(),
        s[only_position(s)],
        forall|j: int| 0 <= j < s.len() && s[j] ==> j == only_position(s),
    decreases s.len(),
{
    let t = s.drop_last();
    if s.last() {
        lemma_count_true_zero(t);
        assert(s[s.len() - 1]);
        assert forall|j: int| 0 <= j < s.len() && s[j] implies j == s.len() - 1 by {
            if j < s.len() - 1 {
                assert(t[j] == s[j]);
            }
        }
    } else {
        lemma_count_true_one(t);
        let p = only_position(t);
        assert(s[p]);
        assert forall|j: int| 0 <= j < s.len() && s[j] implies j == p by {
            if j < s.len() - 1 {
                assert(t[j] == s[j]);
            }
        }
    }
}

/// Number of `Some` entries of a sequence of options.
pub open spec fn count_some<T>(s: Seq<Option<T>>) -> nat
    decreases s.len(),
{
    if s.len() == 0 {
        0
    } else {
        count_some(s.drop_last()) + if s.last() is Some {
            1nat
        } else {
            0nat
        }
    }
}

/// The digits `k + 1` for which flag `k` is set, in increasing order.
pub open spec fn candidate_digits(p: Seq<bool>) -> Seq<u8>
    decreases p.len(),
{
    if p.len() == 0 {
        Seq::empty()
    } else {
        candidate_digits(p.drop_last()) + if p.last() {
            seq![p.len() as u8]
        } else {
            Seq::empty()
        }
    }
}

/// Every digit is still possible.
pub open spec fn all_possible(p: [bool; 9]) -> bool {
    forall|k: int| 0 <= k < 9 ==> p[k]
}

/// No digit is possible any more.
pub open spec fn none_possible(p: [bool; 9]) -> bool {
    forall|k: int| 0 <= k < 9 ==> !p[k]
}

/// A value that leaves its cell without any possible digit.
pub open spec fn is_contradiction(v: Value) -> bool {
    match v {
        Value::Pos(p) => none_possible(p),
        Value::Def(_) => false,
    }
}

/// `d` is a digit from 1 to 9.
pub open spec fn is_digit(d: u8) -> bool {
    1 <= d <= 9
}

/// A definite value holds a digit from 1 to 9.
pub open spec fn value_wf(v: Value) -> bool {
    match v {
        Value::Def(d) => is_digit(d),
        Value::Pos(_) => true,
    }
}

/// The cell at row-major index `i` carries its own coordinates and, when
/// definite, a digit from 1 to 9.
pub open spec fn cell_wf(n: Node, i: int) -> bool {
    &&& n.x == i % 9 + 1
    &&& n.y == i / 9 + 1
    &&& value_wf(n.value)
}

/// Both coordinates of a cell lie between 1 and 9.
pub open spec fn coords_in_range(n: Node) -> bool {
    is_digit(n.x) && is_digit(n.y)
}

impl Board {
    /// Every cell sits at the index its coordinates name, and every definite
    /// cell holds a digit from 1 to 9.
    pub open spec fn wf(&self) -> bool {
        forall|i: int| 0 <= i < 81 ==> cell_wf(#[trigger] self.spaces[i], i)
    }
}

/// `ordinal2` computes its index in `u8` arithmetic without overflow.
pub open spec fn ordinal2_defined(x: u8, y: u8) -> bool {
    1 <= y && 1 <= (y - 1) * 9 + x <= 255
}

pub open spec fn spec_ordinal2(x: u8, y: u8) -> int {
    (y - 1) * 9 + x - 1
}

pub open spec fn ordinal_defined(r: Reference) -> bool {
    match r {
        Reference::Ord(_) => true,
        Reference::XY((x, y)) => ordinal2_defined(x, y),
    }
}

/// A cell named by the coordinates `xy` gives for its index is the same
/// cell.
pub proof fn lemma_xy_names_same_cell(n: usize)
    requires
        n < 81,
    ensures
        names_cell(Reference::XY(spec_xy(Reference::Ord(n)))),
        spec_ordinal(Reference::XY(spec_xy(Reference::Ord(n)))) == n,
{
}

/// Whether two references are written alike.
pub fn same_reference(a: &Reference, b: &Reference) -> (r: bool)
    ensures
        r == (*a == *b),
{
    match (a, b) {
        (Reference::Ord(x), Reference::Ord(y)) => *x == *y,
        (Reference::XY((x1, y1)), Reference::XY((x2, y2))) => *x1 == *x2 && *y1 == *y2,
        _ => false,
    }
}

/// Whether two changes are equal.
pub fn same_change(a: &Change, b: &Change) -> (r: bool)
    ensures
        r == (*a == *b),
{
    same_reference(&a.0, &b.0) && same_value(&a.1, &b.1)
}

/// Whether the change is among the changes.
pub fn contains_change(changes: &Vec<Change>, change: &Change) -> (r: bool)
    ensures
        r == changes@.contains(*change),
{
    let mut i: usize = 0;
    while i < changes.len()
        invariant
            i <= changes@.len(),
            forall|j: int| 0 <= j < i ==> changes@[j] != *change,
        decreases changes@.len() - i,
    {
        if same_change(&changes[i], change) {
            return true;
        }
        i += 1;
    }
    false
}

/// `filter_map` gives nothing exactly when `f` gives nothing on every
/// element.
pub proof fn lemma_filter_map_empty<A, B>(s: Seq<A>, f: spec_fn(A) -> Option<B>)
    ensures
        filter_map(s, f).len() == 0 <==> forall|i: int| 0 <= i < s.len() ==> #[trigger] f(s[i]) is None,
    decreases s.len(),
{
    if s.len() > 0 {
        lemma_filter_map_empty(s.drop_last(), f);
        if filter_map(s, f).len() == 0 {
            assert forall|i: int| 0 <= i < s.len() implies #[trigger] f(s[i]) is None by {
                if i < s.len() - 1 {
                    assert(s.drop_last()[i] == s[i]);
                }
            }
        }
        if forall|i: int| 0 <= i < s.len() ==> #[trigger] f(s[i]) is None {
            assert forall|i: int| 0 <= i < s.drop_last().len() implies #[trigger] f(s.drop_last()[i]) is None by {
                assert(s.drop_last()[i] == s[i]);
            }
            assert(f(s[s.len() - 1]) is None);
        }
    }
}

/// The row-major index a reference names.
pub open spec fn spec_ordinal(r: Reference) -> int {
    match r {
        Reference::Ord(n) => n as int,
        Reference::XY((x, y)) => spec_ordinal2(x, y),
    }
}

/// The reference names one of the 81 cells.
pub open spec fn names_cell(r: Reference) -> bool {
    ordinal_defined(r) && 0 <= spec_ordinal(r) < 81
}

pub open spec fn spec_xy(r: Reference) -> (u8, u8) {
    match r {
        Reference::Ord(n) => ((n % 9 + 1) as u8, (n / 9 + 1) as u8),
        Reference::XY(t) => t,
    }
}

pub open spec fn spec_is_pos(v: Value, n: u8) -> bool {
    match v {
        Value::Pos(p) => if n != 0 && n < 10 {
            p[n - 1]
        } else {
            false
        },
        Value::Def(_) => false,
    }
}

pub open spec fn spec_match_value(v: Value, exception: u8) -> u8 {
    match v {
        Value::Pos(_) => exception,
        Value::Def(x) => x,
    }
}

// ---------------------------------------------------------------------------
// Executable helpers
// ---------------------------------------------------------------------------
impl Node {
    /// A cell with coordinates (0, 0) where every digit is possible.
    pub fn make_empty_node() -> (r: Self)
        ensures
            r.x == 0,
            r.y == 0,
            r.value is Pos,
            all_possible(r.value->Pos_0),
    {
        Node { x: 0, y: 0, value: Value::Pos([true;9]) }
    }

    /// Gives the cell a new value. A definite cell may only be given its own
    /// value again. Fails when the new value leaves no digit possible.
    pub fn change_value(self, new_value: Value) -> (r: Result<Self, SudokuError>)
        requires
            self.value is Def ==> new_value == self.value,
        ensures
            r is Err <==> is_contradiction(new_value),
            r is Ok ==> r->Ok_0 == (Node { value: new_value, ..self }),
    {
        if let Value::Pos(p) = new_value {
            if no_candidates(&p) {
                return Err(SudokuError);
            }
        }
        Ok(Node { value: new_value, ..self })
    }
}

/// Whether no digit is possible in `p`.
pub fn no_candidates(p: &[bool; 9]) -> (r: bool)
    ensures
        r == none_possible(*p),
{
    let mut k: usize = 0;
    while k < 9
        invariant
            k <= 9,
            forall|j: int| 0 <= j < k ==> !p[j],
        decreases 9 - k,
    {
        if p[k] {
            return false;
        }
        k += 1;
    }
    true
}

/// Whether two candidate sets are equal.
pub fn same_candidates(a: &[bool; 9], b: &[bool; 9]) -> (r: bool)
    ensures
        r == (*a == *b),
{
    let mut k: usize = 0;
    while k < 9
        invariant
            k <= 9,
            forall|j: int| 0 <= j < k ==> a[j] == b[j],
        decreases 9 - k,
    {
        if a[k] != b[k] {
            return false;
        }
        k += 1;
    }
    assert(a@ =~= b@);
    assert(*a =~= *b);
    true
}

/// Whether a reference names one of the 81 cells.
pub fn names_a_cell(reference: &Reference) -> (r: bool)
    ensures
        r == names_cell(*reference),
{
    match reference {
        Reference::Ord(n) => *n < 81,
        Reference::XY((x, y)) => {
            let x: u64 = *x as u64;
            let y: u64 = *y as u64;
            if y < 1 {
                false
            } else {
                let sum = (y - 1) * 9 + x;
                1 <= sum && sum <= 255 && sum - 1 < 81
            }
        },
    }
}

/// Whether two values are equal.
pub fn same_value(a: &Value, b: &Value) -> (r: bool)
    ensures
        r == (*a == *b),
{
    match (a, b) {
        (Value::Def(x), Value::Def(y)) => *x == *y,
        (Value::Pos(p), Value::Pos(q)) => same_candidates(p, q),
        _ => false,
    }
}

/// The row-major index a reference names.
pub fn ordinal(reference: &Reference) -> (r: usize)
    requires
        ordinal_defined(*reference),
    ensures
        r == spec_ordinal(*reference),
{
    match reference {
        Reference::Ord(n) => *n,
        Reference::XY((x, y)) => ordinal2(x, y),
    }
}

/// The row-major index of the 1-based coordinates `(x, y)`, computed in `u8`.
pub fn ordinal2(x: &u8, y: &u8) -> (r: usize)
    requires
        ordinal2_defined(*x, *y),
    ensures
        r == spec_ordinal2(*x, *y),
{
    let x: u8 = *x;
    let y: u8 = *y;
    ((y - 1) * 9 + x - 1) as usize
}

/// The 1-based coordinates a reference names; an index is split by `% 9`
/// and `/ 9` and each part truncated to `u8`.
pub fn xy(reference: &Reference) -> (r: (u8, u8))
    ensures
        r == spec_xy(*reference),
{
    match reference {
        Reference::Ord(n) => ((*n % 9 + 1) as u8, (*n / 9 + 1) as u8),
        Reference::XY(t) => *t,
    }
}

/// Whether digit `n` is still possible in a value that is not definite.
pub fn is_pos(node_value: &Value, n: &u8) -> (r: bool)
    ensures
        r == spec_is_pos(*node_value, *n),
{
    let n2: usize = *n as usize;
    match node_value {
        Value::Pos(pos_list) => if n2 != 0 && n2 < 10 {
            pos_list[n2 - 1]
        } else {
            false
        },
        Value::Def(_) => false,
    }
}

/// The definite digit of a value, or `exception` when it is not definite.
pub fn match_value(value: &Value, exception: u8) -> (r: u8)
    ensures
        r == spec_match_value(*value, exception),
{
    match value {
        Value::Pos(_) => exception,
        Value::Def(x) => *x,
    }
}

/// The 0-based index of a digit.
pub fn ord(number: &u8) -> (r: usize)
    requires
        *number >= 1,
    ensures
        r == *number - 1,
{
    (*number - 1) as usize
}

/// How many digits are set.
pub fn sum_bool(poss: [bool; 9]) -> (r: u8)
    ensures
        r == count_true(poss@),
        r <= 9,
{
    let mut sum: u8 = 0;
    let mut i: usize = 0;
    while i < 9
        invariant
            i <= 9,
            sum == count_true(poss@.take(i as int)),
            sum <= i,
        decreases 9 - i,
    {
        assert(poss@.take(i + 1).drop_last() =~= poss@.take(i as int));
        if poss[i] {
            sum += 1;
        }
        i += 1;
    }
    assert(poss@.take(9) =~= poss@);
    sum
}

/// How many of three flags are set.
pub fn sum_bool_3(poss: [bool; 3]) -> (r: u8)
    ensures
        r == count_true(poss@),
        r <= 3,
{
    let mut sum: u8 = 0;
    let mut i: usize = 0;
    while i < 3
        invariant
            i <= 3,
            sum == count_true(poss@.take(i as int)),
            sum <= i,
        decreases 3 - i,
    {
        assert(poss@.take(i + 1).drop_last() =~= poss@.take(i as int));
        if poss[i] {
            sum += 1;
        }
        i += 1;
    }
    assert(poss@.take(3) =~= poss@);
    sum
}

/// How many entries are `Some`; the count is kept in a `u8`.
pub fn sum_option<T>(anything: &[Option<T>]) -> (r: u8)
    requires
        count_some(anything@) <= 255,
    ensures
        r == count_some(anything@),
{
    let mut answer: u8 = 0;
    let mut i: usize = 0;
    proof {
        lemma_count_some_prefix(anything@, 0);
    }
    while i < anything.len()
        invariant
            i <= anything@.len(),
            answer == count_some(anything@.take(i as int)),
            count_some(anything@) <= 255,
        decreases anything@.len() - i,
    {
        assert(anything@.take(i + 1).drop_last() =~= anything@.take(i as int));
        proof {
            lemma_count_some_prefix(anything@, i + 1);
        }
        match &anything[i] {
            Some(_) => answer += 1,
            None => {},
        }
        i += 1;
    }
    assert(anything@.take(anything@.len() as int) =~= anything@);
    answer
}

/// The count over a prefix never exceeds the count over the whole.
pub proof fn lemma_count_some_prefix<T>(s: Seq<Option<T>>, k: int)
    requires
        0 <= k <= s.len(),
    ensures
        count_some(s.take(k)) <= count_some(s),
    decreases s.len() - k,
{
    if k < s.len() {
        lemma_count_some_prefix(s, k + 1);
        assert(s.take(k + 1).drop_last() =~= s.take(k));
    } else {
        assert(s.take(k) =~= s);
    }
}

/// The digits still possible, in increasing order.
pub fn poss_as_vec(poss: [bool; 9]) -> (r: Vec<u8>)
    ensures
        r@ == candidate_digits(poss@),
{
    let mut answer: Vec<u8> = Vec::new();
    let mut i: usize = 0;
    while i < 9
        invariant
            i <= 9,
            answer@ == candidate_digits(poss@.take(i as int)),
        decreases 9 - i,
    {
        assert(poss@.take(i + 1).drop_last() =~= poss@.take(i as int));
        if poss[i] {
            answer.push((i + 1) as u8);
        }
        i += 1;
    }
    assert(poss@.take(9) =~= poss@);
    answer
}

} // verus!
