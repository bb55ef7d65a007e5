use vstd::prelude::*;

use crate::solver::step_matches;
use crate::board_utils::{
    box_cell, box_of, box_pos, get_references_for_box, lemma_box_cell, lemma_box_reference,
    lemma_cell_box, BoxCoord,
};
use crate::solos::{
    box_refs, cand_at, col_refs, places, row_refs, solo_change, solo_changes, solo_changes_upto, solo_upto,
    unit_solos,
};
use crate::utils::{
    Board, Change, Node, Reference, SudokuError, Value, arr9, collect, count_some, count_true,
    is_contradiction, lemma_arr9_ext, names_cell, opt_seq, same_candidates, spec_ordinal, sum_bool,
};

verus! {

/// A set of positions 0 to 8 (`c`) with a count (`size`) kept alongside.
#[derive(Debug, Copy, Clone, PartialEq)]
pub struct BitSet {
    pub c: [bool; 9],
    pub size: u8,
}

/// The positions set in `b` but not in `a`.
pub open spec fn new_bits(a: [bool; 9], b: [bool; 9]) -> Seq<bool> {
    Seq::new(9, |i: int| !a[i] && b[i])
}

/// The positions set in `a` or in `b`.
pub open spec fn or_bits(a: Seq<bool>, b: Seq<bool>) -> Seq<bool> {
    Seq::new(a.len(), |i: int| a[i] || b[i])
}

/// Setting the flags of `b` that `a` lacks adds their number to the count.
pub proof fn lemma_count_or(a: Seq<bool>, b: Seq<bool>)
    requires
        a.len() == b.len(),
    ensures
        count_true(or_bits(a, b)) == count_true(a) + count_true(Seq::new(a.len(), |i: int| !a[i] && b[i])),
    decreases a.len(),
{
    if a.len() > 0 {
        let n = (a.len() - 1) as int;
        lemma_count_or(a.drop_last(), b.drop_last());
        assert(or_bits(a, b).drop_last() =~= or_bits(a.drop_last(), b.drop_last()));
        assert(Seq::new(a.len(), |i: int| !a[i] && b[i]).drop_last() =~= Seq::new(
            a.drop_last().len(),
            |i: int| !a.drop_last()[i] && b.drop_last()[i],
        ));
    }
}


// ---------------------------------------------------------------------------
// Model of the group search
// ---------------------------------------------------------------------------
/// The positions of each digit's set, where it has one.
pub open spec fn mapping_view(m: [Option<BitSet>; 9]) -> Seq<Option<Seq<bool>>> {
    Seq::new(9, |i: int| match m[i] {
        Some(b) => Some(b.c@),
        None => None,
    })
}

/// A branch of the search: the digits taken, and the union of their places.
pub open spec fn branch_view(p: (BitSet, BitSet)) -> (Seq<bool>, Seq<bool>) {
    (p.0.c@, p.1.c@)
}

pub open spec fn branches_view(v: Seq<(BitSet, BitSet)>) -> Seq<(Seq<bool>, Seq<bool>)> {
    Seq::new(v.len(), |i: int| branch_view(v[i]))
}

pub open spec fn all_sized(v: Seq<(BitSet, BitSet)>) -> bool {
    forall|i: int| 0 <= i < v.len() ==> (#[trigger] v[i]).0.sized() && v[i].1.sized()
}

/// The empty branch.
pub open spec fn empty_branch() -> (Seq<bool>, Seq<bool>) {
    (Seq::new(9, |i: int| false), Seq::new(9, |i: int| false))
}

/// The branch extended by digit `v`, where `v` has a set and is not taken yet.
pub open spec fn fg_child(m: Seq<Option<Seq<bool>>>, br: (Seq<bool>, Seq<bool>)) -> spec_fn(int) -> Option<(Seq<bool>, Seq<bool>)> {
    |v: int|
        if m[v] is Some && !br.0[v] {
            Some((br.0.update(v, true), or_bits(br.1, m[v]->Some_0)))
        } else {
            None
        }
}

pub open spec fn fg_children(m: Seq<Option<Seq<bool>>>, br: (Seq<bool>, Seq<bool>)) -> Seq<(Seq<bool>, Seq<bool>)> {
    collect(9, fg_child(m, br))
}

/// The children of the branches, taken from the last branch to the first.
pub open spec fn fg_expand(m: Seq<Option<Seq<bool>>>, bs: Seq<(Seq<bool>, Seq<bool>)>) -> Seq<(Seq<bool>, Seq<bool>)>
    decreases bs.len(),
{
    if bs.len() == 0 {
        Seq::empty()
    } else {
        fg_children(m, bs.last()) + fg_expand(m, bs.drop_last())
    }
}

/// The branches at depth `d`.
pub open spec fn fg_level(m: Seq<Option<Seq<bool>>>, d: nat) -> Seq<(Seq<bool>, Seq<bool>)>
    decreases d,
{
    if d == 0 {
        seq![empty_branch()]
    } else {
        fg_expand(m, fg_level(m, (d - 1) as nat))
    }
}

/// A group: as many digits as places.
pub open spec fn fg_goal(br: (Seq<bool>, Seq<bool>)) -> bool {
    count_true(br.0) == count_true(br.1)
}

/// The last branch that is a group.
pub open spec fn fg_search(bs: Seq<(Seq<bool>, Seq<bool>)>) -> Option<(Seq<bool>, Seq<bool>)>
    decreases bs.len(),
{
    if bs.len() == 0 {
        None
    } else if fg_goal(bs.last()) {
        Some(bs.last())
    } else {
        fg_search(bs.drop_last())
    }
}

/// The first group found at a depth from `d` on (and at least `md`), below
/// depth `cap - 1`.
pub open spec fn fg_from(m: Seq<Option<Seq<bool>>>, md: int, d: int, cap: int) -> Option<(Seq<bool>, Seq<bool>)>
    decreases cap - d,
{
    if d >= cap - 1 || d < 0 {
        None
    } else if d >= md && fg_search(fg_level(m, d as nat)) is Some {
        fg_search(fg_level(m, d as nat))
    } else {
        fg_from(m, md, d + 1, cap)
    }
}

/// Breadth-first search for a set of digits with as many places in all as
/// digits (a "group"), at depth `md` or more; at least four digits must have
/// places.
#[verifier::opaque]
pub open spec fn find_group_spec(m: Seq<Option<Seq<bool>>>, md: int) -> Option<(Seq<bool>, Seq<bool>)> {
    let cap = crate::utils::count_some(m);
    if cap < 4 {
        None
    } else {
        fg_from(m, md, 0, cap as int)
    }
}

pub proof fn lemma_fg_expand_first(m: Seq<Option<Seq<bool>>>, t: Seq<(Seq<bool>, Seq<bool>)>)
    requires
        t.len() >= 1,
    ensures
        fg_expand(m, t) == fg_expand(m, t.drop_first()) + fg_children(m, t[0]),
    decreases t.len(),
{
    if t.len() == 1 {
        assert(t.drop_first() =~= Seq::<(Seq<bool>, Seq<bool>)>::empty());
        assert(t.drop_last() =~= Seq::<(Seq<bool>, Seq<bool>)>::empty());
        assert(fg_children(m, t[0]) + Seq::<(Seq<bool>, Seq<bool>)>::empty() =~= fg_children(m, t[0]));
        assert(Seq::<(Seq<bool>, Seq<bool>)>::empty() + fg_children(m, t[0]) =~= fg_children(m, t[0]));
    } else {
        lemma_fg_expand_first(m, t.drop_last());
        assert(t.drop_last().drop_first() =~= t.drop_first().drop_last());
        assert(t.drop_first().last() == t.last());
        assert(t.drop_last()[0] == t[0]);
        let a = fg_children(m, t.last());
        let b = fg_expand(m, t.drop_last().drop_first());
        let c = fg_children(m, t[0]);
        assert(a + (b + c) =~= (a + b) + c);
    }
}

pub proof fn lemma_fg_search_take(bs: Seq<(Seq<bool>, Seq<bool>)>, k: int)
    requires
        0 <= k < bs.len(),
        !fg_goal(bs[k]),
    ensures
        fg_search(bs.take(k + 1)) == fg_search(bs.take(k)),
{
    assert(bs.take(k + 1).drop_last() =~= bs.take(k));
}

pub proof fn lemma_count_update_true(s: Seq<bool>, v: int)
    requires
        0 <= v < s.len(),
        !s[v],
    ensures
        count_true(s.update(v, true)) == count_true(s) + 1,
    decreases s.len(),
{
    if v < s.len() - 1 {
        lemma_count_update_true(s.drop_last(), v);
        assert(s.update(v, true).drop_last() =~= s.drop_last().update(v, true));
    } else {
        assert(s.update(v, true).drop_last() =~= s.drop_last());
    }
}

pub proof fn lemma_count_update_false(s: Seq<bool>, v: int)
    requires
        0 <= v < s.len(),
        s[v],
    ensures
        count_true(s.update(v, false)) + 1 == count_true(s),
    decreases s.len(),
{
    if v < s.len() - 1 {
        lemma_count_update_false(s.drop_last(), v);
        assert(s.update(v, false).drop_last() =~= s.drop_last().update(v, false));
    } else {
        assert(s.update(v, false).drop_last() =~= s.drop_last());
    }
}

impl BitSet {
    /// The count is the number of set positions.
    pub open spec fn sized(self) -> bool {
        self.size == count_true(self.c@)
    }

    /// The set of the given positions, with their number.
    pub fn create(bit_list: [bool; 9]) -> (r: Self)
        ensures
            r.c == bit_list,
            r.sized(),
    {
        Self { c: bit_list, size: sum_bool(bit_list) }
    }

    /// The empty set.
    pub fn empty() -> (r: Self)
        ensures
            forall|k: int| 0 <= k < 9 ==> !r.c[k],
            r.size == 0,
            r.sized(),
    {
        let r = Self::create([false;9]);
        proof {
            crate::utils::lemma_count_true_zero(r.c@);
        }
        r
    }

    /// The set of all nine positions.
    pub fn full() -> (r: Self)
        ensures
            forall|k: int| 0 <= k < 9 ==> r.c[k],
            r.size == 9,
            r.sized(),
    {
        let r = Self::create([true;9]);
        proof {
            lemma_count_all_true(r.c@);
        }
        r
    }

    /// Sets position `i` and counts one more.
    pub fn add(&mut self, i: usize)
        requires
            i < 9,
            old(self).size < 255,
        ensures
            final(self).c@ == old(self).c@.update(i as int, true),
            final(self).size == old(self).size + 1,
    {
        self.c[i] = true;
        self.size += 1;
    }

    /// Clears position `i` and counts one less.
    pub fn remove(&mut self, i: usize)
        requires
            i < 9,
            old(self).size >= 1,
        ensures
            final(self).c@ == old(self).c@.update(i as int, false),
            final(self).size == old(self).size - 1,
    {
        self.c[i] = false;
        self.size -= 1;
    }

    /// Moves the first position that `other` has and `self` lacks, if any.
    pub fn move_one_from(&mut self, other: &mut Self)
        requires
            (exists|i: int| 0 <= i < 9 && !old(self).c[i] && old(other).c[i]) ==> old(self).size < 255
                && old(other).size >= 1,
        ensures
            !(exists|i: int| 0 <= i < 9 && !old(self).c[i] && old(other).c[i]) ==> *final(self) == *old(
                self,
            ) && *final(other) == *old(other),
            (exists|i: int| 0 <= i < 9 && !old(self).c[i] && old(other).c[i]) ==> exists|i: int|
                0 <= i < 9 && !old(self).c[i] && old(other).c[i] && (forall|k: int|
                    0 <= k < i ==> !(!old(self).c[k] && old(other).c[k])) && final(self).c@ == old(
                    self,
                ).c@.update(i, true) && final(self).size == old(self).size + 1 && final(other).c@
                    == old(other).c@.update(i, false) && final(other).size == old(other).size - 1,
    {
        let mut i: usize = 0;
        while i < 9
            invariant
                i <= 9,
                *self == *old(self),
                *other == *old(other),
                forall|k: int| 0 <= k < i ==> !(!old(self).c[k] && old(other).c[k]),
                (exists|i: int| 0 <= i < 9 && !old(self).c[i] && old(other).c[i]) ==> old(self).size < 255
                    && old(other).size >= 1,
            decreases 9 - i,
        {
            if !self.c[i] && other.c[i] {
                self.add(i);
                other.remove(i);
                return;
            }
            i += 1;
        }
    }

    /// A copy of `self` with position `n` added; `other` loses position `n`.
    pub fn move_from(&mut self, other: &mut Self, n: usize) -> (r: Self)
        requires
            n < 9,
            old(self).size < 255,
            old(other).size >= 1,
        ensures
            *final(self) == *old(self),
            r.c@ == old(self).c@.update(n as int, true),
            r.size == old(self).size + 1,
            final(other).c@ == old(other).c@.update(n as int, false),
            final(other).size == old(other).size - 1,
    {
        let mut new = *self;
        new.add(n);
        other.remove(n);
        new
    }

    /// The union, its count grown by the positions `other` adds.
    pub fn union_of(self, other: &Self) -> (r: Self)
        requires
            self.size + count_true(new_bits(self.c, other.c)) <= 255,
        ensures
            r.c@ == or_bits(self.c@, other.c@),
            r.size == self.size + count_true(new_bits(self.c, other.c)),
    {
        let mut new = self;
        let mut i: usize = 0;
        while i < 9
            invariant
                i <= 9,
                self.size + count_true(new_bits(self.c, other.c)) <= 255,
                forall|k: int| 0 <= k < 9 ==> new.c[k] == if k < i { self.c[k] || other.c[k] } else { self.c[k] },
                new.size == self.size + count_true(new_bits(self.c, other.c).take(i as int)),
            decreases 9 - i,
        {
            proof {
                assert(new_bits(self.c, other.c).take(i + 1).drop_last() =~= new_bits(self.c, other.c).take(i as int));
                lemma_count_take_mono(new_bits(self.c, other.c), i + 1);
            }
            let had = self.c[i];
            new.c[i] = new.c[i] || other.c[i];
            if had && !new.c[i] {
                new.size -= 1;
            } else if !had && new.c[i] {
                new.size += 1;
            }
            i += 1;
        }
        assert(new_bits(self.c, other.c).take(9) =~= new_bits(self.c, other.c));
        assert(new.c@ =~= or_bits(self.c@, other.c@));
        new
    }
}

pub proof fn lemma_count_all_true(s: Seq<bool>)
    requires
        forall|k: int| 0 <= k < s.len() ==> s[k],
    ensures
        count_true(s) == s.len(),
    decreases s.len(),
{
    if s.len() > 0 {
        lemma_count_all_true(s.drop_last());
    }
}

/// The count over a prefix is at most the count over the whole.
pub proof fn lemma_count_take_mono(s: Seq<bool>, k: int)
    requires
        0 <= k <= s.len(),
    ensures
        count_true(s.take(k)) <= count_true(s),
    decreases s.len() - k,
{
    if k < s.len() {
        lemma_count_take_mono(s, k + 1);
        assert(s.take(k + 1).drop_last() =~= s.take(k));
    } else {
        assert(s.take(k) =~= s);
    }
}

pub proof fn lemma_count_some_flags<T>(m: Seq<Option<T>>)
    ensures
        count_true(Seq::new(m.len(), |k: int| m[k] is Some)) == count_some(m),
    decreases m.len(),
{
    if m.len() > 0 {
        lemma_count_some_flags(m.drop_last());
        assert(Seq::new(m.len(), |k: int| m[k] is Some).drop_last() =~= Seq::new(
            m.drop_last().len(),
            |k: int| m.drop_last()[k] is Some,
        ));
    }
}

proof fn lemma_branches_view_take(v: Seq<(BitSet, BitSet)>, k: int)
    requires
        0 <= k <= v.len(),
    ensures
        branches_view(v.take(k)) == branches_view(v).take(k),
{
    assert(branches_view(v.take(k)) =~= branches_view(v).take(k));
}

proof fn lemma_branches_view_push(v: Seq<(BitSet, BitSet)>, x: (BitSet, BitSet))
    ensures
        branches_view(v.push(x)) == branches_view(v).push(branch_view(x)),
{
    assert(branches_view(v.push(x)) =~= branches_view(v).push(branch_view(x)));
}

impl BitSet {
    /// Breadth-first search for a group of digits: as many digits as places
    /// in the union of their sets. Returns the digits and the places.
    pub fn find_group(mapping: [Option<Self>; 9], minimum_depth: u8) -> (r: Option<(Self, Self)>)
        ensures
            match find_group_spec(mapping_view(mapping), minimum_depth as int) {
                None => r is None,
                Some(g) => r is Some && branch_view(r->Some_0) == g && r->Some_0.0.sized()
                    && r->Some_0.1.sized(),
            },
    {
        reveal(find_group_spec);
        let ghost m = mapping_view(mapping);
        let ghost md = minimum_depth as int;
        let mut capacity: usize = 0;
        let mut i: usize = 0;
        let mut values = Self::empty();
        while i < 9
            invariant
                i <= 9,
                m == mapping_view(mapping),
                capacity == count_some(m.take(i as int)),
                capacity <= i,
                forall|k: int| 0 <= k < 9 ==> values.c[k] == (k < i && m[k] is Some),
            decreases 9 - i,
        {
            assert(m.take(i + 1).drop_last() =~= m.take(i as int));
            if let Some(_) = mapping[i] {
                capacity += 1;
                values.c[i] = true;
            }
            i += 1;
        }
        assert(m.take(9) =~= m);
        if capacity < 4 {
            return None;
        }
        values.size = capacity as u8;
        proof {
            assert(values.c@ =~= Seq::new(m.len(), |k: int| m[k] is Some));
            lemma_count_some_flags(m);
        }
        let values = values;
        let e0 = Self::empty();
        let e1 = Self::empty();
        let mut branches: Vec<(Self, Self)> = vec![(e0, e1)];
        proof {
            assert(e0.c@ =~= Seq::new(9, |i: int| false));
            assert(e1.c@ =~= Seq::new(9, |i: int| false));
            assert(branches_view(branches@) =~= fg_level(m, 0));
        }
        let mut d: u8 = 0;
        while (d as usize) < capacity - 1
            invariant
                4 <= capacity <= 9,
                d <= capacity - 1,
                m == mapping_view(mapping),
                md == minimum_depth as int,
                capacity == count_some(m),
                values.c@ == Seq::new(m.len(), |k: int| m[k] is Some),
                values.sized(),
                branches_view(branches@) == fg_level(m, d as nat),
                all_sized(branches@),
                find_group_spec(m, md) == fg_from(m, md, d as int, capacity as int),
            decreases capacity - d,
        {
            let ghost level = fg_level(m, d as nat);
            let mut new_branches: Vec<(Self, Self)> = Vec::new();
            proof {
                assert(level.take(level.len() as int) =~= level);
                assert(level.skip(level.len() as int) =~= Seq::<(Seq<bool>, Seq<bool>)>::empty());
            }
            while !branches.is_empty()
                invariant
                    4 <= capacity <= 9,
                    d < capacity - 1,
                    m == mapping_view(mapping),
                    md == minimum_depth as int,
                    values.c@ == Seq::new(m.len(), |k: int| m[k] is Some),
                    values.sized(),
                    branches@.len() <= level.len(),
                    branches_view(branches@) == level.take(branches@.len() as int),
                    branches_view(new_branches@) == fg_expand(m, level.skip(branches@.len() as int)),
                    all_sized(branches@),
                    all_sized(new_branches@),
                    d >= minimum_depth ==> fg_search(level) == fg_search(level.take(branches@.len() as int)),
                    find_group_spec(m, md) == fg_from(m, md, d as int, capacity as int),
                    level == fg_level(m, d as nat),
                decreases branches@.len(),
            {
                let ghost k = (branches@.len() - 1) as int;
                let ghost old_branches = branches@;
                let mut unfilled_values = values;
                let (mut b, fb) = match branches.pop() {
                    Some(x) => x,
                    None => {
                        return None;
                    },
                };
                let ghost br = (b.c@, fb.c@);
                proof {
                    assert(branches@ == old_branches.take(k));
                    lemma_branches_view_take(old_branches, k);
                    assert(branches_view(old_branches)[k] == br);
                    assert(level.take(k + 1)[k] == level[k]);
                    assert(level[k] == br);
                    assert(branches_view(branches@) =~= level.take(k + 1).take(k));
                    assert(level.take(k + 1).take(k) =~= level.take(k));
                    assert(old_branches[k] == (b, fb));
                    assert(b.sized() && fb.sized());
                }
                if d >= minimum_depth {
                    if b.size == fb.size {
                        proof {
                            assert(level.take(k + 1).last() == br);
                            assert(fg_goal(br));
                        }
                        return Some((b, fb));
                    }
                }
                proof {
                    if d >= minimum_depth {
                        lemma_fg_search_take(level, k);
                    }
                }
                let ghost before = new_branches@;
                let mut v: usize = 0;
                while v < 9
                    invariant
                        v <= 9,
                        m == mapping_view(mapping),
                        values.c@ == Seq::new(m.len(), |k: int| m[k] is Some),
                        b.sized(),
                        fb.sized(),
                        br == (b.c@, fb.c@),
                        unfilled_values.sized(),
                        forall|w: int| v <= w < 9 ==> unfilled_values.c[w] == values.c[w],
                        branches_view(new_branches@) == branches_view(before) + collect(v as int, fg_child(m, br)),
                        all_sized(new_branches@),
                    decreases 9 - v,
                {
                    proof {
                        crate::utils::lemma_count_true_bound(b.c@);
                    }
                    if unfilled_values.c[v] && !b.c[v] {
                        proof {
                            lemma_count_update_false(unfilled_values.c@, v as int);
                            lemma_count_update_true(b.c@, v as int);
                        }
                        let new_b = b.move_from(&mut unfilled_values, v);
                        let other = match mapping[v] {
                            Some(o) => o,
                            None => {
                                return None;
                            },
                        };
                        proof {
                            lemma_count_or(fb.c@, other.c@);
                            assert(new_bits(fb.c, other.c) =~= Seq::new(fb.c@.len(), |i: int| !fb.c@[i] && other.c@[i]));
                            crate::utils::lemma_count_true_bound(or_bits(fb.c@, other.c@));
                        }
                        let new_fb = fb.union_of(&other);
                        proof {
                            lemma_branches_view_push(new_branches@, (new_b, new_fb));
                            assert(new_b.c@ =~= br.0.update(v as int, true));
                        }
                        new_branches.push((new_b, new_fb));
                    }
                    proof {
                        crate::solver::lemma_collect_step(v as int, fg_child(m, br));
                        assert(branches_view(new_branches@) =~= branches_view(before) + collect(v + 1, fg_child(m, br)));
                    }
                    v += 1;
                }
                proof {
                    let t = level.skip(k);
                    lemma_fg_expand_first(m, t);
                    assert(t.drop_first() =~= level.skip(k + 1));
                    assert(t[0] == level[k]);
                }
            }
            proof {
                assert(level.skip(0) =~= level);
                assert(level.take(0) =~= Seq::<(Seq<bool>, Seq<bool>)>::empty());
            }
            d += 1;
            branches = new_branches;
        }
        None
    }
}

// ---------------------------------------------------------------------------
// Places covered by a search
// ---------------------------------------------------------------------------
/// Every place set in `fb` is a place of some digit taken in `t`.
pub open spec fn covered(m: Seq<Option<Seq<bool>>>, t: Seq<bool>, fb: Seq<bool>) -> bool {
    forall|j: int|
        0 <= j < fb.len() && #[trigger] fb[j] ==> exists|v: int|
            0 <= v < 9 && t[v] && m[v] is Some && m[v]->Some_0.len() == fb.len() && m[v]->Some_0[j]
}

/// Every branch covers only places of the digits it has taken.
pub open spec fn level_covered(m: Seq<Option<Seq<bool>>>, bs: Seq<(Seq<bool>, Seq<bool>)>) -> bool {
    forall|k: int|
        0 <= k < bs.len() ==> (#[trigger] bs[k]).1.len() == 9 && bs[k].0.len() == 9 && covered(
            m,
            bs[k].0,
            bs[k].1,
        )
}

proof fn lemma_children_covered(m: Seq<Option<Seq<bool>>>, br: (Seq<bool>, Seq<bool>), n: int)
    requires
        m.len() == 9,
        forall|v: int| 0 <= v < 9 && (#[trigger] m[v]) is Some ==> m[v]->Some_0.len() == 9,
        br.1.len() == 9,
        br.0.len() == 9,
        covered(m, br.0, br.1),
        n <= 9,
    ensures
        level_covered(m, collect(n, fg_child(m, br))),
    decreases n,
{
    if n > 0 {
        lemma_children_covered(m, br, n - 1);
        let a = collect(n - 1, fg_child(m, br));
        let b = opt_seq(fg_child(m, br)(n - 1));
        assert forall|k: int| 0 <= k < (a + b).len() implies (#[trigger] (a + b)[k]).1.len() == 9 && (a
            + b)[k].0.len() == 9 && covered(m, (a + b)[k].0, (a + b)[k].1) by {
            if k < a.len() {
                assert((a + b)[k] == a[k]);
            } else {
                let tk = br.0.update(n - 1, true);
                let u = or_bits(br.1, m[n - 1]->Some_0);
                assert((a + b)[k] == (tk, u));
                assert forall|j: int| 0 <= j < u.len() && #[trigger] u[j] implies exists|v: int|
                    0 <= v < 9 && tk[v] && m[v] is Some && m[v]->Some_0.len() == u.len() && m[v]->Some_0[j] by {
                    if br.1[j] {
                        let w = choose|w: int|
                            0 <= w < 9 && br.0[w] && m[w] is Some && m[w]->Some_0.len() == br.1.len()
                                && m[w]->Some_0[j];
                        assert(tk[w]);
                    } else {
                        assert(m[n - 1]->Some_0[j]);
                        assert(tk[n - 1]);
                    }
                }
            }
        }
    }
}

proof fn lemma_expand_covered(m: Seq<Option<Seq<bool>>>, bs: Seq<(Seq<bool>, Seq<bool>)>)
    requires
        m.len() == 9,
        forall|v: int| 0 <= v < 9 && (#[trigger] m[v]) is Some ==> m[v]->Some_0.len() == 9,
        level_covered(m, bs),
    ensures
        level_covered(m, fg_expand(m, bs)),
    decreases bs.len(),
{
    if bs.len() > 0 {
        assert(level_covered(m, bs.drop_last())) by {
            assert forall|k: int| 0 <= k < bs.drop_last().len() implies (#[trigger] bs.drop_last()[k]).1.len() == 9
                && bs.drop_last()[k].0.len() == 9 && covered(m, bs.drop_last()[k].0, bs.drop_last()[k].1) by {
                assert(bs.drop_last()[k] == bs[k]);
            }
        }
        lemma_expand_covered(m, bs.drop_last());
        assert(bs.last() == bs[bs.len() - 1]);
        lemma_children_covered(m, bs.last(), 9);
        let a = fg_children(m, bs.last());
        let b = fg_expand(m, bs.drop_last());
        assert forall|k: int| 0 <= k < (a + b).len() implies (#[trigger] (a + b)[k]).1.len() == 9 && (a
            + b)[k].0.len() == 9 && covered(m, (a + b)[k].0, (a + b)[k].1) by {
            if k < a.len() {
                assert((a + b)[k] == a[k]);
            } else {
                assert((a + b)[k] == b[k - a.len()]);
            }
        }
    }
}

proof fn lemma_level_covered(m: Seq<Option<Seq<bool>>>, d: nat)
    requires
        m.len() == 9,
        forall|v: int| 0 <= v < 9 && (#[trigger] m[v]) is Some ==> m[v]->Some_0.len() == 9,
    ensures
        level_covered(m, fg_level(m, d)),
    decreases d,
{
    if d == 0 {
        assert(fg_level(m, 0)[0] == empty_branch());
    } else {
        lemma_level_covered(m, (d - 1) as nat);
        lemma_expand_covered(m, fg_level(m, (d - 1) as nat));
    }
}

pub proof fn lemma_search_in(bs: Seq<(Seq<bool>, Seq<bool>)>)
    ensures
        fg_search(bs) matches Some(g) ==> exists|k: int| 0 <= k < bs.len() && bs[k] == g,
    decreases bs.len(),
{
    if bs.len() > 0 {
        lemma_search_in(bs.drop_last());
        if fg_search(bs) is Some && !fg_goal(bs.last()) {
            let k = choose|k: int| 0 <= k < bs.drop_last().len() && bs.drop_last()[k] == fg_search(bs)->Some_0;
            assert(bs[k] == bs.drop_last()[k]);
        }
        if fg_goal(bs.last()) {
            assert(bs[bs.len() - 1] == bs.last());
        }
    }
}

proof fn lemma_from_covered(m: Seq<Option<Seq<bool>>>, md: int, d: int, cap: int)
    requires
        m.len() == 9,
        forall|v: int| 0 <= v < 9 && (#[trigger] m[v]) is Some ==> m[v]->Some_0.len() == 9,
    ensures
        fg_from(m, md, d, cap) matches Some(g) ==> g.1.len() == 9 && g.0.len() == 9 && covered(m, g.0, g.1),
    decreases cap - d,
{
    if d >= cap - 1 || d < 0 {
    } else if d >= md && fg_search(fg_level(m, d as nat)) is Some {
        lemma_search_in(fg_level(m, d as nat));
        lemma_level_covered(m, d as nat);
        let lv = fg_level(m, d as nat);
        let g = fg_search(lv)->Some_0;
        let k = choose|k: int| 0 <= k < lv.len() && #[trigger] lv[k] == g;
        assert(level_covered(m, lv));
        assert(lv[k].1.len() == 9 && lv[k].0.len() == 9 && covered(m, lv[k].0, lv[k].1));
    } else {
        lemma_from_covered(m, md, d + 1, cap);
    }
}

/// Each place of a group found by the search is a place of one of the
/// group's digits.
pub proof fn lemma_group_covered(m: Seq<Option<Seq<bool>>>, md: int)
    requires
        m.len() == 9,
        forall|v: int| 0 <= v < 9 && (#[trigger] m[v]) is Some ==> m[v]->Some_0.len() == 9,
    ensures
        find_group_spec(m, md) matches Some(g) ==> g.1.len() == 9 && g.0.len() == 9 && covered(m, g.0, g.1),
{
    reveal(find_group_spec);
    lemma_from_covered(m, md, 0, count_some(m) as int);
}

// ---------------------------------------------------------------------------
// Model of the group elimination
// ---------------------------------------------------------------------------
/// Cell `j` of unit `i`: of box `i` (`how` is `None`), row `i` (`Some(true)`)
/// or column `i` (`Some(false)`).
pub open spec fn unit_cell(how: Option<bool>, i: int, j: int) -> int {
    match how {
        None => box_cell(i, j),
        Some(true) => 9 * i + j,
        Some(false) => i + 9 * j,
    }
}

/// The unit of cell `c`.
pub open spec fn unit_of(how: Option<bool>, c: int) -> int {
    match how {
        None => box_of(c),
        Some(true) => c / 9,
        Some(false) => c % 9,
    }
}

/// The position of cell `c` within its unit.
pub open spec fn unit_pos(how: Option<bool>, c: int) -> int {
    match how {
        None => box_pos(c),
        Some(true) => c % 9,
        Some(false) => c / 9,
    }
}

/// The references to the cells of unit `i`.
pub open spec fn unit_refs(how: Option<bool>, i: int) -> Seq<Reference> {
    match how {
        None => box_refs(i),
        Some(true) => Seq::new(9, |k: int| Reference::Ord((9 * i + k) as usize)),
        Some(false) => Seq::new(9, |k: int| Reference::Ord((i + 9 * k) as usize)),
    }
}

/// The cells of unit `i`.
pub open spec fn unit_nodes(s: Seq<Node>, how: Option<bool>, i: int) -> Seq<Node> {
    Seq::new(9, |j: int| s[unit_cell(how, i, j)])
}

/// The positions among the nine cells where digit `v + 1` is still
/// possible.
pub open spec fn slice_places(sl: Seq<Node>, v: int) -> Seq<bool> {
    Seq::new(9, |r: int| sl[r].value is Pos && sl[r].value->Pos_0[v])
}

/// For each digit, its places among the nine cells, where it has any.
pub open spec fn slice_mapping(sl: Seq<Node>) -> Seq<Option<Seq<bool>>> {
    Seq::new(9, |v: int| if count_true(slice_places(sl, v)) == 0 {
        None
    } else {
        Some(slice_places(sl, v))
    })
}

/// No digit has exactly one place among the nine cells.
pub open spec fn no_lone_place(sl: Seq<Node>) -> bool {
    forall|v: int| 0 <= v < 9 ==> count_true(#[trigger] slice_places(sl, v)) != 1
}

/// No unit of the kind has a digit with exactly one place.
pub open spec fn groups_defined(s: Seq<Node>, how: Option<bool>) -> bool {
    forall|i: int| 0 <= i < 9 ==> no_lone_place(#[trigger] unit_nodes(s, how, i))
}

/// The candidates `p` kept to the digits `t`.
pub open spec fn grp_new(p: [bool; 9], t: Seq<bool>) -> [bool; 9] {
    arr9(|k: int| p[k] && t[k])
}

/// The change to cell `j` of unit `i` by the group found at depth `md`.
#[verifier::opaque]
pub open spec fn grp_change(s: Seq<Node>, how: Option<bool>, i: int, md: int) -> spec_fn(int) -> Option<Change> {
    |j: int|
        match find_group_spec(slice_mapping(unit_nodes(s, how, i)), md) {
            Some(g) => {
                let n = unit_nodes(s, how, i)[j];
                if g.1[j] && n.value is Pos && grp_new(n.value->Pos_0, g.0) != n.value->Pos_0 {
                    Some(Change(unit_refs(how, i)[j], Value::Pos(grp_new(n.value->Pos_0, g.0))))
                } else {
                    None
                }
            },
            None => None,
        }
}

pub open spec fn grp_changes(s: Seq<Node>, how: Option<bool>, i: int, md: int) -> Seq<Change> {
    collect(9, grp_change(s, how, i, md))
}

/// The first depth from `md` to 8 whose group changes unit `i`; 9 if none.
pub open spec fn unit_depth(s: Seq<Node>, how: Option<bool>, i: int, md: int) -> int
    decreases 9 - md,
{
    if md >= 9 {
        9
    } else if grp_changes(s, how, i, md).len() > 0 {
        md
    } else {
        unit_depth(s, how, i, md + 1)
    }
}

/// The change the group elimination makes to cell `j` of unit `i`.
pub open spec fn unit_change(s: Seq<Node>, how: Option<bool>, i: int, j: int) -> Option<Change> {
    if unit_depth(s, how, i, 2) < 9 {
        grp_change(s, how, i, unit_depth(s, how, i, 2))(j)
    } else {
        None
    }
}

pub open spec fn unit_changes(s: Seq<Node>, how: Option<bool>, i: int) -> Seq<Change> {
    if unit_depth(s, how, i, 2) < 9 {
        grp_changes(s, how, i, unit_depth(s, how, i, 2))
    } else {
        Seq::empty()
    }
}

pub open spec fn groups_changes_upto(s: Seq<Node>, how: Option<bool>, n: int) -> Seq<Change>
    decreases n,
{
    if n <= 0 {
        Seq::empty()
    } else {
        groups_changes_upto(s, how, n - 1) + unit_changes(s, how, n - 1)
    }
}

/// The change the group elimination makes to cell `c`.
pub open spec fn cell_group_change(s: Seq<Node>, how: Option<bool>, c: int) -> Option<Change> {
    unit_change(s, how, unit_of(how, c), unit_pos(how, c))
}

/// Cell `c` would be left without candidates.
pub open spec fn group_fails(s: Seq<Node>, how: Option<bool>, c: int) -> bool {
    cell_group_change(s, how, c) matches Some(ch) && is_contradiction(ch.1)
}

pub open spec fn fgs_node(s: Seq<Node>, how: Option<bool>, c: int) -> Node {
    match cell_group_change(s, how, c) {
        Some(ch) => Node { value: ch.1, ..s[c] },
        None => s[c],
    }
}

/// In each unit of the kind, keeps the cells where a group of digits has
/// all its places to those digits, at the smallest depth (from 2) that
/// changes something. Fails if a cell is left without candidates.
pub open spec fn find_groups_spec(s: Seq<Node>, how: Option<bool>) -> Option<(Seq<Node>, Seq<Change>)> {
    if exists|c: int| 0 <= c < 81 && #[trigger] group_fails(s, how, c) {
        None
    } else {
        Some((Seq::new(81, |c: int| fgs_node(s, how, c)), groups_changes_upto(s, how, 9)))
    }
}

pub proof fn lemma_unit_geometry(how: Option<bool>)
    ensures
        forall|i: int, j: int|
            0 <= i < 9 && 0 <= j < 9 ==> 0 <= #[trigger] unit_cell(how, i, j) < 81 && unit_of(how, unit_cell(how, i, j))
                == i && unit_pos(how, unit_cell(how, i, j)) == j,
        forall|c: int|
            0 <= c < 81 ==> 0 <= #[trigger] unit_of(how, c) < 9 && 0 <= unit_pos(how, c) < 9 && unit_cell(
                how,
                unit_of(how, c),
                unit_pos(how, c),
            ) == c,
{
    assert forall|i: int, j: int| 0 <= i < 9 && 0 <= j < 9 implies 0 <= #[trigger] unit_cell(how, i, j) < 81
        && unit_of(how, unit_cell(how, i, j)) == i && unit_pos(how, unit_cell(how, i, j)) == j by {
        lemma_box_cell(i, j);
    }
    assert forall|c: int| 0 <= c < 81 implies 0 <= #[trigger] unit_of(how, c) < 9 && 0 <= unit_pos(how, c) < 9
        && unit_cell(how, unit_of(how, c), unit_pos(how, c)) == c by {
        lemma_cell_box(c);
    }
}

pub proof fn lemma_collect_empty<T>(n: int, f: spec_fn(int) -> Option<T>)
    requires
        collect(n, f).len() == 0,
    ensures
        forall|j: int| 0 <= j < n ==> #[trigger] f(j) is None,
    decreases n,
{
    if n > 0 {
        lemma_collect_empty(n - 1, f);
    }
}

proof fn lemma_unit_depth(s: Seq<Node>, how: Option<bool>, i: int, a: int, md: int)
    requires
        2 <= a <= md <= 9,
        forall|m: int| a <= m < md ==> #[trigger] grp_changes(s, how, i, m).len() == 0,
        md < 9 ==> grp_changes(s, how, i, md).len() > 0,
    ensures
        unit_depth(s, how, i, a) == md,
    decreases md - a,
{
    if a < md {
        lemma_unit_depth(s, how, i, a + 1, md);
    }
}

pub proof fn lemma_grp_change_at(s: Seq<Node>, how: Option<bool>, i: int, md: int, j: int, t: Seq<bool>, ft: Seq<bool>)
    requires
        find_group_spec(slice_mapping(unit_nodes(s, how, i)), md) == Some((t, ft)),
    ensures
        grp_change(s, how, i, md)(j) == ({
            let n = unit_nodes(s, how, i)[j];
            if ft[j] && n.value is Pos && grp_new(n.value->Pos_0, t) != n.value->Pos_0 {
                Some(Change(unit_refs(how, i)[j], Value::Pos(grp_new(n.value->Pos_0, t))))
            } else {
                None
            }
        }),
{
    reveal(grp_change);
}

pub proof fn lemma_grp_change_none(s: Seq<Node>, how: Option<bool>, i: int, md: int)
    requires
        find_group_spec(slice_mapping(unit_nodes(s, how, i)), md) is None,
    ensures
        forall|j: int| #[trigger] grp_change(s, how, i, md)(j) is None,
{
    reveal(grp_change);
}

/// The change to cell `j` of unit `i` at depth `md` leaves no candidate.
pub open spec fn grp_fails_at(s: Seq<Node>, how: Option<bool>, i: int, md: int, j: int) -> bool {
    grp_change(s, how, i, md)(j) matches Some(ch) && is_contradiction(ch.1)
}

/// Cell `c` of unit `i` after the group found at depth `md` is applied.
pub open spec fn grp_node(s: Seq<Node>, how: Option<bool>, i: int, md: int, c: int) -> Node {
    match grp_change(s, how, i, md)(unit_pos(how, c)) {
        Some(ch) => Node { value: ch.1, ..s[c] },
        None => s[c],
    }
}

/// The cells `s`, with those of unit `i` as the group found at depth `md`
/// leaves them.
pub open spec fn unit_applied(s: Seq<Node>, s0: Seq<Node>, how: Option<bool>, i: int, md: int) -> Seq<Node> {
    Seq::new(81, |c: int| if unit_of(how, c) == i {
        grp_node(s0, how, i, md, c)
    } else {
        s[c]
    })
}

proof fn lemma_collect_some<T>(n: int, f: spec_fn(int) -> Option<T>, j: int)
    requires
        0 <= j < n,
        f(j) is Some,
    ensures
        collect(n, f).len() > 0,
    decreases n,
{
    if j < n - 1 {
        lemma_collect_some(n - 1, f, j);
    }
}

/// The references to the nine cells of unit `i`.
fn unit_references(how: Option<bool>, i: usize) -> (r: [Reference; 9])
    requires
        i < 9,
    ensures
        r@ == unit_refs(how, i as int),
        forall|j: int|
            0 <= j < 9 ==> names_cell(#[trigger] r[j]) && spec_ordinal(r[j]) == unit_cell(how, i as int, j),
{
    let r = match how {
        None => get_references_for_box(BoxCoord::Ord(i as u8)),
        Some(true) => [
            Reference::Ord(9 * i),
            Reference::Ord(9 * i + 1),
            Reference::Ord(9 * i + 2),
            Reference::Ord(9 * i + 3),
            Reference::Ord(9 * i + 4),
            Reference::Ord(9 * i + 5),
            Reference::Ord(9 * i + 6),
            Reference::Ord(9 * i + 7),
            Reference::Ord(9 * i + 8),
        ],
        Some(false) => [
            Reference::Ord(i),
            Reference::Ord(i + 9),
            Reference::Ord(i + 18),
            Reference::Ord(i + 27),
            Reference::Ord(i + 36),
            Reference::Ord(i + 45),
            Reference::Ord(i + 54),
            Reference::Ord(i + 63),
            Reference::Ord(i + 72),
        ],
    };
    proof {
        assert(r@ =~= unit_refs(how, i as int));
        assert forall|j: int| 0 <= j < 9 implies names_cell(#[trigger] r[j]) && spec_ordinal(r[j]) == unit_cell(how, i as int, j) by {
            if how is None {
                lemma_box_reference(i as int, j);
            }
        }
    }
    r
}

/// For each digit, the set of its places among the nine cells, where it has
/// any; no digit may have exactly one place.
fn unit_mapping(board_slice: &[Node; 9]) -> (r: [Option<BitSet>; 9])
    requires
        no_lone_place(board_slice@),
    ensures
        mapping_view(r) == slice_mapping(board_slice@),
{
    let ghost sl = board_slice@;
    let mut to_be_mapping: [BitSet; 9] = [BitSet::empty();9];
    let mut r: usize = 0;
    while r < 9
        invariant
            r <= 9,
            sl == board_slice@,
            forall|j: int, q: int|
                0 <= j < 9 && 0 <= q < 9 ==> #[trigger] to_be_mapping[j].c[q] == (q < r && slice_places(sl, j)[q]),
            forall|j: int| 0 <= j < 9 ==> #[trigger] to_be_mapping[j].size == count_true(slice_places(sl, j).take(r as int)),
            forall|jj: int| 0 <= jj < 9 ==> #[trigger] to_be_mapping[jj].size <= r,
        decreases 9 - r,
    {
        let node = board_slice[r];
        let ghost before = to_be_mapping;
        if let Value::Pos(p) = node.value {
            let mut j: usize = 0;
            while j < 9
                invariant
                    r < 9,
                    j <= 9,
                    node == sl[r as int],
                    node.value == Value::Pos(p),
                    forall|jj: int, q: int|
                        0 <= jj < 9 && 0 <= q < 9 ==> #[trigger] to_be_mapping[jj].c[q] == (before[jj].c[q] || (jj < j && q == r && p[jj])),
                    forall|jj: int| 0 <= jj < 9 ==> #[trigger] to_be_mapping[jj].size == before[jj].size + (if jj < j && p[jj] { 1int } else { 0int }),
                    forall|jj: int| 0 <= jj < 9 ==> #[trigger] before[jj].size <= r,
                decreases 9 - j,
            {
                let ghost prev = to_be_mapping;
                if p[j] {
                    let mut m = to_be_mapping[j];
                    m.add(r);
                    to_be_mapping[j] = m;
                    proof {
                        assert forall|jj: int, q: int| 0 <= jj < 9 && 0 <= q < 9 implies #[trigger] to_be_mapping[jj].c[q]
                            == (before[jj].c[q] || (jj < j + 1 && q == r && p[jj])) by {
                            if jj == j {
                                assert(to_be_mapping[jj].c@ == prev[jj].c@.update(r as int, true));
                                assert(prev[jj].c[q] == (before[jj].c[q] || (jj < j && q == r && p[jj])));
                            } else {
                                assert(to_be_mapping[jj] == prev[jj]);
                            }
                        }
                    }
                }
                j += 1;
            }
        }
        proof {
            assert forall|j: int| 0 <= j < 9 implies #[trigger] to_be_mapping[j].size == count_true(slice_places(sl, j).take(r + 1)) by {
                assert(slice_places(sl, j).take(r + 1).drop_last() =~= slice_places(sl, j).take(r as int));
            }
        }
        r += 1;
        proof {
            assert forall|j: int| 0 <= j < 9 implies #[trigger] to_be_mapping[j].size <= r by {
                crate::utils::lemma_count_true_bound(slice_places(sl, j).take(r as int));
            }
        }
    }
    assert forall|j: int| 0 <= j < 9 implies #[trigger] to_be_mapping[j].size == count_true(slice_places(sl, j)) by {
        assert(slice_places(sl, j).take(9) =~= slice_places(sl, j));
    }
    let mut mapping: [Option<BitSet>; 9] = [None;9];
    let mut k: usize = 0;
    while k < 9
        invariant
            k <= 9,
            sl == board_slice@,
            no_lone_place(sl),
            forall|j: int, q: int|
                0 <= j < 9 && 0 <= q < 9 ==> #[trigger] to_be_mapping[j].c[q] == slice_places(sl, j)[q],
            forall|j: int| 0 <= j < 9 ==> #[trigger] to_be_mapping[j].size == count_true(slice_places(sl, j)),
            forall|j: int| 0 <= j < k ==> #[trigger] mapping_view(mapping)[j] == slice_mapping(sl)[j],
        decreases 9 - k,
    {
        let m = to_be_mapping[k];
        proof {
            assert(slice_places(sl, k as int).take(9) =~= slice_places(sl, k as int));
            assert(m.c@ =~= slice_places(sl, k as int));
        }
        let ghost before = mapping;
        mapping[k] = if m.size == 0 {
            None
        } else {
            Some(m)
        };
        assert forall|j: int| 0 <= j < k + 1 implies #[trigger] mapping_view(mapping)[j] == slice_mapping(sl)[j] by {
            if j < k {
                assert(mapping[j] == before[j]);
                assert(mapping_view(before)[j] == slice_mapping(sl)[j]);
            }
        }
        k += 1;
    }
    assert(mapping_view(mapping) =~= slice_mapping(sl));
    mapping
}

/// One more cell of unit `i` takes the group found at depth `md`.
proof fn lemma_group_step(
    before: Seq<Node>,
    after: Seq<Node>,
    orig: Seq<Node>,
    s0: Seq<Node>,
    how: Option<bool>,
    i: int,
    md: int,
    j: int,
)
    requires
        0 <= i < 9,
        0 <= j < 9,
        before.len() == 81,
        forall|c: int|
            0 <= c < 81 ==> #[trigger] before[c] == (if unit_of(how, c) == i && unit_pos(how, c) < j {
                grp_node(s0, how, i, md, c)
            } else {
                orig[c]
            }),
        forall|c: int| 0 <= c < 81 && unit_of(how, c) == i ==> #[trigger] orig[c] == s0[c],
        after == (match grp_change(s0, how, i, md)(j) {
            Some(ch) => crate::utils::set_value(before, unit_cell(how, i, j), ch.1),
            None => before,
        }),
    ensures
        forall|c: int|
            0 <= c < 81 ==> #[trigger] after[c] == (if unit_of(how, c) == i && unit_pos(how, c) < j + 1 {
                grp_node(s0, how, i, md, c)
            } else {
                orig[c]
            }),
{
    lemma_unit_geometry(how);
    let c0 = unit_cell(how, i, j);
    assert forall|c: int| 0 <= c < 81 implies #[trigger] after[c] == (if unit_of(how, c) == i && unit_pos(how, c) < j + 1 {
        grp_node(s0, how, i, md, c)
    } else {
        orig[c]
    }) by {
        if c != c0 {
            assert(after[c] == before[c]);
            if unit_of(how, c) == i && unit_pos(how, c) == j {
                assert(unit_cell(how, unit_of(how, c), unit_pos(how, c)) == c);
            }
        } else {
            assert(unit_of(how, c) == i && unit_pos(how, c) == j);
        }
    }
}

impl Board {
    /// Keeps cell `j` of a unit (at cell `c`) to the digits `t` where `ft`
    /// marks it, recording the change `f(j)` if there is one.
    fn group_cell(
        self,
        refs: &[Reference; 9],
        board_slice: &[Node; 9],
        t: &BitSet,
        ft: &BitSet,
        changes: &mut Vec<Change>,
        j: usize,
        Ghost(c): Ghost<int>,
        Ghost(f): Ghost<spec_fn(int) -> Option<Change>>,
    ) -> (r: Result<Self, SudokuError>)
        requires
            j < 9,
            0 <= c < 81,
            names_cell(refs[j as int]),
            spec_ordinal(refs[j as int]) == c,
            self.spaces[c] == board_slice[j as int],
            ft.c[j as int] ==> board_slice[j as int].value is Pos,
            f(j as int) == ({
                let n = board_slice[j as int];
                if ft.c[j as int] && n.value is Pos && grp_new(n.value->Pos_0, t.c@) != n.value->Pos_0 {
                    Some(Change(refs[j as int], Value::Pos(grp_new(n.value->Pos_0, t.c@))))
                } else {
                    None
                }
            }),
        ensures
            r is Ok <==> !(f(j as int) matches Some(ch) && is_contradiction(ch.1)),
            r is Ok ==> final(changes)@ == old(changes)@ + opt_seq(f(j as int)),
            r is Ok ==> r->Ok_0.spaces@ == (match f(j as int) {
                Some(ch) => crate::utils::set_value(self.spaces@, c, ch.1),
                None => self.spaces@,
            }),
    {
        if !ft.c[j] {
            return Ok(self);
        }
        let node = board_slice[j];
        let p = match node.value {
            Value::Pos(x) => x,
            Value::Def(_) => {
                return Ok(self);
            },
        };
        let mut new_p = p;
        let mut k: usize = 0;
        while k < 9
            invariant
                k <= 9,
                forall|kk: int| 0 <= kk < 9 ==> new_p[kk] == (p[kk] && !(kk < k && !t.c[kk])),
            decreases 9 - k,
        {
            if t.c[k] == false {
                new_p[k] = false;
            }
            k += 1;
        }
        proof {
            lemma_arr9_ext(|kk: int| p[kk] && t.c@[kk], new_p);
            assert(new_p == grp_new(p, t.c@));
        }
        if same_candidates(&new_p, &p) {
            return Ok(self);
        }
        changes.push(Change(refs[j], Value::Pos(new_p)));
        self.fill_board(&refs[j], Value::Pos(new_p))
    }

    /// Keeps the cells `ft` of unit `i` to the digits `t` (the group found at
    /// depth `md`), recording each change.
    fn apply_group(
        self,
        refs: &[Reference; 9],
        board_slice: &[Node; 9],
        t: BitSet,
        ft: BitSet,
        changes: &mut Vec<Change>,
        how: Option<bool>,
        i: usize,
        md: u8,
        Ghost(s0): Ghost<Seq<Node>>,
    ) -> (r: Result<Self, SudokuError>)
        requires
            i < 9,
            s0.len() == 81,
            refs@ == unit_refs(how, i as int),
            forall|j: int|
                0 <= j < 9 ==> names_cell(#[trigger] refs[j]) && spec_ordinal(refs[j]) == unit_cell(how, i as int, j),
            board_slice@ == unit_nodes(s0, how, i as int),
            forall|c: int| 0 <= c < 81 && unit_of(how, c) == i ==> #[trigger] self.spaces[c] == s0[c],
            find_group_spec(slice_mapping(board_slice@), md as int) == Some((t.c@, ft.c@)),
            old(changes)@.len() == 0,
        ensures
            r is Ok ==> final(changes)@ == grp_changes(s0, how, i as int, md as int),
            r is Ok ==> forall|c: int|
                0 <= c < 81 ==> #[trigger] r->Ok_0.spaces[c] == (if unit_of(how, c) == i {
                    grp_node(s0, how, i as int, md as int, c)
                } else {
                    self.spaces[c]
                }),
            r is Ok ==> forall|j: int| 0 <= j < 9 ==> !#[trigger] grp_fails_at(s0, how, i as int, md as int, j),
            r is Err ==> exists|j: int| 0 <= j < 9 && #[trigger] grp_fails_at(s0, how, i as int, md as int, j),
    {
        let ghost sl = board_slice@;
        let ghost m = slice_mapping(sl);
        let ghost f = grp_change(s0, how, i as int, md as int);
        proof {
            lemma_group_covered(m, md as int);
        }
        let mut board = self;
        let mut j: usize = 0;
        while j < 9
            invariant
                j <= 9,
                i < 9,
                s0.len() == 81,
                sl == board_slice@,
                m == slice_mapping(sl),
                f == grp_change(s0, how, i as int, md as int),
                refs@ == unit_refs(how, i as int),
                forall|j: int|
                    0 <= j < 9 ==> names_cell(#[trigger] refs[j]) && spec_ordinal(refs[j]) == unit_cell(how, i as int, j),
                sl == unit_nodes(s0, how, i as int),
                find_group_spec(m, md as int) == Some((t.c@, ft.c@)),
                ft.c@.len() == 9 && covered(m, t.c@, ft.c@),
                forall|c: int|
                    0 <= c < 81 ==> #[trigger] board.spaces[c] == (if unit_of(how, c) == i && unit_pos(how, c) < j {
                        grp_node(s0, how, i as int, md as int, c)
                    } else {
                        self.spaces[c]
                    }),
                forall|c: int| 0 <= c < 81 && unit_of(how, c) == i ==> #[trigger] self.spaces[c] == s0[c],
                changes@ == collect(j as int, f),
                forall|jj: int| 0 <= jj < j ==> !#[trigger] grp_fails_at(s0, how, i as int, md as int, jj),
            decreases 9 - j,
        {
            let ghost c = unit_cell(how, i as int, j as int);
            let ghost before = board.spaces@;
            proof {
                lemma_grp_change_at(s0, how, i as int, md as int, j as int, t.c@, ft.c@);
                crate::solver::lemma_collect_step(j as int, f);
                assert(0 <= c < 81 && unit_of(how, c) == i && unit_pos(how, c) == j) by {
                    lemma_unit_geometry(how);
                }
                assert(sl[j as int] == s0[c]);
                if ft.c[j as int] {
                    let v = choose|v: int| 0 <= v < 9 && t.c@[v] && m[v] is Some && m[v]->Some_0.len() == 9 && m[v]->Some_0[j as int];
                    assert(slice_places(sl, v)[j as int]);
                }
            }
            board = match board.group_cell(refs, board_slice, &t, &ft, changes, j, Ghost(c), Ghost(f)) {
                Ok(b) => b,
                Err(e) => {
                    assert(grp_fails_at(s0, how, i as int, md as int, j as int));
                    return Err(e);
                },
            };
            proof {
                lemma_group_step(before, board.spaces@, self.spaces@, s0, how, i as int, md as int, j as int);
            }
            j += 1;
        }
        Ok(board)
    }

    /// Looks for a group at depth `md` in unit `i` and applies it.
    fn unit_groups_at(
        self,
        refs: &[Reference; 9],
        board_slice: &[Node; 9],
        mapping: [Option<BitSet>; 9],
        how: Option<bool>,
        i: usize,
        md: u8,
        Ghost(s0): Ghost<Seq<Node>>,
    ) -> (r: Result<(Self, Vec<Change>), SudokuError>)
        requires
            i < 9,
            s0.len() == 81,
            refs@ == unit_refs(how, i as int),
            forall|j: int|
                0 <= j < 9 ==> names_cell(#[trigger] refs[j]) && spec_ordinal(refs[j]) == unit_cell(how, i as int, j),
            board_slice@ == unit_nodes(s0, how, i as int),
            mapping_view(mapping) == slice_mapping(board_slice@),
            forall|c: int| 0 <= c < 81 && unit_of(how, c) == i ==> #[trigger] self.spaces[c] == s0[c],
        ensures
            r is Ok ==> r->Ok_0.1@ == grp_changes(s0, how, i as int, md as int),
            r is Ok ==> r->Ok_0.0.spaces@ == unit_applied(self.spaces@, s0, how, i as int, md as int),
            r is Ok ==> forall|j: int| 0 <= j < 9 ==> !#[trigger] grp_fails_at(s0, how, i as int, md as int, j),
            r is Err ==> exists|j: int| 0 <= j < 9 && #[trigger] grp_fails_at(s0, how, i as int, md as int, j),
    {
        match BitSet::find_group(mapping, md) {
            Some((t, ft)) => {
                let mut changes: Vec<Change> = Vec::new();
                let board = self.apply_group(refs, board_slice, t, ft, &mut changes, how, i, md, Ghost(s0))?;
                assert(board.spaces@ =~= unit_applied(self.spaces@, s0, how, i as int, md as int));
                Ok((board, changes))
            },
            None => {
                proof {
                    lemma_grp_change_none(s0, how, i as int, md as int);
                    lemma_collect_none(9, grp_change(s0, how, i as int, md as int));
                    assert(self.spaces@ =~= unit_applied(self.spaces@, s0, how, i as int, md as int));
                }
                Ok((self, Vec::new()))
            },
        }
    }

    /// Tries depths from `md` to 8 in unit `i`, stopping at the first whose
    /// group changes something.
    #[verifier::spinoff_prover]
    fn groups_from(
        self,
        refs: &[Reference; 9],
        board_slice: &[Node; 9],
        mapping: [Option<BitSet>; 9],
        how: Option<bool>,
        i: usize,
        md: u8,
        Ghost(s0): Ghost<Seq<Node>>,
    ) -> (r: Result<(Self, Vec<Change>), SudokuError>)
        requires
            i < 9,
            2 <= md <= 9,
            s0.len() == 81,
            refs@ == unit_refs(how, i as int),
            forall|j: int|
                0 <= j < 9 ==> names_cell(#[trigger] refs[j]) && spec_ordinal(refs[j]) == unit_cell(how, i as int, j),
            board_slice@ == unit_nodes(s0, how, i as int),
            mapping_view(mapping) == slice_mapping(board_slice@),
            forall|c: int| 0 <= c < 81 && unit_of(how, c) == i ==> #[trigger] self.spaces[c] == s0[c],
        ensures
            ({
                let d = unit_depth(s0, how, i as int, md as int);
                &&& r is Ok ==> r->Ok_0.1@ == (if d < 9 { grp_changes(s0, how, i as int, d) } else { Seq::empty() })
                &&& r is Ok ==> r->Ok_0.0.spaces@ == (if d < 9 {
                    unit_applied(self.spaces@, s0, how, i as int, d)
                } else {
                    self.spaces@
                })
                &&& r is Ok && d < 9 ==> forall|j: int| 0 <= j < 9 ==> !#[trigger] grp_fails_at(s0, how, i as int, d, j)
                &&& r is Err ==> d < 9 && exists|j: int| 0 <= j < 9 && #[trigger] grp_fails_at(s0, how, i as int, d, j)
            }),
        decreases 9 - md,
    {
        if md > 8 {
            return Ok((self, Vec::new()));
        }
        match self.unit_groups_at(refs, board_slice, mapping, how, i, md, Ghost(s0)) {
            Err(e) => {
                proof {
                    let j = choose|j: int| 0 <= j < 9 && #[trigger] grp_fails_at(s0, how, i as int, md as int, j);
                    lemma_collect_some(9, grp_change(s0, how, i as int, md as int), j);
                }
                Err(e)
            },
            Ok((board, changes)) => {
                if changes.len() > 0 {
                    Ok((board, changes))
                } else {
                    self.groups_from(refs, board_slice, mapping, how, i, md + 1, Ghost(s0))
                }
            },
        }
    }

    /// Applies to unit `i` the group found at the smallest depth from 2 that
    /// changes it.
    fn find_unit_groups(self, how: Option<bool>, i: usize, Ghost(s0): Ghost<Seq<Node>>) -> (r: Result<(Self, Vec<Change>), SudokuError>)
        requires
            i < 9,
            s0.len() == 81,
            no_lone_place(unit_nodes(s0, how, i as int)),
            forall|c: int| 0 <= c < 81 && unit_of(how, c) == i ==> #[trigger] self.spaces[c] == s0[c],
        ensures
            r is Ok ==> r->Ok_0.1@ == unit_changes(s0, how, i as int),
            r is Ok ==> forall|c: int|
                0 <= c < 81 ==> #[trigger] r->Ok_0.0.spaces[c] == (if unit_of(how, c) == i {
                    fgs_node(s0, how, c)
                } else {
                    self.spaces[c]
                }),
            r is Ok ==> forall|c: int| 0 <= c < 81 && unit_of(how, c) == i ==> !#[trigger] group_fails(s0, how, c),
            r is Err ==> exists|c: int| 0 <= c < 81 && unit_of(how, c) == i && #[trigger] group_fails(s0, how, c),
    {
        proof {
            lemma_unit_geometry(how);
        }
        let references = unit_references(how, i);
        let board_slice = self.nodes_of(&references);
        proof {
            assert(board_slice@ =~= unit_nodes(s0, how, i as int));
        }
        let mapping = unit_mapping(&board_slice);
        let r = self.groups_from(&references, &board_slice, mapping, how, i, 2, Ghost(s0));
        let ghost d = unit_depth(s0, how, i as int, 2);
        proof {
            if r is Ok {
                let res = r->Ok_0;
                {
                    assert forall|c: int| 0 <= c < 81 implies #[trigger] res.0.spaces[c] == (if unit_of(how, c) == i {
                        fgs_node(s0, how, c)
                    } else {
                        self.spaces[c]
                    }) by {
                        if unit_of(how, c) == i && d >= 9 {
                            assert(self.spaces[c] == s0[c]);
                        }
                    }
                    assert forall|c: int| 0 <= c < 81 && unit_of(how, c) == i implies !#[trigger] group_fails(s0, how, c) by {
                        if d < 9 {
                            assert(!grp_fails_at(s0, how, i as int, d, unit_pos(how, c)));
                        }
                    }
                }
            } else {
                let j = choose|j: int| 0 <= j < 9 && #[trigger] grp_fails_at(s0, how, i as int, d, j);
                let c = unit_cell(how, i as int, j);
                assert(group_fails(s0, how, c));
            }
        }
        r
    }
}

impl Board {
    /// In each unit of the kind `how` (boxes for `None`, rows for
    /// `Some(true)`, columns for `Some(false)`), finds a group of digits
    /// whose places are as many as the digits, at the smallest depth from 2
    /// that changes something, and keeps those places to those digits.
    pub fn find_groups(self, how: Option<bool>) -> (r: Result<(Self, Vec<Change>), SudokuError>)
        requires
            groups_defined(self.spaces@, how),
        ensures
            step_matches(r, find_groups_spec(self.spaces@, how)),
    {
        let ghost s0 = self.spaces@;
        proof {
            lemma_unit_geometry(how);
        }
        let mut board = self;
        let mut changes: Vec<Change> = Vec::new();
        let mut i: usize = 0;
        while i < 9
            invariant
                i <= 9,
                s0 == self.spaces@,
                groups_defined(s0, how),
                forall|c: int|
                    0 <= c < 81 ==> #[trigger] board.spaces[c] == (if unit_of(how, c) < i {
                        fgs_node(s0, how, c)
                    } else {
                        s0[c]
                    }),
                changes@ == groups_changes_upto(s0, how, i as int),
                forall|c: int| 0 <= c < 81 && unit_of(how, c) < i ==> !#[trigger] group_fails(s0, how, c),
            decreases 9 - i,
        {
            proof {
                lemma_unit_geometry(how);
                assert(no_lone_place(unit_nodes(s0, how, i as int)));
            }
            let ghost before = board.spaces@;
            let (b, mut these_changes) = match board.find_unit_groups(how, i, Ghost(s0)) {
                Ok(res) => res,
                Err(e) => {
                    proof {
                        let c = choose|c: int| 0 <= c < 81 && unit_of(how, c) == i && #[trigger] group_fails(s0, how, c);
                        assert(exists|c: int| 0 <= c < 81 && #[trigger] group_fails(s0, how, c));
                    }
                    return Err(e);
                },
            };
            board = b;
            changes.append(&mut these_changes);
            proof {
                assert forall|c: int| 0 <= c < 81 implies #[trigger] board.spaces[c] == (if unit_of(how, c) < i + 1 {
                    fgs_node(s0, how, c)
                } else {
                    s0[c]
                }) by {
                    if unit_of(how, c) != i {
                        assert(board.spaces[c] == before[c]);
                    }
                }
            }
            i += 1;
        }
        proof {
            assert forall|c: int| 0 <= c < 81 implies !#[trigger] group_fails(s0, how, c) by {
                assert(unit_of(how, c) < 9);
            }
            assert(board.spaces@ =~= Seq::new(81, |c: int| fgs_node(s0, how, c)));
        }
        Ok((board, changes))
    }
}

/// A group change keeps its cell not definite, with some of its candidates
/// but not all.
pub proof fn lemma_grp_change_narrows(s: Seq<Node>, how: Option<bool>, i: int, md: int, j: int)
    ensures
        grp_change(s, how, i, md)(j) matches Some(ch) ==> {
            let p = unit_nodes(s, how, i)[j].value->Pos_0;
            &&& unit_nodes(s, how, i)[j].value is Pos
            &&& ch.1 is Pos
            &&& forall|k: int| 0 <= k < 9 ==> #[trigger] ch.1->Pos_0[k] ==> p[k]
            &&& ch.1->Pos_0 != p
        },
{
    reveal(grp_change);
    broadcast use crate::utils::lemma_arr9;

}

/// Where the group search records a change, some unit has one.
pub proof fn lemma_groups_changes_some(s: Seq<Node>, how: Option<bool>, n: int)
    requires
        groups_changes_upto(s, how, n).len() > 0,
    ensures
        exists|i: int| 0 <= i < n && (#[trigger] unit_changes(s, how, i)).len() > 0,
    decreases n,
{
    if n > 0 {
        if unit_changes(s, how, n - 1).len() == 0 {
            lemma_groups_changes_some(s, how, n - 1);
        }
    }
}

/// The group search on boxes; then on rows if the boxes changed nothing;
/// then on columns if the rows changed nothing either.
pub open spec fn find_all_groups_spec(s: Seq<Node>) -> Option<(Seq<Node>, Seq<Change>)> {
    match find_groups_spec(s, None) {
        None => None,
        Some((t1, c1)) => if c1.len() > 0 {
            Some((t1, c1))
        } else {
            match find_groups_spec(t1, Some(true)) {
                None => None,
                Some((t2, c2)) => if c2.len() > 0 {
                    Some((t2, c1 + c2))
                } else {
                    match find_groups_spec(t2, Some(false)) {
                        None => None,
                        Some((t3, c3)) => Some((t3, c1 + c2 + c3)),
                    }
                },
            }
        },
    }
}

/// The group search of the kind finds nothing to change.
pub open spec fn groups_idle(s: Seq<Node>, how: Option<bool>) -> bool {
    find_groups_spec(s, how) matches Some((_, cs)) && cs.len() == 0
}

proof fn lemma_unit_changes_empty(s: Seq<Node>, how: Option<bool>, n: int)
    requires
        groups_changes_upto(s, how, n).len() == 0,
    ensures
        forall|i: int| 0 <= i < n ==> (#[trigger] unit_changes(s, how, i)).len() == 0,
    decreases n,
{
    if n > 0 {
        lemma_unit_changes_empty(s, how, n - 1);
    }
}

proof fn lemma_unit_depth_changes(s: Seq<Node>, how: Option<bool>, i: int, md: int)
    ensures
        unit_depth(s, how, i, md) < 9 ==> grp_changes(s, how, i, unit_depth(s, how, i, md)).len() > 0,
    decreases 9 - md,
{
    if md < 9 && grp_changes(s, how, i, md).len() == 0 {
        lemma_unit_depth_changes(s, how, i, md + 1);
    }
}

/// A group search that changes nothing leaves the cells as they were.
pub proof fn lemma_groups_idle(s: Seq<Node>, how: Option<bool>)
    requires
        s.len() == 81,
        groups_idle(s, how),
    ensures
        find_groups_spec(s, how) == Some((s, Seq::<Change>::empty())),
{
    let t = find_groups_spec(s, how)->Some_0.0;
    lemma_unit_changes_empty(s, how, 9);
    lemma_unit_geometry(how);
    assert forall|c: int| 0 <= c < 81 implies #[trigger] fgs_node(s, how, c) == s[c] by {
        let i = unit_of(how, c);
        let j = unit_pos(how, c);
        assert(unit_changes(s, how, i).len() == 0);
        let d = unit_depth(s, how, i, 2);
        if d < 9 {
            lemma_unit_depth_changes(s, how, i, 2);
        }
    }
    assert(t =~= s);
    assert(groups_changes_upto(s, how, 9) =~= Seq::<Change>::empty());
}

/// The group search never fails: a cell it changes keeps each digit of the
/// group that has a place in the cell, and every place of a group is a
/// place of one of its digits.
pub proof fn lemma_find_groups_never_fails(s: Seq<Node>, how: Option<bool>)
    requires
        s.len() == 81,
    ensures
        find_groups_spec(s, how) is Some,
{
    broadcast use crate::utils::lemma_arr9;

    lemma_unit_geometry(how);
    assert forall|c: int| 0 <= c < 81 implies !#[trigger] group_fails(s, how, c) by {
        let i = unit_of(how, c);
        let j = unit_pos(how, c);
        let d = unit_depth(s, how, i, 2);
        if d < 9 {
            let sl = unit_nodes(s, how, i);
            let m = slice_mapping(sl);
            lemma_group_covered(m, d);
            match find_group_spec(m, d) {
                Some(g) => {
                    lemma_grp_change_at(s, how, i, d, j, g.0, g.1);
                    let n = sl[j];
                    if g.1[j] && n.value is Pos {
                        let v = choose|v: int|
                            0 <= v < 9 && g.0[v] && m[v] is Some && m[v]->Some_0.len() == g.1.len()
                                && m[v]->Some_0[j];
                        assert(slice_places(sl, v)[j]);
                        assert(grp_new(n.value->Pos_0, g.0)[v]);
                    }
                },
                None => {
                    lemma_grp_change_none(s, how, i, d);
                },
            }
        }
    }
}

/// The search over boxes, rows and columns never fails.
pub proof fn lemma_find_all_groups_never_fails(s: Seq<Node>)
    requires
        s.len() == 81,
    ensures
        find_all_groups_spec(s) is Some,
{
    lemma_find_groups_never_fails(s, None);
    let t1 = find_groups_spec(s, None)->Some_0.0;
    lemma_find_groups_never_fails(t1, Some(true));
    let t2 = find_groups_spec(t1, Some(true))->Some_0.0;
    lemma_find_groups_never_fails(t2, Some(false));
}

impl Board {
    /// Looks for groups in the boxes; if they change nothing, in the rows;
    /// if those change nothing either, in the columns.
    pub fn find_all_groups(self) -> (r: Result<(Self, Vec<Change>), SudokuError>)
        requires
            groups_defined(self.spaces@, None),
            groups_idle(self.spaces@, None) ==> groups_defined(self.spaces@, Some(true)),
            groups_idle(self.spaces@, None) && groups_idle(self.spaces@, Some(true)) ==> groups_defined(
                self.spaces@,
                Some(false),
            ),
        ensures
            step_matches(r, find_all_groups_spec(self.spaces@)),
    {
        let ghost s = self.spaces@;
        let (board, mut all_changes) = self.find_groups(None)?;
        if all_changes.len() == 0 {
            proof {
                lemma_groups_idle(s, None);
            }
            let (board, mut changes) = board.find_groups(Some(true))?;
            all_changes.append(&mut changes);
            if all_changes.len() == 0 {
                proof {
                    lemma_groups_idle(s, Some(true));
                }
                let (board, mut changes) = board.find_groups(Some(false))?;
                all_changes.append(&mut changes);
                return Ok((board, all_changes));
            }
            return Ok((board, all_changes));
        }
        Ok((board, all_changes))
    }
}

proof fn lemma_solo_upto_none(s: Seq<Node>, refs: Seq<Reference>, j: int, n: int)
    requires
        solo_upto(s, refs, j, n) is None,
    ensures
        forall|v: int| 0 <= v < n ==> !(count_true(#[trigger] places(s, refs, v)) == 1 && cand_at(s, refs, v, j)),
    decreases n,
{
    if n > 0 {
        lemma_solo_upto_none(s, refs, j, n - 1);
    }
}

/// Where a unit has no solo change, no digit has exactly one place in it.
proof fn lemma_no_unit_solos(s: Seq<Node>, refs: Seq<Reference>, how: Option<bool>, i: int)
    requires
        0 <= i < 9,
        refs.len() == 9,
        forall|j: int| 0 <= j < 9 ==> spec_ordinal(#[trigger] refs[j]) == unit_cell(how, i, j),
        unit_solos(s, refs).len() == 0,
    ensures
        no_lone_place(unit_nodes(s, how, i)),
{
    lemma_collect_empty(9, solo_change(s, refs));
    let sl = unit_nodes(s, how, i);
    assert forall|v: int| 0 <= v < 9 implies count_true(#[trigger] slice_places(sl, v)) != 1 by {
        assert(places(s, refs, v) =~= slice_places(sl, v));
        if count_true(places(s, refs, v)) == 1 {
            crate::utils::lemma_count_true_one(places(s, refs, v));
            let j = crate::utils::only_position(places(s, refs, v));
            assert(solo_change(s, refs)(j) is None);
            lemma_solo_upto_none(s, refs, j, 9);
        }
    }
}

/// The references of row and column `i` name the cells of that row and
/// column, in order.
pub proof fn lemma_line_refs(i: int)
    requires
        0 <= i < 9,
    ensures
        row_refs(i).len() == 9,
        col_refs(i).len() == 9,
        forall|j: int| 0 <= j < 9 ==> spec_ordinal(#[trigger] row_refs(i)[j]) == unit_cell(Some(true), i, j),
        forall|j: int| 0 <= j < 9 ==> spec_ordinal(#[trigger] col_refs(i)[j]) == unit_cell(Some(false), i, j),
{
    assert forall|j: int| 0 <= j < 9 implies spec_ordinal(#[trigger] row_refs(i)[j]) == unit_cell(Some(true), i, j) by {
        assert(((j + 1) as u8) == j + 1);
        assert(((i + 1) as u8) == i + 1);
    }
    assert forall|j: int| 0 <= j < 9 implies spec_ordinal(#[trigger] col_refs(i)[j]) == unit_cell(Some(false), i, j) by {
        assert(((j + 1) as u8) == j + 1);
        assert(((i + 1) as u8) == i + 1);
    }
}

proof fn lemma_no_solos_unit(s: Seq<Node>, i: int)
    requires
        0 <= i < 9,
        unit_solos(s, box_refs(i)).len() == 0,
        unit_solos(s, col_refs(i)).len() == 0,
        unit_solos(s, row_refs(i)).len() == 0,
    ensures
        no_lone_place(unit_nodes(s, None, i)),
        no_lone_place(unit_nodes(s, Some(true), i)),
        no_lone_place(unit_nodes(s, Some(false), i)),
{
    assert forall|j: int| 0 <= j < 9 implies spec_ordinal(#[trigger] box_refs(i)[j]) == unit_cell(None, i, j) by {
        lemma_box_reference(i, j);
    }
    lemma_line_refs(i);
    lemma_no_unit_solos(s, box_refs(i), None, i);
    lemma_no_unit_solos(s, row_refs(i), Some(true), i);
    lemma_no_unit_solos(s, col_refs(i), Some(false), i);
}

#[verifier::spinoff_prover]
proof fn lemma_no_solos_upto(s: Seq<Node>, n: int)
    requires
        0 <= n <= 9,
        solo_changes_upto(s, n).len() == 0,
    ensures
        forall|i: int| 0 <= i < n ==> no_lone_place(#[trigger] unit_nodes(s, None, i)),
        forall|i: int| 0 <= i < n ==> no_lone_place(#[trigger] unit_nodes(s, Some(true), i)),
        forall|i: int| 0 <= i < n ==> no_lone_place(#[trigger] unit_nodes(s, Some(false), i)),
    decreases n,
{
    if n > 0 {
        let i = n - 1;
        let a = solo_changes_upto(s, n - 1);
        let b = unit_solos(s, box_refs(i));
        let c = unit_solos(s, col_refs(i));
        let d = unit_solos(s, row_refs(i));
        assert(solo_changes_upto(s, n).len() == a.len() + b.len() + c.len() + d.len());
        lemma_no_solos_upto(s, n - 1);
        lemma_no_solos_unit(s, i);
    }
}

/// Where no cell is the only place of a digit in its box, column or row
/// (no solo changes), every unit of every kind is ready for the group
/// search.
pub proof fn lemma_no_solos_groups_defined(s: Seq<Node>)
    requires
        solo_changes(s).len() == 0,
    ensures
        groups_defined(s, None),
        groups_defined(s, Some(true)),
        groups_defined(s, Some(false)),
{
    lemma_no_solos_upto(s, 9);
}

pub proof fn lemma_collect_none<T>(n: int, f: spec_fn(int) -> Option<T>)
    requires
        forall|j: int| 0 <= j < n ==> #[trigger] f(j) is None,
    ensures
        collect(n, f).len() == 0,
    decreases n,
{
    if n > 0 {
        lemma_collect_none(n - 1, f);
    }
}

} // verus!
