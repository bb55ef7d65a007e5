use vstd::prelude::*;

use crate::disclusion::{
    empty_branch, fg_child, fg_children, fg_expand, fg_from, fg_goal, fg_level, fg_search,
    find_group_spec, lemma_count_update_false, lemma_count_update_true, lemma_search_in, or_bits,
};
use crate::utils::{collect, count_some, count_true, lemma_count_true_zero, opt_seq};

verus! {

// ---------------------------------------------------------------------------
// The search finds a smallest group
// ---------------------------------------------------------------------------
/// The places, among the nine, of the digits taken in `t`.
pub open spec fn places_of(m: Seq<Option<Seq<bool>>>, t: Seq<bool>) -> Seq<bool> {
    Seq::new(9, |j: int| exists|v: int| 0 <= v < 9 && t[v] && m[v] is Some && m[v]->Some_0[j])
}

/// `t` takes, among nine digits, only digits that have places.
pub open spec fn digit_set(m: Seq<Option<Seq<bool>>>, t: Seq<bool>) -> bool {
    &&& t.len() == 9
    &&& forall|v: int| 0 <= v < 9 && #[trigger] t[v] ==> m[v] is Some
}

/// The digits taken in `t` have as many places in all as there are digits.
pub open spec fn is_group(m: Seq<Option<Seq<bool>>>, t: Seq<bool>) -> bool {
    digit_set(m, t) && count_true(places_of(m, t)) == count_true(t)
}

/// Every branch takes `d` digits that have places, and holds their places.
pub open spec fn level_exact(m: Seq<Option<Seq<bool>>>, bs: Seq<(Seq<bool>, Seq<bool>)>, d: int) -> bool {
    forall|k: int|
        0 <= k < bs.len() ==> digit_set(m, (#[trigger] bs[k]).0) && count_true(bs[k].0) == d && bs[k].1
            =~= places_of(m, bs[k].0)
}

proof fn lemma_children_exact(m: Seq<Option<Seq<bool>>>, br: (Seq<bool>, Seq<bool>), n: int, d: int)
    requires
        m.len() == 9,
        forall|v: int| 0 <= v < 9 && (#[trigger] m[v]) is Some ==> m[v]->Some_0.len() == 9,
        digit_set(m, br.0),
        count_true(br.0) == d,
        br.1 =~= places_of(m, br.0),
        n <= 9,
    ensures
        level_exact(m, collect(n, fg_child(m, br)), d + 1),
    decreases n,
{
    if n > 0 {
        lemma_children_exact(m, br, n - 1, d);
        let a = collect(n - 1, fg_child(m, br));
        let b = opt_seq(fg_child(m, br)(n - 1));
        assert forall|k: int| 0 <= k < (a + b).len() implies digit_set(m, (#[trigger] (a + b)[k]).0)
            && count_true((a + b)[k].0) == d + 1 && (a + b)[k].1 =~= places_of(m, (a + b)[k].0) by {
            if k < a.len() {
                assert((a + b)[k] == a[k]);
            } else {
                let v = n - 1;
                let tk = br.0.update(v, true);
                let u = or_bits(br.1, m[v]->Some_0);
                assert((a + b)[k] == (tk, u));
                lemma_count_update_true(br.0, v);
                assert forall|w: int| 0 <= w < 9 && #[trigger] tk[w] implies m[w] is Some by {
                    if w != v {
                        assert(br.0[w]);
                    }
                }
                assert forall|j: int| 0 <= j < 9 implies u[j] == places_of(m, tk)[j] by {
                    if br.1[j] {
                        assert(places_of(m, br.0)[j]);
                        let w = choose|w: int| 0 <= w < 9 && br.0[w] && m[w] is Some && m[w]->Some_0[j];
                        assert(tk[w]);
                    } else if m[v]->Some_0[j] {
                        assert(tk[v]);
                    }
                    if places_of(m, tk)[j] {
                        let w = choose|w: int| 0 <= w < 9 && tk[w] && m[w] is Some && m[w]->Some_0[j];
                        if w != v {
                            assert(br.0[w]);
                            assert(places_of(m, br.0)[j]);
                        }
                    }
                }
            }
        }
    }
}

proof fn lemma_expand_exact(m: Seq<Option<Seq<bool>>>, bs: Seq<(Seq<bool>, Seq<bool>)>, d: int)
    requires
        m.len() == 9,
        forall|v: int| 0 <= v < 9 && (#[trigger] m[v]) is Some ==> m[v]->Some_0.len() == 9,
        level_exact(m, bs, d),
    ensures
        level_exact(m, fg_expand(m, bs), d + 1),
    decreases bs.len(),
{
    if bs.len() > 0 {
        assert(level_exact(m, bs.drop_last(), d)) by {
            assert forall|k: int| 0 <= k < bs.drop_last().len() implies digit_set(
                m,
                (#[trigger] bs.drop_last()[k]).0,
            ) && count_true(bs.drop_last()[k].0) == d && bs.drop_last()[k].1 =~= places_of(
                m,
                bs.drop_last()[k].0,
            ) by {
                assert(bs.drop_last()[k] == bs[k]);
            }
        }
        lemma_expand_exact(m, bs.drop_last(), d);
        assert(bs.last() == bs[bs.len() - 1]);
        lemma_children_exact(m, bs.last(), 9, d);
        let a = fg_children(m, bs.last());
        let b = fg_expand(m, bs.drop_last());
        assert forall|k: int| 0 <= k < (a + b).len() implies digit_set(m, (#[trigger] (a + b)[k]).0)
            && count_true((a + b)[k].0) == d + 1 && (a + b)[k].1 =~= places_of(m, (a + b)[k].0) by {
            if k < a.len() {
                assert((a + b)[k] == a[k]);
            } else {
                assert((a + b)[k] == b[k - a.len()]);
            }
        }
    }
}

proof fn lemma_level_exact(m: Seq<Option<Seq<bool>>>, d: nat)
    requires
        m.len() == 9,
        forall|v: int| 0 <= v < 9 && (#[trigger] m[v]) is Some ==> m[v]->Some_0.len() == 9,
    ensures
        level_exact(m, fg_level(m, d), d as int),
    decreases d,
{
    if d == 0 {
        let e = empty_branch();
        assert(fg_level(m, 0)[0] == e);
        lemma_count_true_zero(e.0);
        assert(e.1 =~= places_of(m, e.0));
    } else {
        lemma_level_exact(m, (d - 1) as nat);
        lemma_expand_exact(m, fg_level(m, (d - 1) as nat), d - 1);
    }
}

proof fn lemma_collect_in<T>(n: int, f: spec_fn(int) -> Option<T>, j: int)
    requires
        0 <= j < n,
        f(j) is Some,
    ensures
        exists|k: int| 0 <= k < collect(n, f).len() && collect(n, f)[k] == f(j)->Some_0,
    decreases n,
{
    let a = collect(n - 1, f);
    let b = opt_seq(f(n - 1));
    assert(collect(n, f) == a + b);
    if j < n - 1 {
        lemma_collect_in(n - 1, f, j);
        let k = choose|k: int| 0 <= k < a.len() && a[k] == f(j)->Some_0;
        assert((a + b)[k] == a[k]);
        assert(0 <= k < collect(n, f).len() && collect(n, f)[k] == f(j)->Some_0);
    } else {
        assert((a + b)[a.len() as int] == f(j)->Some_0);
        assert(0 <= a.len() < collect(n, f).len() && collect(n, f)[a.len() as int] == f(j)->Some_0);
    }
}

proof fn lemma_expand_in(
    m: Seq<Option<Seq<bool>>>,
    bs: Seq<(Seq<bool>, Seq<bool>)>,
    k: int,
    x: (Seq<bool>, Seq<bool>),
)
    requires
        0 <= k < bs.len(),
        exists|i: int| 0 <= i < fg_children(m, bs[k]).len() && fg_children(m, bs[k])[i] == x,
    ensures
        exists|i: int| 0 <= i < fg_expand(m, bs).len() && fg_expand(m, bs)[i] == x,
    decreases bs.len(),
{
    let a = fg_children(m, bs.last());
    let b = fg_expand(m, bs.drop_last());
    let e = fg_expand(m, bs);
    assert(e == a + b);
    if k == bs.len() - 1 {
        assert(bs.last() == bs[k]);
        let i = choose|i: int| 0 <= i < a.len() && a[i] == x;
        assert((a + b)[i] == x);
        assert(0 <= i < e.len() && e[i] == x);
    } else {
        assert(bs.drop_last()[k] == bs[k]);
        lemma_expand_in(m, bs.drop_last(), k, x);
        let i = choose|i: int| 0 <= i < b.len() && b[i] == x;
        assert((a + b)[a.len() + i] == x);
        assert(0 <= a.len() + i < e.len() && e[a.len() + i] == x);
    }
}

/// Every set of `d` digits that have places is taken by some branch at
/// depth `d`.
proof fn lemma_level_complete(m: Seq<Option<Seq<bool>>>, t: Seq<bool>, d: nat)
    requires
        m.len() == 9,
        forall|v: int| 0 <= v < 9 && (#[trigger] m[v]) is Some ==> m[v]->Some_0.len() == 9,
        digit_set(m, t),
        count_true(t) == d,
    ensures
        exists|k: int| 0 <= k < fg_level(m, d).len() && (#[trigger] fg_level(m, d)[k]).0 == t,
    decreases d,
{
    lemma_count_true_zero(t);
    if d == 0 {
        assert(t =~= empty_branch().0);
        assert(fg_level(m, 0)[0] == empty_branch());
    } else {
        let v = choose|v: int| 0 <= v < 9 && t[v];
        let t1 = t.update(v, false);
        lemma_count_update_false(t, v);
        assert forall|w: int| 0 <= w < 9 && #[trigger] t1[w] implies m[w] is Some by {
            assert(t[w]);
        }
        lemma_level_complete(m, t1, (d - 1) as nat);
        let lv = fg_level(m, (d - 1) as nat);
        let k1 = choose|k: int| 0 <= k < lv.len() && (#[trigger] lv[k]).0 == t1;
        let br = lv[k1];
        assert(t[v]);
        assert(m[v] is Some);
        let x = (t1.update(v, true), or_bits(br.1, m[v]->Some_0));
        assert(fg_child(m, br)(v) == Some(x));
        lemma_collect_in(9, fg_child(m, br), v);
        assert(lv[k1] == br);
        assert(fg_children(m, br) == collect(9, fg_child(m, br)));
        lemma_expand_in(m, lv, k1, x);
        assert(t1.update(v, true) =~= t);
        let i = choose|i: int| 0 <= i < fg_expand(m, lv).len() && fg_expand(m, lv)[i] == x;
        assert(fg_level(m, d)[i].0 == t);
    }
}

proof fn lemma_search_goal(bs: Seq<(Seq<bool>, Seq<bool>)>)
    ensures
        fg_search(bs) is None ==> forall|k: int| 0 <= k < bs.len() ==> !fg_goal(#[trigger] bs[k]),
        fg_search(bs) matches Some(g) ==> fg_goal(g),
    decreases bs.len(),
{
    if bs.len() > 0 {
        lemma_search_goal(bs.drop_last());
        if fg_search(bs) is None {
            assert forall|k: int| 0 <= k < bs.len() implies !fg_goal(#[trigger] bs[k]) by {
                if k < bs.len() - 1 {
                    assert(bs.drop_last()[k] == bs[k]);
                }
            }
        }
    }
}

/// No set of `d` digits (with `lo <= d < hi`) is a group, where no branch
/// is a group at those depths.
proof fn lemma_from_smallest(m: Seq<Option<Seq<bool>>>, md: int, d: int, cap: int)
    requires
        m.len() == 9,
        forall|v: int| 0 <= v < 9 && (#[trigger] m[v]) is Some ==> m[v]->Some_0.len() == 9,
        0 <= d,
    ensures
        ({
            let lo = if md > d { md } else { d };
            &&& fg_from(m, md, d, cap) matches Some(g) ==> {
                &&& is_group(m, g.0)
                &&& g.1 =~= places_of(m, g.0)
                &&& lo <= count_true(g.0) < cap - 1
                &&& forall|t: Seq<bool>|
                    #![trigger is_group(m, t)]
                    digit_set(m, t) && lo <= count_true(t) < count_true(g.0) ==> !is_group(m, t)
            }
            &&& fg_from(m, md, d, cap) is None ==> forall|t: Seq<bool>|
                #![trigger is_group(m, t)]
                digit_set(m, t) && lo <= count_true(t) < cap - 1 ==> !is_group(m, t)
        }),
    decreases cap - d,
{
    let lo = if md > d { md } else { d };
    if d >= cap - 1 {
    } else if d >= md && fg_search(fg_level(m, d as nat)) is Some {
        let lv = fg_level(m, d as nat);
        lemma_search_in(lv);
        lemma_search_goal(lv);
        lemma_level_exact(m, d as nat);
        let g = fg_search(lv)->Some_0;
        let k = choose|k: int| 0 <= k < lv.len() && lv[k] == g;
        assert(lv[k].1 =~= places_of(m, lv[k].0));
    } else {
        lemma_from_smallest(m, md, d + 1, cap);
        if d >= md {
            let lv = fg_level(m, d as nat);
            lemma_search_goal(lv);
            lemma_level_exact(m, d as nat);
            assert forall|t: Seq<bool>| digit_set(m, t) && count_true(t) == d implies !#[trigger] is_group(m, t) by {
                lemma_level_complete(m, t, d as nat);
                let k = choose|k: int| 0 <= k < lv.len() && (#[trigger] lv[k]).0 == t;
                assert(!fg_goal(lv[k]));
                assert(lv[k].1 =~= places_of(m, t));
            }
        }
    }
}

/// The group search finds a smallest group: the digits it returns have, in
/// all, as many places as there are digits, and it returns those places;
/// there are at least `md` of them, and fewer than the digits with places
/// less one; and no smaller set of at least `md` such digits is a group.
/// Where it finds none, fewer than four digits have places, or no set of
/// at least `md` digits, fewer than the digits with places less one, is a
/// group.
pub proof fn lemma_find_group_smallest(m: Seq<Option<Seq<bool>>>, md: int)
    requires
        m.len() == 9,
        forall|v: int| 0 <= v < 9 && (#[trigger] m[v]) is Some ==> m[v]->Some_0.len() == 9,
    ensures
        find_group_spec(m, md) matches Some(g) ==> {
            &&& is_group(m, g.0)
            &&& g.1 == places_of(m, g.0)
            &&& md <= count_true(g.0)
            &&& count_true(g.0) + 1 < count_some(m)
            &&& forall|t: Seq<bool>|
                #![trigger is_group(m, t)]
                digit_set(m, t) && md <= count_true(t) < count_true(g.0) ==> !is_group(m, t)
        },
        find_group_spec(m, md) is None ==> count_some(m) < 4 || forall|t: Seq<bool>|
            #![trigger is_group(m, t)]
            digit_set(m, t) && md <= count_true(t) && count_true(t) + 1 < count_some(m) ==> !is_group(m, t),
{
    reveal(find_group_spec);
    let cap = count_some(m) as int;
    if cap >= 4 {
        lemma_from_smallest(m, md, 0, cap);
    }
}

} // verus!
