//! The recursive macrocell step and the generation counter on top of it.
//!
//! `successor(m, j)` returns the centre of `m` advanced by
//! `min(2^j, 2^(level-2))` generations (`None` standing for the level's
//! maximum).  It decomposes the node into nine overlapping half-size
//! sub-squares, recurses on each, and either assembles the partial results
//! directly (partial advance) or steps once more on their joins (full,
//! generation-doubling advance).  Results are memoized per (node, exponent);
//! since nodes are canonical indices, equal sub-patterns anywhere in the
//! grid share one memo entry — the reuse that makes large patterns cheap.
//!
//! `advance(node, n)` reaches an arbitrary generation count `n` by walking
//! the bits of `n` from the most significant down, padding before and
//! cropping after.
//!
//! The step's contract is the relation [`succ_rel`]: a closed derivation
//! set justifies the result through the nine-square decomposition, with
//! the exact one-generation rule at the level-2 base, and
//! [`lemma_succ_rel_unique`] shows the relation pins exactly one node —
//! the step is a deterministic function of the canonical node and the
//! effective exponent, with `None` and `Some(level - 2)` equivalent.
//!
//! On top of the step, [`advance_trace`] pins `advance` for every `n`:
//! one chain entry per binary digit of `n`, most significant first, where
//! each set bit is a padded, cell-preserving, justified step at that
//! bit's exponent and the result is the crop of the chain's last node.
//! [`ffwd_trace`] does the same for `ffwd`, one full-speed round per
//! iteration.

use vstd::prelude::*;

verus! {

use vstd::arithmetic::power2::pow2;
use vstd::arithmetic::power2::lemma_pow2_adds;
use vstd::arithmetic::power2::lemma_pow2_strictly_increases;
use crate::node::Node;
use crate::node::lv;
use crate::node::pp;
use crate::node::ka;
use crate::node::kb;
use crate::node::kc;
use crate::node::kd;
use crate::node::sat4;
use crate::node::leaves_ok;
use crate::node::node_ok;
use crate::node::extends;
use crate::cells::cell;
use crate::cells::lemma_pop_zero;
use crate::rule::life_rule;
use crate::rule::nbrs;
use crate::boundary::shifted_window;
use crate::boundary::is_padded_spec;
use crate::boundary::lemma_padded_extends;
use crate::boundary::lemma_window_extends;
use crate::boundary::lemma_window_refl;
use crate::boundary::lemma_window_trans;
use crate::cells::half;
use crate::cells::lemma_side_half;
use crate::engine::Life;
use crate::engine::MemoEntry;
use crate::engine::is_shape;
use crate::node::same_shape;
use crate::node::store_ok;
use crate::rule::step4;
use crate::engine::memo_ok;
use crate::engine::memo_bucket_ok;

/// The nine overlap squares of one step, west to east and north to
/// south: `t` holds the square itself and `c` its advanced centre.
pub struct Nine {
    pub t1: usize,
    pub t2: usize,
    pub t3: usize,
    pub t4: usize,
    pub t5: usize,
    pub t6: usize,
    pub t7: usize,
    pub t8: usize,
    pub t9: usize,
    pub c1: usize,
    pub c2: usize,
    pub c3: usize,
    pub c4: usize,
    pub c5: usize,
    pub c6: usize,
    pub c7: usize,
    pub c8: usize,
    pub c9: usize,
}

/// All nine advanced centres exist at the same level.
pub open spec fn nine_ok(s: Seq<Node>, r: Nine, l: int) -> bool {
    &&& 0 <= r.c1 < s.len() && lv(s, r.c1 as int) == l
    &&& 0 <= r.c2 < s.len() && lv(s, r.c2 as int) == l
    &&& 0 <= r.c3 < s.len() && lv(s, r.c3 as int) == l
    &&& 0 <= r.c4 < s.len() && lv(s, r.c4 as int) == l
    &&& 0 <= r.c5 < s.len() && lv(s, r.c5 as int) == l
    &&& 0 <= r.c6 < s.len() && lv(s, r.c6 as int) == l
    &&& 0 <= r.c7 < s.len() && lv(s, r.c7 as int) == l
    &&& 0 <= r.c8 < s.len() && lv(s, r.c8 as int) == l
    &&& 0 <= r.c9 < s.len() && lv(s, r.c9 as int) == l
}


/// Witnesses for one step: the nine recursively advanced squares.
pub struct NineW {
    pub c1: int,
    pub c2: int,
    pub c3: int,
    pub c4: int,
    pub c5: int,
    pub c6: int,
    pub c7: int,
    pub c8: int,
    pub c9: int,
}

/// Witnesses for the second round of a full advance.
pub struct QuadW {
    pub e1: int,
    pub e2: int,
    pub e3: int,
    pub e4: int,
}

/// The store holds a (then unique) interior node of this exact shape.
pub open spec fn has_shape(s: Seq<Node>, level: int, a: int, b: int, c: int, d: int) -> bool {
    exists|t: int| 2 <= t < s.len() && #[trigger] is_shape(s, t, level, a, b, c, d)
}

/// The canonical node of the shape, when the store holds one.
pub open spec fn shape_id(s: Seq<Node>, level: int, a: int, b: int, c: int, d: int) -> int {
    choose|t: int| 2 <= t < s.len() && #[trigger] is_shape(s, t, level, a, b, c, d)
}

/// One justified step: the triple `(m, jj, r)` says the centre of `m`
/// advanced by `min(2^jj, 2^(level-2))` generations is `r`.  An empty
/// region short-circuits to its north-west child; a level-2 node steps by
/// the rule; above that the node decomposes into the canonical 3x3 grid
/// of overlapping half-size squares whose steps the derivation set `dr`
/// must also justify, and the centre is either assembled directly from
/// the results' quadrants (partial advance) or obtained by stepping the
/// four overlapping joins of the results once more (the full,
/// generation-doubling advance).  Sub-steps always concern nodes one
/// level down, so a derivation can never justify itself in a circle.
#[verifier::opaque]
pub open spec fn step_entry(s: Seq<Node>, dr: Set<(int, int, int)>, m: int, jj: int, r: int) -> bool {
    &&& 0 <= m < s.len()
    &&& 2 <= lv(s, m)
    &&& if pp(s, m) == 0 {
        r == ka(s, m)
    } else if lv(s, m) == 2 {
        2 <= r < s.len() && is_shape(
            s,
            r,
            1,
            step4(s, m).0,
            step4(s, m).1,
            step4(s, m).2,
            step4(s, m).3,
        )
    } else {
        let l = lv(s, m);
        let a = ka(s, m);
        let b = kb(s, m);
        let c = kc(s, m);
        let d = kd(s, m);
        &&& has_shape(s, l - 1, ka(s, a), kb(s, a), kc(s, a), kd(s, a))
        &&& has_shape(s, l - 1, kb(s, a), ka(s, b), kd(s, a), kc(s, b))
        &&& has_shape(s, l - 1, ka(s, b), kb(s, b), kc(s, b), kd(s, b))
        &&& has_shape(s, l - 1, kc(s, a), kd(s, a), ka(s, c), kb(s, c))
        &&& has_shape(s, l - 1, kd(s, a), kc(s, b), kb(s, c), ka(s, d))
        &&& has_shape(s, l - 1, kc(s, b), kd(s, b), ka(s, d), kb(s, d))
        &&& has_shape(s, l - 1, ka(s, c), kb(s, c), kc(s, c), kd(s, c))
        &&& has_shape(s, l - 1, kb(s, c), ka(s, d), kd(s, c), kc(s, d))
        &&& has_shape(s, l - 1, ka(s, d), kb(s, d), kc(s, d), kd(s, d))
        &&& exists|w: NineW| #[trigger] nine_entry(s, dr, m, jj, r, w)
    }
}

/// The nine sub-steps of a decomposed step, and the assembly of `r`.
pub open spec fn nine_entry(
    s: Seq<Node>,
    dr: Set<(int, int, int)>,
    m: int,
    jj: int,
    r: int,
    w: NineW,
) -> bool {
    let l = lv(s, m);
    let je = if jj < l - 2 { jj } else { l - 2 };
    let jec = if je < l - 2 { je } else { l - 3 };
    let a = ka(s, m);
    let b = kb(s, m);
    let c = kc(s, m);
    let d = kd(s, m);
    &&& dr.contains((shape_id(s, l - 1, ka(s, a), kb(s, a), kc(s, a), kd(s, a)), jec, w.c1))
    &&& dr.contains((shape_id(s, l - 1, kb(s, a), ka(s, b), kd(s, a), kc(s, b)), jec, w.c2))
    &&& dr.contains((shape_id(s, l - 1, ka(s, b), kb(s, b), kc(s, b), kd(s, b)), jec, w.c3))
    &&& dr.contains((shape_id(s, l - 1, kc(s, a), kd(s, a), ka(s, c), kb(s, c)), jec, w.c4))
    &&& dr.contains((shape_id(s, l - 1, kd(s, a), kc(s, b), kb(s, c), ka(s, d)), jec, w.c5))
    &&& dr.contains((shape_id(s, l - 1, kc(s, b), kd(s, b), ka(s, d), kb(s, d)), jec, w.c6))
    &&& dr.contains((shape_id(s, l - 1, ka(s, c), kb(s, c), kc(s, c), kd(s, c)), jec, w.c7))
    &&& dr.contains((shape_id(s, l - 1, kb(s, c), ka(s, d), kd(s, c), kc(s, d)), jec, w.c8))
    &&& dr.contains((shape_id(s, l - 1, ka(s, d), kb(s, d), kc(s, d), kd(s, d)), jec, w.c9))
    &&& if je < l - 2 {
        step_assembled(s, l, r, w)
    } else {
        step_doubled(s, dr, l, r, w)
    }
}

/// Partial advance: the centre node is joined from the inner quadrants of
/// the nine advanced squares.
pub open spec fn step_assembled(s: Seq<Node>, l: int, r: int, w: NineW) -> bool {
    &&& has_shape(s, l - 2, kd(s, w.c1), kc(s, w.c2), kb(s, w.c4), ka(s, w.c5))
    &&& has_shape(s, l - 2, kd(s, w.c2), kc(s, w.c3), kb(s, w.c5), ka(s, w.c6))
    &&& has_shape(s, l - 2, kd(s, w.c4), kc(s, w.c5), kb(s, w.c7), ka(s, w.c8))
    &&& has_shape(s, l - 2, kd(s, w.c5), kc(s, w.c6), kb(s, w.c8), ka(s, w.c9))
    &&& 2 <= r < s.len()
    &&& is_shape(
        s,
        r,
        l - 1,
        shape_id(s, l - 2, kd(s, w.c1), kc(s, w.c2), kb(s, w.c4), ka(s, w.c5)),
        shape_id(s, l - 2, kd(s, w.c2), kc(s, w.c3), kb(s, w.c5), ka(s, w.c6)),
        shape_id(s, l - 2, kd(s, w.c4), kc(s, w.c5), kb(s, w.c7), ka(s, w.c8)),
        shape_id(s, l - 2, kd(s, w.c5), kc(s, w.c6), kb(s, w.c8), ka(s, w.c9)),
    )
}

/// Full advance: the four overlapping joins of the nine results are each
/// stepped once more — `dr` must justify those steps too, each by the
/// sub-level's own maximum, `2^(l-3)` generations — and joined.
pub open spec fn step_doubled(
    s: Seq<Node>,
    dr: Set<(int, int, int)>,
    l: int,
    r: int,
    w: NineW,
) -> bool {
    &&& has_shape(s, l - 1, w.c1, w.c2, w.c4, w.c5)
    &&& has_shape(s, l - 1, w.c2, w.c3, w.c5, w.c6)
    &&& has_shape(s, l - 1, w.c4, w.c5, w.c7, w.c8)
    &&& has_shape(s, l - 1, w.c5, w.c6, w.c8, w.c9)
    &&& 2 <= r < s.len()
    &&& lv(s, r) == l - 1
    &&& exists|v: QuadW| #[trigger] quad_entry(s, dr, l, r, w, v)
}

/// The second-round steps of a full advance.
pub open spec fn quad_entry(
    s: Seq<Node>,
    dr: Set<(int, int, int)>,
    l: int,
    r: int,
    w: NineW,
    v: QuadW,
) -> bool {
    &&& dr.contains((shape_id(s, l - 1, w.c1, w.c2, w.c4, w.c5), l - 3, v.e1))
    &&& dr.contains((shape_id(s, l - 1, w.c2, w.c3, w.c5, w.c6), l - 3, v.e2))
    &&& dr.contains((shape_id(s, l - 1, w.c4, w.c5, w.c7, w.c8), l - 3, v.e3))
    &&& dr.contains((shape_id(s, l - 1, w.c5, w.c6, w.c8, w.c9), l - 3, v.e4))
    &&& is_shape(s, r, l - 1, v.e1, v.e2, v.e3, v.e4)
}

/// A derivation set: every triple it holds is justified, possibly through
/// other triples it holds.
pub open spec fn step_closed(s: Seq<Node>, dr: Set<(int, int, int)>) -> bool {
    forall|m: int, jj: int, r: int|
        #[trigger] dr.contains((m, jj, r)) ==> step_entry(s, dr, m, jj, r)
}

/// A closed derivation set justifying this triple.
pub open spec fn step_holds(s: Seq<Node>, dr: Set<(int, int, int)>, m: int, jj: int, r: int) -> bool {
    step_closed(s, dr) && dr.contains((m, jj, r))
}

/// `r` advances the centre of `m` by `min(2^jj, 2^(level-2))` generations,
/// exactly as the macrocell algorithm defines the step: some closed
/// derivation justifies the triple.
#[verifier::opaque]
pub open spec fn succ_rel(s: Seq<Node>, m: int, jj: int, r: int) -> bool {
    exists|dr: Set<(int, int, int)>| #[trigger] step_holds(s, dr, m, jj, r)
}

/// What `shape_id` picks: the one node of that shape, unique by the
/// hash-consing invariant.
pub proof fn lemma_shape_id_props(s: Seq<Node>, level: int, a: int, b: int, c: int, d: int)
    requires
        store_ok(s),
        has_shape(s, level, a, b, c, d),
    ensures
        2 <= shape_id(s, level, a, b, c, d) < s.len(),
        is_shape(s, shape_id(s, level, a, b, c, d), level, a, b, c, d),
        forall|t: int|
            2 <= t < s.len() && #[trigger] is_shape(s, t, level, a, b, c, d) ==> t == shape_id(
                s,
                level,
                a,
                b,
                c,
                d,
            ),
{
    let t0 = choose|t: int| 2 <= t < s.len() && #[trigger] is_shape(s, t, level, a, b, c, d);
    assert(2 <= t0 < s.len() && is_shape(s, t0, level, a, b, c, d));
    assert forall|t: int| 2 <= t < s.len() && #[trigger] is_shape(s, t, level, a, b, c, d) implies t
        == shape_id(s, level, a, b, c, d) by {
        if t != shape_id(s, level, a, b, c, d) {
            assert(same_shape(s, t, shape_id(s, level, a, b, c, d)));
        }
    }
}

/// A shape present in a store is present in every extension, with the
/// same canonical node.
proof fn lemma_shape_stable(
    s1: Seq<Node>,
    s2: Seq<Node>,
    level: int,
    a: int,
    b: int,
    c: int,
    d: int,
)
    requires
        store_ok(s1),
        store_ok(s2),
        extends(s1, s2),
        has_shape(s1, level, a, b, c, d),
    ensures
        has_shape(s2, level, a, b, c, d),
        shape_id(s2, level, a, b, c, d) == shape_id(s1, level, a, b, c, d),
        is_shape(s2, shape_id(s1, level, a, b, c, d), level, a, b, c, d),
        2 <= shape_id(s1, level, a, b, c, d) < s1.len(),
{
    lemma_shape_id_props(s1, level, a, b, c, d);
    let w = shape_id(s1, level, a, b, c, d);
    assert(s2[w] == s1[w]);
    assert(is_shape(s2, w, level, a, b, c, d));
    assert(has_shape(s2, level, a, b, c, d));
    lemma_shape_id_props(s2, level, a, b, c, d);
}

/// Justification only grows with the derivation set.
proof fn lemma_step_entry_mono(
    s: Seq<Node>,
    d1: Set<(int, int, int)>,
    d2: Set<(int, int, int)>,
    m: int,
    jj: int,
    r: int,
)
    requires
        d1.subset_of(d2),
        step_entry(s, d1, m, jj, r),
    ensures
        step_entry(s, d2, m, jj, r),
{
    reveal(step_entry);
    if pp(s, m) != 0 && lv(s, m) > 2 {
        let w = choose|w: NineW| #[trigger] nine_entry(s, d1, m, jj, r, w);
        assert(nine_entry(s, d1, m, jj, r, w));
        let l = lv(s, m);
        let je = if jj < l - 2 { jj } else { l - 2 };
        if je >= l - 2 {
            let v = choose|v: QuadW| #[trigger] quad_entry(s, d1, l, r, w, v);
            assert(quad_entry(s, d1, l, r, w, v));
            assert(quad_entry(s, d2, l, r, w, v));
        }
        assert(nine_entry(s, d2, m, jj, r, w));
    }
}

/// The union of two closed derivation sets is closed.
pub proof fn lemma_closed_union(s: Seq<Node>, d1: Set<(int, int, int)>, d2: Set<(int, int, int)>)
    requires
        step_closed(s, d1),
        step_closed(s, d2),
    ensures
        step_closed(s, d1.union(d2)),
{
    assert forall|m: int, jj: int, r: int| #[trigger] d1.union(d2).contains((m, jj, r)) implies
        step_entry(s, d1.union(d2), m, jj, r) by {
        if d1.contains((m, jj, r)) {
            lemma_step_entry_mono(s, d1, d1.union(d2), m, jj, r);
        } else {
            lemma_step_entry_mono(s, d2, d1.union(d2), m, jj, r);
        }
    }
}

/// A justified triple's result is one level below its input.
proof fn lemma_entry_level(s: Seq<Node>, dr: Set<(int, int, int)>, m: int, jj: int, r: int)
    requires
        store_ok(s),
        step_entry(s, dr, m, jj, r),
    ensures
        0 <= m < s.len(),
        2 <= lv(s, m),
        0 <= r < s.len(),
        lv(s, r) + 1 == lv(s, m),
{
    reveal(step_entry);
    assert(leaves_ok(s));
    assert(node_ok(s, m));
    let l = lv(s, m);
    if pp(s, m) == 0 {
    } else if l == 2 {
    } else {
        let w = choose|w: NineW| #[trigger] nine_entry(s, dr, m, jj, r, w);
        assert(nine_entry(s, dr, m, jj, r, w));
    }
}

/// One justified triple stays justified when the store grows.
#[verifier::rlimit(100)]
proof fn lemma_entry_extends(
    s1: Seq<Node>,
    s2: Seq<Node>,
    dr: Set<(int, int, int)>,
    m: int,
    jj: int,
    r: int,
)
    requires
        store_ok(s1),
        store_ok(s2),
        extends(s1, s2),
        step_closed(s1, dr),
        step_entry(s1, dr, m, jj, r),
    ensures
        step_entry(s2, dr, m, jj, r),
{
    reveal(step_entry);
    assert(s2[m] == s1[m]);
    assert(leaves_ok(s1));
    let l = lv(s1, m);
    assert(node_ok(s1, m));
    if pp(s1, m) == 0 {
    } else if l == 2 {
        let a = ka(s1, m);
        let b = kb(s1, m);
        let c = kc(s1, m);
        let d = kd(s1, m);
        assert(s2[a] == s1[a] && s2[b] == s1[b] && s2[c] == s1[c] && s2[d] == s1[d]);
        assert(s2[r] == s1[r]);
        assert(step4(s2, m) == step4(s1, m)) by {
            reveal(step4);
        }
    } else {
        let a = ka(s1, m);
        let b = kb(s1, m);
        let c = kc(s1, m);
        let d = kd(s1, m);
        assert(node_ok(s1, a) && node_ok(s1, b) && node_ok(s1, c) && node_ok(s1, d));
        assert(s2[a] == s1[a] && s2[b] == s1[b] && s2[c] == s1[c] && s2[d] == s1[d]);
        lemma_shape_stable(s1, s2, l - 1, ka(s1, a), kb(s1, a), kc(s1, a), kd(s1, a));
        lemma_shape_stable(s1, s2, l - 1, kb(s1, a), ka(s1, b), kd(s1, a), kc(s1, b));
        lemma_shape_stable(s1, s2, l - 1, ka(s1, b), kb(s1, b), kc(s1, b), kd(s1, b));
        lemma_shape_stable(s1, s2, l - 1, kc(s1, a), kd(s1, a), ka(s1, c), kb(s1, c));
        lemma_shape_stable(s1, s2, l - 1, kd(s1, a), kc(s1, b), kb(s1, c), ka(s1, d));
        lemma_shape_stable(s1, s2, l - 1, kc(s1, b), kd(s1, b), ka(s1, d), kb(s1, d));
        lemma_shape_stable(s1, s2, l - 1, ka(s1, c), kb(s1, c), kc(s1, c), kd(s1, c));
        lemma_shape_stable(s1, s2, l - 1, kb(s1, c), ka(s1, d), kd(s1, c), kc(s1, d));
        lemma_shape_stable(s1, s2, l - 1, ka(s1, d), kb(s1, d), kc(s1, d), kd(s1, d));
        let w = choose|w: NineW| #[trigger] nine_entry(s1, dr, m, jj, r, w);
        assert(nine_entry(s1, dr, m, jj, r, w));
        let je = if jj < l - 2 { jj } else { l - 2 };
        lemma_parts_extends(s1, s2, dr, m, jj, r, w, je, l);
        assert(nine_entry(s2, dr, m, jj, r, w));
    }
}

/// The assembly of one decomposed step carries over to a grown store.
#[verifier::rlimit(100)]
proof fn lemma_parts_extends(
    s1: Seq<Node>,
    s2: Seq<Node>,
    dr: Set<(int, int, int)>,
    m: int,
    jj: int,
    r: int,
    w: NineW,
    je: int,
    l: int,
)
    requires
        store_ok(s1),
        store_ok(s2),
        extends(s1, s2),
        step_closed(s1, dr),
        nine_entry(s1, dr, m, jj, r, w),
        0 <= m < s1.len(),
        l == lv(s1, m),
        node_ok(s1, m),
        je == if jj < l - 2 { jj } else { l - 2 },
        l >= 3,
    ensures
        je < l - 2 ==> step_assembled(s2, l, r, w),
        je >= l - 2 ==> step_doubled(s2, dr, l, r, w),
{
    if je < l - 2 {
        assert(step_assembled(s1, l, r, w));
        let a = ka(s1, m);
        let b = kb(s1, m);
        let c = kc(s1, m);
        let d = kd(s1, m);
        lemma_entry_level(s1, dr, shape_id(s1, l - 1, ka(s1, a), kb(s1, a), kc(s1, a), kd(s1, a)), je, w.c1);
        lemma_entry_level(s1, dr, shape_id(s1, l - 1, kb(s1, a), ka(s1, b), kd(s1, a), kc(s1, b)), je, w.c2);
        lemma_entry_level(s1, dr, shape_id(s1, l - 1, ka(s1, b), kb(s1, b), kc(s1, b), kd(s1, b)), je, w.c3);
        lemma_entry_level(s1, dr, shape_id(s1, l - 1, kc(s1, a), kd(s1, a), ka(s1, c), kb(s1, c)), je, w.c4);
        lemma_entry_level(s1, dr, shape_id(s1, l - 1, kd(s1, a), kc(s1, b), kb(s1, c), ka(s1, d)), je, w.c5);
        lemma_entry_level(s1, dr, shape_id(s1, l - 1, kc(s1, b), kd(s1, b), ka(s1, d), kb(s1, d)), je, w.c6);
        lemma_entry_level(s1, dr, shape_id(s1, l - 1, ka(s1, c), kb(s1, c), kc(s1, c), kd(s1, c)), je, w.c7);
        lemma_entry_level(s1, dr, shape_id(s1, l - 1, kb(s1, c), ka(s1, d), kd(s1, c), kc(s1, d)), je, w.c8);
        lemma_entry_level(s1, dr, shape_id(s1, l - 1, ka(s1, d), kb(s1, d), kc(s1, d), kd(s1, d)), je, w.c9);
        assert(s2[w.c1] == s1[w.c1] && s2[w.c2] == s1[w.c2] && s2[w.c3] == s1[w.c3]);
        assert(s2[w.c4] == s1[w.c4] && s2[w.c5] == s1[w.c5] && s2[w.c6] == s1[w.c6]);
        assert(s2[w.c7] == s1[w.c7] && s2[w.c8] == s1[w.c8] && s2[w.c9] == s1[w.c9]);
        lemma_shape_stable(s1, s2, l - 2, kd(s1, w.c1), kc(s1, w.c2), kb(s1, w.c4), ka(s1, w.c5));
        lemma_shape_stable(s1, s2, l - 2, kd(s1, w.c2), kc(s1, w.c3), kb(s1, w.c5), ka(s1, w.c6));
        lemma_shape_stable(s1, s2, l - 2, kd(s1, w.c4), kc(s1, w.c5), kb(s1, w.c7), ka(s1, w.c8));
        lemma_shape_stable(s1, s2, l - 2, kd(s1, w.c5), kc(s1, w.c6), kb(s1, w.c8), ka(s1, w.c9));
        assert(s2[r] == s1[r]);
        assert(step_assembled(s2, l, r, w));
    } else {
        assert(step_doubled(s1, dr, l, r, w));
        lemma_shape_stable(s1, s2, l - 1, w.c1, w.c2, w.c4, w.c5);
        lemma_shape_stable(s1, s2, l - 1, w.c2, w.c3, w.c5, w.c6);
        lemma_shape_stable(s1, s2, l - 1, w.c4, w.c5, w.c7, w.c8);
        lemma_shape_stable(s1, s2, l - 1, w.c5, w.c6, w.c8, w.c9);
        let v = choose|v: QuadW| #[trigger] quad_entry(s1, dr, l, r, w, v);
        assert(quad_entry(s1, dr, l, r, w, v));
        assert(s2[r] == s1[r]);
        assert(quad_entry(s2, dr, l, r, w, v));
        assert(step_doubled(s2, dr, l, r, w));
    }
}

/// A closed derivation set stays closed when the store grows.
pub proof fn lemma_closed_extends(s1: Seq<Node>, s2: Seq<Node>, dr: Set<(int, int, int)>)
    requires
        store_ok(s1),
        store_ok(s2),
        extends(s1, s2),
        step_closed(s1, dr),
    ensures
        step_closed(s2, dr),
{
    assert forall|m: int, jj: int, r: int| #[trigger] dr.contains((m, jj, r)) implies step_entry(
        s2,
        dr,
        m,
        jj,
        r,
    ) by {
        lemma_entry_extends(s1, s2, dr, m, jj, r);
    }
}

/// A step relation survives growing the store.
pub proof fn lemma_succ_rel_extends(s1: Seq<Node>, s2: Seq<Node>, m: int, jj: int, r: int)
    requires
        store_ok(s1),
        store_ok(s2),
        extends(s1, s2),
        succ_rel(s1, m, jj, r),
    ensures
        succ_rel(s2, m, jj, r),
{
    reveal(succ_rel);
    let dr = choose|dr: Set<(int, int, int)>| #[trigger] step_holds(s1, dr, m, jj, r);
    assert(step_holds(s1, dr, m, jj, r));
    lemma_closed_extends(s1, s2, dr);
    assert(step_holds(s2, dr, m, jj, r));
}

/// A step result exists in the store, one level below its input.
pub proof fn lemma_succ_rel_level(s: Seq<Node>, m: int, jj: int, r: int)
    requires
        store_ok(s),
        succ_rel(s, m, jj, r),
    ensures
        0 <= m < s.len(),
        2 <= lv(s, m),
        0 <= r < s.len(),
        lv(s, r) + 1 == lv(s, m),
{
    reveal(succ_rel);
    let dr = choose|dr: Set<(int, int, int)>| #[trigger] step_holds(s, dr, m, jj, r);
    assert(step_holds(s, dr, m, jj, r));
    assert(step_entry(s, dr, m, jj, r));
    lemma_entry_level(s, dr, m, jj, r);
}

/// The exponent a request denotes at a given level: `None` asks for the
/// level's maximum, and larger exponents clamp to it.
pub open spec fn eff_exp(j: Option<u8>, l: int) -> int {
    match j {
        None => l - 2,
        Some(x) => if (x as int) < l - 2 {
            x as int
        } else {
            l - 2
        },
    }
}

/// The shapes of the nine overlap squares of `m`, witnessed by ids.
pub open spec fn nine_shapes(s: Seq<Node>, m: int, n: Nine) -> bool {
    let l = lv(s, m);
    let a = ka(s, m);
    let b = kb(s, m);
    let c = kc(s, m);
    let d = kd(s, m);
    &&& 2 <= n.t1 < s.len() && is_shape(s, n.t1 as int, l - 1, ka(s, a), kb(s, a), kc(s, a), kd(s, a))
    &&& 2 <= n.t2 < s.len() && is_shape(s, n.t2 as int, l - 1, kb(s, a), ka(s, b), kd(s, a), kc(s, b))
    &&& 2 <= n.t3 < s.len() && is_shape(s, n.t3 as int, l - 1, ka(s, b), kb(s, b), kc(s, b), kd(s, b))
    &&& 2 <= n.t4 < s.len() && is_shape(s, n.t4 as int, l - 1, kc(s, a), kd(s, a), ka(s, c), kb(s, c))
    &&& 2 <= n.t5 < s.len() && is_shape(s, n.t5 as int, l - 1, kd(s, a), kc(s, b), kb(s, c), ka(s, d))
    &&& 2 <= n.t6 < s.len() && is_shape(s, n.t6 as int, l - 1, kc(s, b), kd(s, b), ka(s, d), kb(s, d))
    &&& 2 <= n.t7 < s.len() && is_shape(s, n.t7 as int, l - 1, ka(s, c), kb(s, c), kc(s, c), kd(s, c))
    &&& 2 <= n.t8 < s.len() && is_shape(s, n.t8 as int, l - 1, kb(s, c), ka(s, d), kd(s, c), kc(s, d))
    &&& 2 <= n.t9 < s.len() && is_shape(s, n.t9 as int, l - 1, ka(s, d), kb(s, d), kc(s, d), kd(s, d))
}

/// A closed derivation justifying the nine advanced squares of `m`.
#[verifier::opaque]
pub open spec fn nine_dr(
    s: Seq<Node>,
    dr: Set<(int, int, int)>,
    m: int,
    jj: int,
    n: Nine,
) -> bool {
    let l = lv(s, m);
    let jec = if jj < l - 2 { jj } else { l - 3 };
    let a = ka(s, m);
    let b = kb(s, m);
    let c = kc(s, m);
    let d = kd(s, m);
    &&& step_closed(s, dr)
    &&& dr.contains((shape_id(s, l - 1, ka(s, a), kb(s, a), kc(s, a), kd(s, a)), jec, n.c1 as int))
    &&& dr.contains((shape_id(s, l - 1, kb(s, a), ka(s, b), kd(s, a), kc(s, b)), jec, n.c2 as int))
    &&& dr.contains((shape_id(s, l - 1, ka(s, b), kb(s, b), kc(s, b), kd(s, b)), jec, n.c3 as int))
    &&& dr.contains((shape_id(s, l - 1, kc(s, a), kd(s, a), ka(s, c), kb(s, c)), jec, n.c4 as int))
    &&& dr.contains((shape_id(s, l - 1, kd(s, a), kc(s, b), kb(s, c), ka(s, d)), jec, n.c5 as int))
    &&& dr.contains((shape_id(s, l - 1, kc(s, b), kd(s, b), ka(s, d), kb(s, d)), jec, n.c6 as int))
    &&& dr.contains((shape_id(s, l - 1, ka(s, c), kb(s, c), kc(s, c), kd(s, c)), jec, n.c7 as int))
    &&& dr.contains((shape_id(s, l - 1, kb(s, c), ka(s, d), kd(s, c), kc(s, d)), jec, n.c8 as int))
    &&& dr.contains((shape_id(s, l - 1, ka(s, d), kb(s, d), kc(s, d), kd(s, d)), jec, n.c9 as int))
}

/// Some closed derivation justifies the nine advanced squares.
pub open spec fn nine_holds(s: Seq<Node>, m: int, jj: int, n: Nine) -> bool {
    exists|dr: Set<(int, int, int)>| #[trigger] nine_dr(s, dr, m, jj, n)
}

/// The step of an empty region is its north-west child.
proof fn lemma_rel_shortcut(s: Seq<Node>, m: int, jj: int, r: int)
    requires
        store_ok(s),
        0 <= m < s.len(),
        2 <= lv(s, m),
        pp(s, m) == 0,
        r == ka(s, m),
    ensures
        succ_rel(s, m, jj, r),
{
    reveal(succ_rel);
    reveal(step_entry);
    let dr = Set::<(int, int, int)>::empty().insert((m, jj, r));
    assert(leaves_ok(s));
    assert(node_ok(s, m));
    assert forall|m2: int, jj2: int, r2: int| #[trigger] dr.contains((m2, jj2, r2)) implies
        step_entry(s, dr, m2, jj2, r2) by {
        assert(m2 == m && jj2 == jj && r2 == r);
    }
    assert(step_holds(s, dr, m, jj, r));
}

/// The step of a level-2 node is the rule's output.
proof fn lemma_rel_base(s0: Seq<Node>, s2: Seq<Node>, m: int, jj: int, r: int)
    requires
        store_ok(s0),
        store_ok(s2),
        extends(s0, s2),
        0 <= m < s0.len(),
        lv(s0, m) == 2,
        pp(s0, m) != 0,
        2 <= r < s2.len(),
        lv(s2, r) == 1,
        ka(s2, r) == step4(s0, m).0,
        kb(s2, r) == step4(s0, m).1,
        kc(s2, r) == step4(s0, m).2,
        kd(s2, r) == step4(s0, m).3,
    ensures
        succ_rel(s2, m, jj, r),
{
    reveal(succ_rel);
    reveal(step_entry);
    assert(leaves_ok(s0));
    assert(node_ok(s0, m));
    assert(s2[m] == s0[m]);
    assert(s2[ka(s0, m)] == s0[ka(s0, m)]);
    assert(s2[kb(s0, m)] == s0[kb(s0, m)]);
    assert(s2[kc(s0, m)] == s0[kc(s0, m)]);
    assert(s2[kd(s0, m)] == s0[kd(s0, m)]);
    assert(step4(s2, m) == step4(s0, m)) by {
        reveal(step4);
    }
    let dr = Set::<(int, int, int)>::empty().insert((m, jj, r));
    assert forall|m2: int, jj2: int, r2: int| #[trigger] dr.contains((m2, jj2, r2)) implies
        step_entry(s2, dr, m2, jj2, r2) by {
        assert(m2 == m && jj2 == jj && r2 == r);
    }
    assert(step_holds(s2, dr, m, jj, r));
}

/// Add one justified step to a growing derivation.
proof fn collect_step(
    s: Seq<Node>,
    cur: Set<(int, int, int)>,
    t: int,
    jec: int,
    c: int,
) -> (r: Set<(int, int, int)>)
    requires
        step_closed(s, cur),
        succ_rel(s, t, jec, c),
    ensures
        step_closed(s, r),
        r.contains((t, jec, c)),
        forall|x: (int, int, int)| cur.contains(x) ==> r.contains(x),
{
    reveal(succ_rel);
    let dr = choose|dr: Set<(int, int, int)>| #[trigger] step_holds(s, dr, t, jec, c);
    assert(step_holds(s, dr, t, jec, c));
    lemma_closed_union(s, cur, dr);
    cur.union(dr)
}

/// Carry the nine-square facts about `m` into a grown store.
#[verifier::rlimit(100)]
proof fn lemma_nine_transfer(s0: Seq<Node>, s: Seq<Node>, m: int, jj: int, nine: Nine)
    requires
        store_ok(s0),
        store_ok(s),
        extends(s0, s),
        0 <= m < s0.len(),
        3 <= lv(s0, m),
        nine_shapes(s0, m, nine),
        nine_holds(s0, m, jj, nine),
        nine_ok(s0, nine, lv(s0, m) - 2),
    ensures
        nine_shapes(s, m, nine),
        nine_holds(s, m, jj, nine),
        nine_ok(s, nine, lv(s0, m) - 2),
        lv(s, m) == lv(s0, m),
        pp(s, m) == pp(s0, m),
{
    reveal(nine_dr);
    let l = lv(s0, m);
    assert(leaves_ok(s0));
    assert(node_ok(s0, m));
    let a = ka(s0, m);
    let b = kb(s0, m);
    let c = kc(s0, m);
    let d = kd(s0, m);
    assert(node_ok(s0, a) && node_ok(s0, b) && node_ok(s0, c) && node_ok(s0, d));
    assert(s[m] == s0[m]);
    assert(s[a] == s0[a] && s[b] == s0[b] && s[c] == s0[c] && s[d] == s0[d]);
    assert(s[nine.t1 as int] == s0[nine.t1 as int]);
    assert(s[nine.t2 as int] == s0[nine.t2 as int]);
    assert(s[nine.t3 as int] == s0[nine.t3 as int]);
    assert(s[nine.t4 as int] == s0[nine.t4 as int]);
    assert(s[nine.t5 as int] == s0[nine.t5 as int]);
    assert(s[nine.t6 as int] == s0[nine.t6 as int]);
    assert(s[nine.t7 as int] == s0[nine.t7 as int]);
    assert(s[nine.t8 as int] == s0[nine.t8 as int]);
    assert(s[nine.t9 as int] == s0[nine.t9 as int]);
    assert(s[nine.c1 as int] == s0[nine.c1 as int]);
    assert(s[nine.c2 as int] == s0[nine.c2 as int]);
    assert(s[nine.c3 as int] == s0[nine.c3 as int]);
    assert(s[nine.c4 as int] == s0[nine.c4 as int]);
    assert(s[nine.c5 as int] == s0[nine.c5 as int]);
    assert(s[nine.c6 as int] == s0[nine.c6 as int]);
    assert(s[nine.c7 as int] == s0[nine.c7 as int]);
    assert(s[nine.c8 as int] == s0[nine.c8 as int]);
    assert(s[nine.c9 as int] == s0[nine.c9 as int]);
    let dr0 = choose|dr: Set<(int, int, int)>| #[trigger] nine_dr(s0, dr, m, jj, nine);
    assert(nine_dr(s0, dr0, m, jj, nine));
    lemma_closed_extends(s0, s, dr0);
    lemma_shape_stable(s0, s, l - 1, ka(s0, a), kb(s0, a), kc(s0, a), kd(s0, a));
    lemma_shape_stable(s0, s, l - 1, kb(s0, a), ka(s0, b), kd(s0, a), kc(s0, b));
    lemma_shape_stable(s0, s, l - 1, ka(s0, b), kb(s0, b), kc(s0, b), kd(s0, b));
    lemma_shape_stable(s0, s, l - 1, kc(s0, a), kd(s0, a), ka(s0, c), kb(s0, c));
    lemma_shape_stable(s0, s, l - 1, kd(s0, a), kc(s0, b), kb(s0, c), ka(s0, d));
    lemma_shape_stable(s0, s, l - 1, kc(s0, b), kd(s0, b), ka(s0, d), kb(s0, d));
    lemma_shape_stable(s0, s, l - 1, ka(s0, c), kb(s0, c), kc(s0, c), kd(s0, c));
    lemma_shape_stable(s0, s, l - 1, kb(s0, c), ka(s0, d), kd(s0, c), kc(s0, d));
    lemma_shape_stable(s0, s, l - 1, ka(s0, d), kb(s0, d), kc(s0, d), kd(s0, d));
    assert(nine_dr(s, dr0, m, jj, nine));
}

/// Conclude the nine-square derivation: the collected steps are keyed by
/// the canonical overlap squares.
#[verifier::rlimit(100)]
proof fn lemma_nine_finish(
    s: Seq<Node>,
    m: int,
    jj: int,
    jec: int,
    nine: Nine,
    cur: Set<(int, int, int)>,
)
    requires
        store_ok(s),
        0 <= m < s.len(),
        3 <= lv(s, m),
        nine_shapes(s, m, nine),
        step_closed(s, cur),
        jec == if jj < lv(s, m) - 2 { jj } else { lv(s, m) - 3 },
        cur.contains((nine.t1 as int, jec, nine.c1 as int)),
        cur.contains((nine.t2 as int, jec, nine.c2 as int)),
        cur.contains((nine.t3 as int, jec, nine.c3 as int)),
        cur.contains((nine.t4 as int, jec, nine.c4 as int)),
        cur.contains((nine.t5 as int, jec, nine.c5 as int)),
        cur.contains((nine.t6 as int, jec, nine.c6 as int)),
        cur.contains((nine.t7 as int, jec, nine.c7 as int)),
        cur.contains((nine.t8 as int, jec, nine.c8 as int)),
        cur.contains((nine.t9 as int, jec, nine.c9 as int)),
    ensures
        nine_dr(s, cur, m, jj, nine),
{
    reveal(nine_dr);
    let l = lv(s, m);
    let a = ka(s, m);
    let b = kb(s, m);
    let c = kc(s, m);
    let d = kd(s, m);
    lemma_shape_id_props(s, l - 1, ka(s, a), kb(s, a), kc(s, a), kd(s, a));
    lemma_shape_id_props(s, l - 1, kb(s, a), ka(s, b), kd(s, a), kc(s, b));
    lemma_shape_id_props(s, l - 1, ka(s, b), kb(s, b), kc(s, b), kd(s, b));
    lemma_shape_id_props(s, l - 1, kc(s, a), kd(s, a), ka(s, c), kb(s, c));
    lemma_shape_id_props(s, l - 1, kd(s, a), kc(s, b), kb(s, c), ka(s, d));
    lemma_shape_id_props(s, l - 1, kc(s, b), kd(s, b), ka(s, d), kb(s, d));
    lemma_shape_id_props(s, l - 1, ka(s, c), kb(s, c), kc(s, c), kd(s, c));
    lemma_shape_id_props(s, l - 1, kb(s, c), ka(s, d), kd(s, c), kc(s, d));
    lemma_shape_id_props(s, l - 1, ka(s, d), kb(s, d), kc(s, d), kd(s, d));
}

/// Assemble a partial-advance derivation for `m` from the nine advanced
/// squares and the four joined inner quadrants.
#[verifier::rlimit(100)]
proof fn lemma_rel_assembled(
    s: Seq<Node>,
    m: int,
    jj: int,
    n: Nine,
    u1: int,
    u2: int,
    u3: int,
    u4: int,
    r: int,
)
    requires
        store_ok(s),
        0 <= m < s.len(),
        3 <= lv(s, m),
        pp(s, m) != 0,
        jj < lv(s, m) - 2,
        nine_shapes(s, m, n),
        nine_holds(s, m, jj, n),
        0 <= n.c1 < s.len(),
        0 <= n.c2 < s.len(),
        0 <= n.c3 < s.len(),
        0 <= n.c4 < s.len(),
        0 <= n.c5 < s.len(),
        0 <= n.c6 < s.len(),
        0 <= n.c7 < s.len(),
        0 <= n.c8 < s.len(),
        0 <= n.c9 < s.len(),
        2 <= u1 < s.len() && is_shape(s, u1, lv(s, m) - 2, kd(s, n.c1 as int), kc(s, n.c2 as int), kb(s, n.c4 as int), ka(s, n.c5 as int)),
        2 <= u2 < s.len() && is_shape(s, u2, lv(s, m) - 2, kd(s, n.c2 as int), kc(s, n.c3 as int), kb(s, n.c5 as int), ka(s, n.c6 as int)),
        2 <= u3 < s.len() && is_shape(s, u3, lv(s, m) - 2, kd(s, n.c4 as int), kc(s, n.c5 as int), kb(s, n.c7 as int), ka(s, n.c8 as int)),
        2 <= u4 < s.len() && is_shape(s, u4, lv(s, m) - 2, kd(s, n.c5 as int), kc(s, n.c6 as int), kb(s, n.c8 as int), ka(s, n.c9 as int)),
        2 <= r < s.len() && is_shape(s, r, lv(s, m) - 1, u1, u2, u3, u4),
    ensures
        succ_rel(s, m, jj, r),
{
    reveal(succ_rel);
    reveal(step_entry);
    reveal(nine_dr);
    let l = lv(s, m);
    let dr0 = choose|dr: Set<(int, int, int)>| #[trigger] nine_dr(s, dr, m, jj, n);
    assert(nine_dr(s, dr0, m, jj, n));
    let dr = dr0.insert((m, jj, r));
    let w = (NineW {
        c1: n.c1 as int,
        c2: n.c2 as int,
        c3: n.c3 as int,
        c4: n.c4 as int,
        c5: n.c5 as int,
        c6: n.c6 as int,
        c7: n.c7 as int,
        c8: n.c8 as int,
        c9: n.c9 as int,
    });
    assert(has_shape(s, l - 2, kd(s, w.c1), kc(s, w.c2), kb(s, w.c4), ka(s, w.c5)));
    assert(has_shape(s, l - 2, kd(s, w.c2), kc(s, w.c3), kb(s, w.c5), ka(s, w.c6)));
    assert(has_shape(s, l - 2, kd(s, w.c4), kc(s, w.c5), kb(s, w.c7), ka(s, w.c8)));
    assert(has_shape(s, l - 2, kd(s, w.c5), kc(s, w.c6), kb(s, w.c8), ka(s, w.c9)));
    lemma_shape_id_props(s, l - 2, kd(s, w.c1), kc(s, w.c2), kb(s, w.c4), ka(s, w.c5));
    lemma_shape_id_props(s, l - 2, kd(s, w.c2), kc(s, w.c3), kb(s, w.c5), ka(s, w.c6));
    lemma_shape_id_props(s, l - 2, kd(s, w.c4), kc(s, w.c5), kb(s, w.c7), ka(s, w.c8));
    lemma_shape_id_props(s, l - 2, kd(s, w.c5), kc(s, w.c6), kb(s, w.c8), ka(s, w.c9));
    assert(step_assembled(s, l, r, w));
    assert(nine_entry(s, dr, m, jj, r, w));
    assert(leaves_ok(s));
    assert(node_ok(s, m));
    assert(step_entry(s, dr, m, jj, r));
    assert forall|m2: int, jj2: int, r2: int| #[trigger] dr.contains((m2, jj2, r2)) implies
        step_entry(s, dr, m2, jj2, r2) by {
        if dr0.contains((m2, jj2, r2)) {
            lemma_step_entry_mono(s, dr0, dr, m2, jj2, r2);
        }
    }
    assert(step_holds(s, dr, m, jj, r));
}

/// Assemble a full-advance derivation for `m` from the nine advanced
/// squares and the four second-round steps.
#[verifier::rlimit(100)]
proof fn lemma_rel_doubled(
    s: Seq<Node>,
    m: int,
    n: Nine,
    d1: int,
    d2: int,
    d3: int,
    d4: int,
    e1: int,
    e2: int,
    e3: int,
    e4: int,
    r: int,
)
    requires
        store_ok(s),
        0 <= m < s.len(),
        3 <= lv(s, m),
        pp(s, m) != 0,
        nine_shapes(s, m, n),
        nine_holds(s, m, lv(s, m) - 2, n),
        0 <= n.c1 < s.len(),
        0 <= n.c2 < s.len(),
        0 <= n.c3 < s.len(),
        0 <= n.c4 < s.len(),
        0 <= n.c5 < s.len(),
        0 <= n.c6 < s.len(),
        0 <= n.c7 < s.len(),
        0 <= n.c8 < s.len(),
        0 <= n.c9 < s.len(),
        2 <= d1 < s.len() && is_shape(s, d1, lv(s, m) - 1, n.c1 as int, n.c2 as int, n.c4 as int, n.c5 as int),
        2 <= d2 < s.len() && is_shape(s, d2, lv(s, m) - 1, n.c2 as int, n.c3 as int, n.c5 as int, n.c6 as int),
        2 <= d3 < s.len() && is_shape(s, d3, lv(s, m) - 1, n.c4 as int, n.c5 as int, n.c7 as int, n.c8 as int),
        2 <= d4 < s.len() && is_shape(s, d4, lv(s, m) - 1, n.c5 as int, n.c6 as int, n.c8 as int, n.c9 as int),
        succ_rel(s, d1, lv(s, m) - 3, e1),
        succ_rel(s, d2, lv(s, m) - 3, e2),
        succ_rel(s, d3, lv(s, m) - 3, e3),
        succ_rel(s, d4, lv(s, m) - 3, e4),
        2 <= r < s.len() && is_shape(s, r, lv(s, m) - 1, e1, e2, e3, e4),
        lv(s, r) == lv(s, m) - 1,
    ensures
        succ_rel(s, m, lv(s, m) - 2, r),
{
    reveal(succ_rel);
    reveal(step_entry);
    reveal(nine_dr);
    let l = lv(s, m);
    let jj = l - 2;
    let dr0 = choose|dr: Set<(int, int, int)>| #[trigger] nine_dr(s, dr, m, jj, n);
    assert(nine_dr(s, dr0, m, jj, n));
    let b1 = collect_step(s, dr0, d1, l - 3, e1);
    let b2 = collect_step(s, b1, d2, l - 3, e2);
    let b3 = collect_step(s, b2, d3, l - 3, e3);
    let big = collect_step(s, b3, d4, l - 3, e4);
    let dr = big.insert((m, jj, r));
    let w = (NineW {
        c1: n.c1 as int,
        c2: n.c2 as int,
        c3: n.c3 as int,
        c4: n.c4 as int,
        c5: n.c5 as int,
        c6: n.c6 as int,
        c7: n.c7 as int,
        c8: n.c8 as int,
        c9: n.c9 as int,
    });
    assert(has_shape(s, l - 1, w.c1, w.c2, w.c4, w.c5));
    assert(has_shape(s, l - 1, w.c2, w.c3, w.c5, w.c6));
    assert(has_shape(s, l - 1, w.c4, w.c5, w.c7, w.c8));
    assert(has_shape(s, l - 1, w.c5, w.c6, w.c8, w.c9));
    lemma_shape_id_props(s, l - 1, w.c1, w.c2, w.c4, w.c5);
    lemma_shape_id_props(s, l - 1, w.c2, w.c3, w.c5, w.c6);
    lemma_shape_id_props(s, l - 1, w.c4, w.c5, w.c7, w.c8);
    lemma_shape_id_props(s, l - 1, w.c5, w.c6, w.c8, w.c9);
    assert(shape_id(s, l - 1, w.c1, w.c2, w.c4, w.c5) == d1);
    assert(shape_id(s, l - 1, w.c2, w.c3, w.c5, w.c6) == d2);
    assert(shape_id(s, l - 1, w.c4, w.c5, w.c7, w.c8) == d3);
    assert(shape_id(s, l - 1, w.c5, w.c6, w.c8, w.c9) == d4);
    let v = (QuadW { e1: e1, e2: e2, e3: e3, e4: e4 });
    assert(quad_entry(s, dr, l, r, w, v));
    assert(step_doubled(s, dr, l, r, w));
    assert(nine_entry(s, dr, m, jj, r, w));
    assert(leaves_ok(s));
    assert(node_ok(s, m));
    assert(step_entry(s, dr, m, jj, r));
    assert forall|m2: int, jj2: int, r2: int| #[trigger] dr.contains((m2, jj2, r2)) implies
        step_entry(s, dr, m2, jj2, r2) by {
        if big.contains((m2, jj2, r2)) {
            lemma_step_entry_mono(s, big, dr, m2, jj2, r2);
        }
    }
    assert(step_holds(s, dr, m, jj, r));
}

/// Conclude a full advance: transfer the four second-round steps into the
/// final store and build the derivation.
#[verifier::rlimit(100)]
proof fn lemma_double_finish(
    s0: Seq<Node>,
    p1: Seq<Node>,
    p2: Seq<Node>,
    p3: Seq<Node>,
    p4: Seq<Node>,
    s: Seq<Node>,
    m: int,
    jj: int,
    nine: Nine,
    d1: int,
    d2: int,
    d3: int,
    d4: int,
    e1: int,
    e2: int,
    e3: int,
    e4: int,
    r: int,
)
    requires
        store_ok(s0),
        store_ok(p1),
        store_ok(p2),
        store_ok(p3),
        store_ok(p4),
        store_ok(s),
        extends(s0, s),
        extends(p1, s),
        extends(p2, s),
        extends(p3, s),
        extends(p4, s),
        0 <= m < s0.len(),
        3 <= lv(s0, m),
        pp(s0, m) != 0,
        jj == lv(s0, m) - 2,
        nine_ok(s0, nine, lv(s0, m) - 2),
        nine_shapes(s0, m, nine),
        nine_holds(s0, m, jj, nine),
        succ_rel(p1, d1, lv(s0, m) - 3, e1),
        succ_rel(p2, d2, lv(s0, m) - 3, e2),
        succ_rel(p3, d3, lv(s0, m) - 3, e3),
        succ_rel(p4, d4, lv(s0, m) - 3, e4),
        2 <= d1 < s.len() && is_shape(s, d1, lv(s0, m) - 1, nine.c1 as int, nine.c2 as int, nine.c4 as int, nine.c5 as int),
        2 <= d2 < s.len() && is_shape(s, d2, lv(s0, m) - 1, nine.c2 as int, nine.c3 as int, nine.c5 as int, nine.c6 as int),
        2 <= d3 < s.len() && is_shape(s, d3, lv(s0, m) - 1, nine.c4 as int, nine.c5 as int, nine.c7 as int, nine.c8 as int),
        2 <= d4 < s.len() && is_shape(s, d4, lv(s0, m) - 1, nine.c5 as int, nine.c6 as int, nine.c8 as int, nine.c9 as int),
        2 <= r < s.len() && is_shape(s, r, lv(s0, m) - 1, e1, e2, e3, e4),
        lv(s, r) == lv(s0, m) - 1,
    ensures
        succ_rel(s, m, jj, r),
{
    lemma_nine_transfer(s0, s, m, jj, nine);
    lemma_succ_rel_extends(p1, s, d1, lv(s0, m) - 3, e1);
    lemma_succ_rel_extends(p2, s, d2, lv(s0, m) - 3, e2);
    lemma_succ_rel_extends(p3, s, d3, lv(s0, m) - 3, e3);
    lemma_succ_rel_extends(p4, s, d4, lv(s0, m) - 3, e4);
    assert(s[m] == s0[m]);
    lemma_rel_doubled(s, m, nine, d1, d2, d3, d4, e1, e2, e3, e4, r);
}

/// A step is deterministic: the relation pins one result node, and two
/// exponents that clamp to the same effective exponent — in particular
/// `None` and the level's maximum — pin the same node.
#[verifier::rlimit(100)]
pub proof fn lemma_succ_rel_unique(s: Seq<Node>, m: int, j1: int, j2: int, r1: int, r2: int)
    requires
        store_ok(s),
        succ_rel(s, m, j1, r1),
        succ_rel(s, m, j2, r2),
        (if j1 < lv(s, m) - 2 {
            j1
        } else {
            lv(s, m) - 2
        }) == (if j2 < lv(s, m) - 2 {
            j2
        } else {
            lv(s, m) - 2
        }),
    ensures
        r1 == r2,
    decreases lv(s, m),
{
    reveal(succ_rel);
    reveal(step_entry);
    let dra = choose|dr: Set<(int, int, int)>| #[trigger] step_holds(s, dr, m, j1, r1);
    assert(step_holds(s, dra, m, j1, r1));
    let drb = choose|dr: Set<(int, int, int)>| #[trigger] step_holds(s, dr, m, j2, r2);
    assert(step_holds(s, drb, m, j2, r2));
    assert(step_entry(s, dra, m, j1, r1));
    assert(step_entry(s, drb, m, j2, r2));
    assert(leaves_ok(s));
    assert(node_ok(s, m));
    let l = lv(s, m);
    if pp(s, m) == 0 {
    } else if l == 2 {
        if r1 != r2 {
            assert(same_shape(s, r1, r2));
        }
    } else {
        let a = ka(s, m);
        let b = kb(s, m);
        let c = kc(s, m);
        let d = kd(s, m);
        let w1 = choose|w: NineW| #[trigger] nine_entry(s, dra, m, j1, r1, w);
        assert(nine_entry(s, dra, m, j1, r1, w1));
        let w2 = choose|w: NineW| #[trigger] nine_entry(s, drb, m, j2, r2, w);
        assert(nine_entry(s, drb, m, j2, r2, w2));
        let je = if j1 < l - 2 {
            j1
        } else {
            l - 2
        };
        let jec = if je < l - 2 {
            je
        } else {
            l - 3
        };
        let t1 = shape_id(s, l - 1, ka(s, a), kb(s, a), kc(s, a), kd(s, a));
        let t2 = shape_id(s, l - 1, kb(s, a), ka(s, b), kd(s, a), kc(s, b));
        let t3 = shape_id(s, l - 1, ka(s, b), kb(s, b), kc(s, b), kd(s, b));
        let t4 = shape_id(s, l - 1, kc(s, a), kd(s, a), ka(s, c), kb(s, c));
        let t5 = shape_id(s, l - 1, kd(s, a), kc(s, b), kb(s, c), ka(s, d));
        let t6 = shape_id(s, l - 1, kc(s, b), kd(s, b), ka(s, d), kb(s, d));
        let t7 = shape_id(s, l - 1, ka(s, c), kb(s, c), kc(s, c), kd(s, c));
        let t8 = shape_id(s, l - 1, kb(s, c), ka(s, d), kd(s, c), kc(s, d));
        let t9 = shape_id(s, l - 1, ka(s, d), kb(s, d), kc(s, d), kd(s, d));
        lemma_shape_id_props(s, l - 1, ka(s, a), kb(s, a), kc(s, a), kd(s, a));
        lemma_shape_id_props(s, l - 1, kb(s, a), ka(s, b), kd(s, a), kc(s, b));
        lemma_shape_id_props(s, l - 1, ka(s, b), kb(s, b), kc(s, b), kd(s, b));
        lemma_shape_id_props(s, l - 1, kc(s, a), kd(s, a), ka(s, c), kb(s, c));
        lemma_shape_id_props(s, l - 1, kd(s, a), kc(s, b), kb(s, c), ka(s, d));
        lemma_shape_id_props(s, l - 1, kc(s, b), kd(s, b), ka(s, d), kb(s, d));
        lemma_shape_id_props(s, l - 1, ka(s, c), kb(s, c), kc(s, c), kd(s, c));
        lemma_shape_id_props(s, l - 1, kb(s, c), ka(s, d), kd(s, c), kc(s, d));
        lemma_shape_id_props(s, l - 1, ka(s, d), kb(s, d), kc(s, d), kd(s, d));
        assert(step_holds(s, dra, t1, jec, w1.c1));
        assert(step_holds(s, drb, t1, jec, w2.c1));
        lemma_succ_rel_unique(s, t1, jec, jec, w1.c1, w2.c1);
        assert(step_holds(s, dra, t2, jec, w1.c2));
        assert(step_holds(s, drb, t2, jec, w2.c2));
        lemma_succ_rel_unique(s, t2, jec, jec, w1.c2, w2.c2);
        assert(step_holds(s, dra, t3, jec, w1.c3));
        assert(step_holds(s, drb, t3, jec, w2.c3));
        lemma_succ_rel_unique(s, t3, jec, jec, w1.c3, w2.c3);
        assert(step_holds(s, dra, t4, jec, w1.c4));
        assert(step_holds(s, drb, t4, jec, w2.c4));
        lemma_succ_rel_unique(s, t4, jec, jec, w1.c4, w2.c4);
        assert(step_holds(s, dra, t5, jec, w1.c5));
        assert(step_holds(s, drb, t5, jec, w2.c5));
        lemma_succ_rel_unique(s, t5, jec, jec, w1.c5, w2.c5);
        assert(step_holds(s, dra, t6, jec, w1.c6));
        assert(step_holds(s, drb, t6, jec, w2.c6));
        lemma_succ_rel_unique(s, t6, jec, jec, w1.c6, w2.c6);
        assert(step_holds(s, dra, t7, jec, w1.c7));
        assert(step_holds(s, drb, t7, jec, w2.c7));
        lemma_succ_rel_unique(s, t7, jec, jec, w1.c7, w2.c7);
        assert(step_holds(s, dra, t8, jec, w1.c8));
        assert(step_holds(s, drb, t8, jec, w2.c8));
        lemma_succ_rel_unique(s, t8, jec, jec, w1.c8, w2.c8);
        assert(step_holds(s, dra, t9, jec, w1.c9));
        assert(step_holds(s, drb, t9, jec, w2.c9));
        lemma_succ_rel_unique(s, t9, jec, jec, w1.c9, w2.c9);
        assert(w1 == w2);
        if je < l - 2 {
            assert(step_assembled(s, l, r1, w1));
            assert(step_assembled(s, l, r2, w2));
            if r1 != r2 {
                assert(same_shape(s, r1, r2));
            }
        } else {
            assert(step_doubled(s, dra, l, r1, w1));
            assert(step_doubled(s, drb, l, r2, w2));
            let v1 = choose|v: QuadW| #[trigger] quad_entry(s, dra, l, r1, w1, v);
            assert(quad_entry(s, dra, l, r1, w1, v1));
            let v2 = choose|v: QuadW| #[trigger] quad_entry(s, drb, l, r2, w2, v);
            assert(quad_entry(s, drb, l, r2, w2, v2));
            let d1 = shape_id(s, l - 1, w1.c1, w1.c2, w1.c4, w1.c5);
            let d2 = shape_id(s, l - 1, w1.c2, w1.c3, w1.c5, w1.c6);
            let d3 = shape_id(s, l - 1, w1.c4, w1.c5, w1.c7, w1.c8);
            let d4 = shape_id(s, l - 1, w1.c5, w1.c6, w1.c8, w1.c9);
            lemma_shape_id_props(s, l - 1, w1.c1, w1.c2, w1.c4, w1.c5);
            lemma_shape_id_props(s, l - 1, w1.c2, w1.c3, w1.c5, w1.c6);
            lemma_shape_id_props(s, l - 1, w1.c4, w1.c5, w1.c7, w1.c8);
            lemma_shape_id_props(s, l - 1, w1.c5, w1.c6, w1.c8, w1.c9);
            assert(step_holds(s, dra, d1, l - 3, v1.e1));
            assert(step_holds(s, drb, d1, l - 3, v2.e1));
            lemma_succ_rel_unique(s, d1, l - 3, l - 3, v1.e1, v2.e1);
            assert(step_holds(s, dra, d2, l - 3, v1.e2));
            assert(step_holds(s, drb, d2, l - 3, v2.e2));
            lemma_succ_rel_unique(s, d2, l - 3, l - 3, v1.e2, v2.e2);
            assert(step_holds(s, dra, d3, l - 3, v1.e3));
            assert(step_holds(s, drb, d3, l - 3, v2.e3));
            lemma_succ_rel_unique(s, d3, l - 3, l - 3, v1.e3, v2.e3);
            assert(step_holds(s, dra, d4, l - 3, v1.e4));
            assert(step_holds(s, drb, d4, l - 3, v2.e4));
            lemma_succ_rel_unique(s, d4, l - 3, l - 3, v1.e4, v2.e4);
            if r1 != r2 {
                assert(same_shape(s, r1, r2));
            }
        }
    }
}

/// Number of binary digits of a generation count.
pub open spec fn bits_of(n: int) -> int
    decreases n,
{
    if n <= 0 {
        0
    } else {
        1 + bits_of(n / 2)
    }
}

/// Bit `e` of a generation count.
pub open spec fn bit_set(n: int, e: int) -> bool {
    (n / (pow2(e as nat) as int)) % 2 == 1
}

/// A generation count lies between the powers of two its digit count
/// names; in particular its top digit is set.
proof fn lemma_bits_of_range(n: int)
    requires
        n >= 1,
    ensures
        bits_of(n) >= 1,
        pow2((bits_of(n) - 1) as nat) <= n < pow2(bits_of(n) as nat),
    decreases n,
{
    vstd::arithmetic::power2::lemma2_to64();
    if n == 1 {
        assert(bits_of(0) == 0);
        assert(bits_of(1) == 1);
    } else {
        lemma_bits_of_range(n / 2);
        let b = bits_of(n / 2);
        lemma_pow2_adds((b - 1) as nat, 1);
        lemma_pow2_adds(b as nat, 1);
        assert(pow2(b as nat) <= n && n < pow2((b + 1) as nat)) by (nonlinear_arith)
            requires
                pow2((b - 1) as nat) <= n / 2 < pow2(b as nat),
                n >= 2,
                pow2(b as nat) == 2 * pow2((b - 1) as nat),
                pow2((b + 1) as nat) == 2 * pow2(b as nat),
                n / 2 == (n - (n % 2)) / 2,
                0 <= n % 2 < 2,
        ;
    }
}

/// One processed bit of an advance: for a set bit, `p` is a padded node
/// holding `prev`'s cells under the stated diagonal shift, and `q` is
/// `p`'s step at the bit's exponent; a clear bit changes nothing.
pub open spec fn bit_step(s: Seq<Node>, prev: int, e: int, p: int, q: int) -> bool {
    &&& 0 <= prev < s.len()
    &&& 0 <= p < s.len()
    &&& 0 <= q < s.len()
    &&& 3 <= lv(s, p)
    &&& is_padded_spec(s, p)
    &&& lv(s, prev) <= lv(s, p)
    &&& shifted_window(s, p, prev, half(lv(s, p)) - half(lv(s, prev)))
    &&& succ_rel(s, p, e, q)
    &&& lv(s, q) + 1 == lv(s, p)
}

/// The node a chain has reached after `k` entries.
pub open spec fn chain_at(ch: Seq<(int, int)>, i: int, k: int) -> int {
    if k == 0 {
        i
    } else {
        ch[k - 1].1
    }
}

/// Entry `k` of an advance trace handles bit `bits_of(n) - 1 - k` of `n`.
pub open spec fn chain_entry(s: Seq<Node>, n: int, ch: Seq<(int, int)>, i: int, k: int) -> bool {
    let prev = chain_at(ch, i, k);
    let e = bits_of(n) - 1 - k;
    if bit_set(n, e) {
        bit_step(s, prev, e, ch[k].0, ch[k].1)
    } else {
        ch[k].0 == prev && ch[k].1 == prev
    }
}

/// The full decomposition of one `advance(i, n)`: one entry per binary
/// digit of `n`, most significant first — each set bit one padded,
/// justified step — and the result is the crop of the chain's last node.
pub open spec fn advance_trace(s: Seq<Node>, n: int, ch: Seq<(int, int)>, i: int, r: int) -> bool {
    let w = chain_at(ch, i, ch.len() as int);
    &&& ch.len() == bits_of(n)
    &&& forall|k: int| 0 <= k < ch.len() ==> #[trigger] chain_entry(s, n, ch, i, k)
    &&& 0 <= w < s.len()
    &&& 0 <= r < s.len()
    &&& lv(s, r) <= lv(s, w)
    &&& (lv(s, w) <= 63 ==> pp(s, r) == pp(s, w) && shifted_window(
        s,
        w,
        r,
        half(lv(s, w)) - half(lv(s, r)),
    ))
}

/// A chain's entries survive growing the store.
proof fn lemma_chain_extends(s1: Seq<Node>, s2: Seq<Node>, n: int, ch: Seq<(int, int)>, i: int)
    requires
        store_ok(s1),
        store_ok(s2),
        extends(s1, s2),
        forall|k: int| 0 <= k < ch.len() ==> #[trigger] chain_entry(s1, n, ch, i, k),
    ensures
        forall|k: int| 0 <= k < ch.len() ==> #[trigger] chain_entry(s2, n, ch, i, k),
{
    assert forall|k: int| 0 <= k < ch.len() implies #[trigger] chain_entry(s2, n, ch, i, k) by {
        assert(chain_entry(s1, n, ch, i, k));
        let prev = chain_at(ch, i, k);
        let e = bits_of(n) - 1 - k;
        if bit_set(n, e) {
            lemma_padded_extends(s1, s2, ch[k].0);
            lemma_window_extends(
                s1,
                s2,
                ch[k].0,
                prev,
                half(lv(s1, ch[k].0)) - half(lv(s1, prev)),
            );
            lemma_succ_rel_extends(s1, s2, ch[k].0, e, ch[k].1);
            assert(s2[prev] == s1[prev]);
            assert(s2[ch[k].1] == s1[ch[k].1]);
        }
    }
}

/// One full-speed round: `p` is a padded node holding `prev`'s cells
/// under the stated diagonal shift, and `q` is `p`'s step by the padded
/// level's own maximum, `2^(level-2)` generations.
pub open spec fn full_step(s: Seq<Node>, prev: int, p: int, q: int) -> bool {
    &&& 0 <= prev < s.len()
    &&& 0 <= p < s.len()
    &&& 0 <= q < s.len()
    &&& 3 <= lv(s, p)
    &&& is_padded_spec(s, p)
    &&& lv(s, prev) <= lv(s, p)
    &&& shifted_window(s, p, prev, half(lv(s, p)) - half(lv(s, prev)))
    &&& succ_rel(s, p, lv(s, p) - 2, q)
    &&& lv(s, q) + 1 == lv(s, p)
}

/// The round-by-round decomposition of one `ffwd(i, n)`: each entry pads
/// the node so far and takes one full-speed step, and the result is the
/// last round's step.
pub open spec fn ffwd_trace(s: Seq<Node>, n: int, ch: Seq<(int, int)>, i: int, r: int) -> bool {
    &&& ch.len() == n
    &&& forall|k: int|
        0 <= k < ch.len() ==> #[trigger] full_step(s, chain_at(ch, i, k), ch[k].0, ch[k].1)
    &&& r == chain_at(ch, i, n)
}

/// Full-speed rounds survive growing the store.
proof fn lemma_full_chain_extends(s1: Seq<Node>, s2: Seq<Node>, ch: Seq<(int, int)>, i: int)
    requires
        store_ok(s1),
        store_ok(s2),
        extends(s1, s2),
        forall|k: int|
            0 <= k < ch.len() ==> #[trigger] full_step(s1, chain_at(ch, i, k), ch[k].0, ch[k].1),
    ensures
        forall|k: int|
            0 <= k < ch.len() ==> #[trigger] full_step(s2, chain_at(ch, i, k), ch[k].0, ch[k].1),
{
    assert forall|k: int| 0 <= k < ch.len() implies #[trigger] full_step(
        s2,
        chain_at(ch, i, k),
        ch[k].0,
        ch[k].1,
    ) by {
        assert(full_step(s1, chain_at(ch, i, k), ch[k].0, ch[k].1));
        let prev = chain_at(ch, i, k);
        lemma_padded_extends(s1, s2, ch[k].0);
        lemma_window_extends(s1, s2, ch[k].0, prev, half(lv(s1, ch[k].0)) - half(lv(s1, prev)));
        lemma_succ_rel_extends(s1, s2, ch[k].0, lv(s1, ch[k].0) - 2, ch[k].1);
        assert(s2[prev] == s1[prev]);
        assert(s2[ch[k].1] == s1[ch[k].1]);
    }
}

impl Life {
    /// Look a step result up in the memo table.
    fn memo_find(&self, m: usize, jj: u8) -> (r: Option<usize>)
        requires
            self.wf(),
            self.valid(m as int),
        ensures
            match r {
                Some(x) => self.valid(x as int) && lv(self.nodes@, x as int) + 1 == lv(
                    self.nodes@,
                    m as int,
                ) && succ_rel(self.nodes@, m as int, jj as int, x as int),
                None => true,
            },
    {
        let key: u64 = m as u64;
        match self.memo.get(&key) {
            None => None,
            Some(bucket) => {
                let mut t: usize = 0;
                let blen: usize = bucket.len();
                while t < blen
                    invariant
                        self.wf(),
                        self.valid(m as int),
                        t <= blen,
                        blen == bucket@.len(),
                        self.memo@.contains_key(key),
                        bucket@ == self.memo@[key]@,
                        key as int == m as int,
                    decreases blen - t,
                {
                    proof {
                        assert(memo_bucket_ok(self.nodes@, self.memo@[key]@, key as int));
                    }
                    let e = bucket[t];
                    if e.j == jj {
                        return Some(e.r);
                    }
                    t += 1;
                }
                None
            },
        }
    }

    /// Record a step result in the memo table.
    fn memo_put(&mut self, m: usize, jj: u8, r: usize)
        requires
            old(self).wf(),
            old(self).valid(m as int),
            old(self).valid(r as int),
            2 <= lv(old(self).nodes@, m as int),
            lv(old(self).nodes@, r as int) + 1 == lv(old(self).nodes@, m as int),
            succ_rel(old(self).nodes@, m as int, jj as int, r as int),
        ensures
            final(self).wf(),
            final(self).nodes@ == old(self).nodes@,
            final(self).zeros@ == old(self).zeros@,
    {
        let key: u64 = m as u64;
        let ghost m0 = self.memo@;
        let mut bucket: Vec<MemoEntry> = match self.memo.remove(&key) {
            Some(v) => v,
            None => Vec::new(),
        };
        let ghost b1 = bucket@;
        bucket.push(MemoEntry { j: jj, r });
        self.memo.insert(key, bucket);
        proof {
            let s = self.nodes@;
            let m2 = self.memo@;
            assert(m0.contains_key(key) ==> b1 == m0[key]@);
            assert(!m0.contains_key(key) ==> b1.len() == 0);
            assert(memo_ok(s, m2)) by {
                assert forall|k: u64| #[trigger] m2.contains_key(k) implies (k as int) < s.len()
                    && 2 <= lv(s, k as int) && memo_bucket_ok(s, m2[k]@, k as int) by {
                    if k == key {
                        assert(m2[k]@ == b1.push(MemoEntry { j: jj, r }));
                        assert forall|t: int| 0 <= t < m2[k]@.len() implies (
                        #[trigger] m2[k]@[t].r as int) < s.len() && lv(s, m2[k]@[t].r as int) + 1
                            == lv(s, k as int) && succ_rel(s, k as int, m2[k]@[t].j as int, m2[k]@[t].r as int) by {
                            if t < b1.len() {
                                assert(memo_bucket_ok(s, m0[k]@, k as int));
                            }
                        }
                    } else {
                        assert(m0.contains_key(k) && m0[k] == m2[k]);
                        assert(memo_bucket_ok(s, m0[k]@, k as int));
                    }
                }
            }
        }
    }

    /// Advance the centre of `m` by `min(2^j, 2^(level-2))` generations,
    /// where `j == None` asks for the level's maximum, `2^(level-2)`.  The
    /// result is pinned by `succ_rel`: it is what the macrocell
    /// decomposition of the step yields, with the exact one-generation
    /// rule at the base.  A region with no live cells stays empty.
    /// Memoized per (canonical node, effective exponent), so the exponent
    /// `None` and its explicit value share one cache entry.
    #[verifier::rlimit(100)]
    pub fn successor(&mut self, m: usize, j: Option<u8>) -> (r: usize)
        requires
            old(self).wf(),
            old(self).valid(m as int),
            2 <= lv(old(self).nodes@, m as int),
        ensures
            final(self).wf(),
            extends(old(self).nodes@, final(self).nodes@),
            final(self).valid(r as int),
            lv(final(self).nodes@, r as int) + 1 == lv(old(self).nodes@, m as int),
            pp(old(self).nodes@, m as int) == 0 ==> pp(final(self).nodes@, r as int) == 0,
            succ_rel(
                final(self).nodes@,
                m as int,
                eff_exp(j, lv(old(self).nodes@, m as int)),
                r as int,
            ),
            lv(old(self).nodes@, m as int) == 2 ==> forall|dx: int, dy: int|
                0 <= dx < 2 && 0 <= dy < 2 ==> #[trigger] cell(
                    final(self).nodes@,
                    r as int,
                    dx,
                    dy,
                ) == life_rule(
                    cell(final(self).nodes@, m as int, 1 + dx, 1 + dy),
                    nbrs(final(self).nodes@, m as int, 1 + dx, 1 + dy),
                ),
            final(self).zeros@ == old(self).zeros@,
        decreases lv(old(self).nodes@, m as int), 4int,
    {
        let ghost s0 = self.nodes@;
        let ghost eff = eff_exp(j, lv(s0, m as int));
        proof {
            assert(leaves_ok(s0));
            assert(node_ok(s0, m as int));
        }
        if self.nodes[m].population == 0 {
            let r = self.nodes[m].a;
            proof {
                assert(sat4(
                    pp(s0, ka(s0, m as int)),
                    pp(s0, kb(s0, m as int)),
                    pp(s0, kc(s0, m as int)),
                    pp(s0, kd(s0, m as int)),
                ) == 0);
                lemma_rel_shortcut(s0, m as int, eff, r as int);
                if lv(s0, m as int) == 2 {
                    assert forall|dx: int, dy: int| 0 <= dx < 2 && 0 <= dy < 2 implies #[trigger] cell(
                        s0,
                        r as int,
                        dx,
                        dy,
                    ) == life_rule(
                        cell(s0, m as int, 1 + dx, 1 + dy),
                        nbrs(s0, m as int, 1 + dx, 1 + dy),
                    ) by {
                        lemma_pop_zero(s0, r as int, dx, dy);
                        lemma_pop_zero(s0, m as int, 1 + dx, 1 + dy);
                        assert(nbrs(s0, m as int, 1 + dx, 1 + dy) == 0) by {
                            lemma_pop_zero(s0, m as int, dx, dy);
                            lemma_pop_zero(s0, m as int, 1 + dx, dy);
                            lemma_pop_zero(s0, m as int, 2 + dx, dy);
                            lemma_pop_zero(s0, m as int, dx, 1 + dy);
                            lemma_pop_zero(s0, m as int, 2 + dx, 1 + dy);
                            lemma_pop_zero(s0, m as int, dx, 2 + dy);
                            lemma_pop_zero(s0, m as int, 1 + dx, 2 + dy);
                            lemma_pop_zero(s0, m as int, 2 + dx, 2 + dy);
                        }
                    }
                }
            }
            return r;
        }
        let l: u8 = self.nodes[m].level;
        let jj: u8 = match j {
            None => l - 2,
            Some(x) => if x < l - 2 {
                x
            } else {
                l - 2
            },
        };
        proof {
            assert(jj as int == eff);
        }
        if l > 3 {
            match self.memo_find(m, jj) {
                Some(x) => {
                    if self.hits < u64::MAX {
                        self.hits = self.hits + 1;
                    }
                    return x;
                },
                None => {
                    if self.misses < u64::MAX {
                        self.misses = self.misses + 1;
                    }
                },
            }
        }
        let res: usize;
        if l == 2 {
            res = self.life_4x4(m);
            proof {
                lemma_rel_base(s0, self.nodes@, m as int, eff, res as int);
            }
        } else {
            let nine = self.succ_nine(m, jj);
            if jj < l - 2 {
                res = self.succ_assemble(nine, Ghost(m as int), Ghost(jj as int));
            } else {
                res = self.succ_double(nine, jj, Ghost(m as int));
            }
        }
        if l > 3 {
            self.memo_put(m, jj, res);
        }
        res
    }

    /// Join four quadrant pieces into one half-size square and advance it,
    /// returning the square and its stepped centre.
    fn overlap_sub(&mut self, a: usize, b: usize, c: usize, d: usize, jj: u8) -> (r: (usize, usize))
        requires
            old(self).wf(),
            old(self).valid(a as int),
            old(self).valid(b as int),
            old(self).valid(c as int),
            old(self).valid(d as int),
            lv(old(self).nodes@, a as int) == lv(old(self).nodes@, b as int),
            lv(old(self).nodes@, a as int) == lv(old(self).nodes@, c as int),
            lv(old(self).nodes@, a as int) == lv(old(self).nodes@, d as int),
            1 <= lv(old(self).nodes@, a as int) <= 253,
        ensures
            final(self).wf(),
            extends(old(self).nodes@, final(self).nodes@),
            final(self).valid(r.0 as int),
            final(self).valid(r.1 as int),
            2 <= r.0 as int,
            is_shape(
                final(self).nodes@,
                r.0 as int,
                lv(old(self).nodes@, a as int) + 1,
                a as int,
                b as int,
                c as int,
                d as int,
            ),
            lv(final(self).nodes@, r.1 as int) == lv(old(self).nodes@, a as int),
            succ_rel(
                final(self).nodes@,
                r.0 as int,
                eff_exp(Some(jj), lv(old(self).nodes@, a as int) + 1),
                r.1 as int,
            ),
            final(self).zeros@ == old(self).zeros@,
        decreases lv(old(self).nodes@, a as int) + 2, 1int,
    {
        let t = self.join(a, b, c, d);
        let ghost smid = self.nodes@;
        let cc = self.successor(t, Some(jj));
        proof {
            assert(self.nodes@[t as int] == smid[t as int]);
        }
        (t, cc)
    }

    /// As `overlap_sub`, and fold the step into a growing derivation.
    fn overlap_collect(
        &mut self,
        a: usize,
        b: usize,
        c: usize,
        d: usize,
        jj: u8,
        gcur: Ghost<Set<(int, int, int)>>,
    ) -> (r: (usize, usize, Ghost<Set<(int, int, int)>>))
        requires
            old(self).wf(),
            old(self).valid(a as int),
            old(self).valid(b as int),
            old(self).valid(c as int),
            old(self).valid(d as int),
            lv(old(self).nodes@, a as int) == lv(old(self).nodes@, b as int),
            lv(old(self).nodes@, a as int) == lv(old(self).nodes@, c as int),
            lv(old(self).nodes@, a as int) == lv(old(self).nodes@, d as int),
            1 <= lv(old(self).nodes@, a as int) <= 253,
            step_closed(old(self).nodes@, gcur@),
        ensures
            final(self).wf(),
            extends(old(self).nodes@, final(self).nodes@),
            final(self).valid(r.0 as int),
            final(self).valid(r.1 as int),
            2 <= r.0 as int,
            is_shape(
                final(self).nodes@,
                r.0 as int,
                lv(old(self).nodes@, a as int) + 1,
                a as int,
                b as int,
                c as int,
                d as int,
            ),
            lv(final(self).nodes@, r.1 as int) == lv(old(self).nodes@, a as int),
            step_closed(final(self).nodes@, r.2@),
            r.2@.contains(
                (r.0 as int, eff_exp(Some(jj), lv(old(self).nodes@, a as int) + 1), r.1 as int),
            ),
            forall|x: (int, int, int)| gcur@.contains(x) ==> r.2@.contains(x),
            final(self).zeros@ == old(self).zeros@,
        decreases lv(old(self).nodes@, a as int) + 2, 2int,
    {
        let (t, cc) = self.overlap_sub(a, b, c, d, jj);
        let ghost mut newcur = gcur@;
        proof {
            lemma_closed_extends(old(self).nodes@, self.nodes@, gcur@);
            newcur = collect_step(
                self.nodes@,
                gcur@,
                t as int,
                eff_exp(Some(jj), lv(old(self).nodes@, a as int) + 1),
                cc as int,
            );
        }
        (t, cc, Ghost(newcur))
    }

    /// The canonical 3x3 overlap grid: nine half-size squares covering the
    /// node, each advanced recursively by the same exponent, together with
    /// a derivation justifying all nine steps.
    #[verifier::rlimit(100)]
    #[verifier::spinoff_prover]
    fn succ_nine(&mut self, m: usize, jj: u8) -> (r: Nine)
        requires
            old(self).wf(),
            old(self).valid(m as int),
            3 <= lv(old(self).nodes@, m as int),
        ensures
            final(self).wf(),
            extends(old(self).nodes@, final(self).nodes@),
            nine_ok(final(self).nodes@, r, lv(old(self).nodes@, m as int) - 2),
            nine_shapes(final(self).nodes@, m as int, r),
            nine_holds(final(self).nodes@, m as int, jj as int, r),
            final(self).zeros@ == old(self).zeros@,
        decreases lv(old(self).nodes@, m as int), 3int,
    {
        let ghost s0 = self.nodes@;
        let ghost l = lv(s0, m as int);
        let ghost jec = eff_exp(Some(jj), l - 1);
        proof {
            assert(node_ok(s0, m as int));
            assert(node_ok(s0, ka(s0, m as int)));
            assert(node_ok(s0, kb(s0, m as int)));
            assert(node_ok(s0, kc(s0, m as int)));
            assert(node_ok(s0, kd(s0, m as int)));
        }
        let mn = self.nodes[m];
        let an = self.nodes[mn.a];
        let bn = self.nodes[mn.b];
        let cn = self.nodes[mn.c];
        let dn = self.nodes[mn.d];
        let ghost mut cur = Set::<(int, int, int)>::empty();
        let (t1, c1, g1) = self.overlap_collect(an.a, an.b, an.c, an.d, jj, Ghost(cur));
        proof {
            cur = g1@;
        }
        let (t2, c2, g2) = self.overlap_collect(an.b, bn.a, an.d, bn.c, jj, Ghost(cur));
        proof {
            cur = g2@;
        }
        let (t3, c3, g3) = self.overlap_collect(bn.a, bn.b, bn.c, bn.d, jj, Ghost(cur));
        proof {
            cur = g3@;
        }
        let (t4, c4, g4) = self.overlap_collect(an.c, an.d, cn.a, cn.b, jj, Ghost(cur));
        proof {
            cur = g4@;
        }
        let (t5, c5, g5) = self.overlap_collect(an.d, bn.c, cn.b, dn.a, jj, Ghost(cur));
        proof {
            cur = g5@;
        }
        let (t6, c6, g6) = self.overlap_collect(bn.c, bn.d, dn.a, dn.b, jj, Ghost(cur));
        proof {
            cur = g6@;
        }
        let (t7, c7, g7) = self.overlap_collect(cn.a, cn.b, cn.c, cn.d, jj, Ghost(cur));
        proof {
            cur = g7@;
        }
        let (t8, c8, g8) = self.overlap_collect(cn.b, dn.a, cn.d, dn.c, jj, Ghost(cur));
        proof {
            cur = g8@;
        }
        let (t9, c9, g9) = self.overlap_collect(dn.a, dn.b, dn.c, dn.d, jj, Ghost(cur));
        proof {
            cur = g9@;
        }
        let r = Nine { t1, t2, t3, t4, t5, t6, t7, t8, t9, c1, c2, c3, c4, c5, c6, c7, c8, c9 };
        proof {
            let s = self.nodes@;
            assert(s[m as int] == s0[m as int]);
            assert(s[ka(s0, m as int)] == s0[ka(s0, m as int)]);
            assert(s[kb(s0, m as int)] == s0[kb(s0, m as int)]);
            assert(s[kc(s0, m as int)] == s0[kc(s0, m as int)]);
            assert(s[kd(s0, m as int)] == s0[kd(s0, m as int)]);
            assert(nine_shapes(s, m as int, r));
            lemma_nine_finish(s, m as int, jj as int, jec, r, cur);
        }
        r
    }

    /// Partial advance: the requested generations are already done, so the
    /// centre is assembled directly from the nine results' inner quadrants.
    #[verifier::rlimit(100)]
    fn succ_assemble(&mut self, nine: Nine, gm: Ghost<int>, gjj: Ghost<int>) -> (r: usize)
        requires
            old(self).wf(),
            0 <= gm@ < old(self).nodes@.len(),
            3 <= lv(old(self).nodes@, gm@),
            pp(old(self).nodes@, gm@) != 0,
            0 <= gjj@ < lv(old(self).nodes@, gm@) - 2,
            nine_ok(old(self).nodes@, nine, lv(old(self).nodes@, gm@) - 2),
            nine_shapes(old(self).nodes@, gm@, nine),
            nine_holds(old(self).nodes@, gm@, gjj@, nine),
        ensures
            final(self).wf(),
            extends(old(self).nodes@, final(self).nodes@),
            final(self).valid(r as int),
            lv(final(self).nodes@, r as int) + 1 == lv(old(self).nodes@, gm@),
            succ_rel(final(self).nodes@, gm@, gjj@, r as int),
            final(self).zeros@ == old(self).zeros@,
    {
        let ghost s0 = self.nodes@;
        let ghost l = lv(s0, gm@);
        proof {
            assert(leaves_ok(s0));
            assert(node_ok(s0, nine.c1 as int));
            assert(node_ok(s0, nine.c2 as int));
            assert(node_ok(s0, nine.c3 as int));
            assert(node_ok(s0, nine.c4 as int));
            assert(node_ok(s0, nine.c5 as int));
            assert(node_ok(s0, nine.c6 as int));
            assert(node_ok(s0, nine.c7 as int));
            assert(node_ok(s0, nine.c8 as int));
            assert(node_ok(s0, nine.c9 as int));
        }
        let n1 = self.nodes[nine.c1];
        let n2 = self.nodes[nine.c2];
        let n3 = self.nodes[nine.c3];
        let n4 = self.nodes[nine.c4];
        let n5 = self.nodes[nine.c5];
        let n6 = self.nodes[nine.c6];
        let n7 = self.nodes[nine.c7];
        let n8 = self.nodes[nine.c8];
        let n9 = self.nodes[nine.c9];
        let u1 = self.join(n1.d, n2.c, n4.b, n5.a);
        let u2 = self.join(n2.d, n3.c, n5.b, n6.a);
        let u3 = self.join(n4.d, n5.c, n7.b, n8.a);
        let u4 = self.join(n5.d, n6.c, n8.b, n9.a);
        let res = self.join(u1, u2, u3, u4);
        proof {
            let s = self.nodes@;
            lemma_nine_transfer(s0, s, gm@, gjj@, nine);
            lemma_rel_assembled(
                s,
                gm@,
                gjj@,
                nine,
                u1 as int,
                u2 as int,
                u3 as int,
                u4 as int,
                res as int,
            );
        }
        res
    }

    /// Full advance: join the nine results into four overlapping squares
    /// one level down and step each of them once more, doubling the
    /// generations done by the first recursion.
    #[verifier::rlimit(100)]
    #[verifier::spinoff_prover]
    fn succ_double(&mut self, nine: Nine, jj: u8, gm: Ghost<int>) -> (r: usize)
        requires
            old(self).wf(),
            0 <= gm@ < old(self).nodes@.len(),
            3 <= lv(old(self).nodes@, gm@),
            pp(old(self).nodes@, gm@) != 0,
            jj as int == lv(old(self).nodes@, gm@) - 2,
            nine_ok(old(self).nodes@, nine, lv(old(self).nodes@, gm@) - 2),
            nine_shapes(old(self).nodes@, gm@, nine),
            nine_holds(old(self).nodes@, gm@, jj as int, nine),
        ensures
            final(self).wf(),
            extends(old(self).nodes@, final(self).nodes@),
            final(self).valid(r as int),
            lv(final(self).nodes@, r as int) + 1 == lv(old(self).nodes@, gm@),
            succ_rel(final(self).nodes@, gm@, jj as int, r as int),
            final(self).zeros@ == old(self).zeros@,
        decreases lv(old(self).nodes@, nine.c1 as int) + 2, 0int,
    {
        let ghost s0 = self.nodes@;
        let ghost l = lv(s0, gm@);
        let d1 = self.join(nine.c1, nine.c2, nine.c4, nine.c5);
        let ghost sa1 = self.nodes@;
        let e1 = self.successor(d1, Some(jj));
        let ghost p1 = self.nodes@;
        let d2 = self.join(nine.c2, nine.c3, nine.c5, nine.c6);
        let ghost sa2 = self.nodes@;
        let e2 = self.successor(d2, Some(jj));
        let ghost p2 = self.nodes@;
        let d3 = self.join(nine.c4, nine.c5, nine.c7, nine.c8);
        let ghost sa3 = self.nodes@;
        let e3 = self.successor(d3, Some(jj));
        let ghost p3 = self.nodes@;
        let d4 = self.join(nine.c5, nine.c6, nine.c8, nine.c9);
        let ghost sa4 = self.nodes@;
        let e4 = self.successor(d4, Some(jj));
        let ghost p4 = self.nodes@;
        let res = self.join(e1, e2, e3, e4);
        proof {
            let s = self.nodes@;
            crate::node::lemma_extends_trans(p1, sa2, p2);
            crate::node::lemma_extends_trans(p1, p2, sa3);
            crate::node::lemma_extends_trans(p1, sa3, p3);
            crate::node::lemma_extends_trans(p1, p3, sa4);
            crate::node::lemma_extends_trans(p1, sa4, p4);
            crate::node::lemma_extends_trans(p1, p4, s);
            crate::node::lemma_extends_trans(p2, sa3, p3);
            crate::node::lemma_extends_trans(p2, p3, sa4);
            crate::node::lemma_extends_trans(p2, sa4, p4);
            crate::node::lemma_extends_trans(p2, p4, s);
            crate::node::lemma_extends_trans(p3, sa4, p4);
            crate::node::lemma_extends_trans(p3, p4, s);
            assert(s[d1 as int] == sa1[d1 as int]);
            assert(s[d2 as int] == sa2[d2 as int]);
            assert(s[d3 as int] == sa3[d3 as int]);
            assert(s[d4 as int] == sa4[d4 as int]);
            lemma_double_finish(
                s0,
                p1,
                p2,
                p3,
                p4,
                s,
                gm@,
                jj as int,
                nine,
                d1 as int,
                d2 as int,
                d3 as int,
                d4 as int,
                e1 as int,
                e2 as int,
                e3 as int,
                e4 as int,
                res as int,
            );
        }
        res
    }

    /// Advance a pattern by exactly `n` generations.  The bits of `n` are
    /// processed from the most significant down; before each active bit the
    /// node is padded, and the step is asked for exactly `2^bit`
    /// generations, so the total is `n`.  A final crop undoes the padding
    /// growth.  An empty pattern stays empty.
    pub fn advance(&mut self, i: usize, n: u32) -> (r: usize)
        requires
            old(self).wf(),
            old(self).valid(i as int),
            1 <= lv(old(self).nodes@, i as int) <= 180,
        ensures
            final(self).wf(),
            extends(old(self).nodes@, final(self).nodes@),
            final(self).valid(r as int),
            n == 0 ==> r == i && final(self).nodes@ == old(self).nodes@,
            1 <= lv(final(self).nodes@, r as int),
            lv(final(self).nodes@, r as int) <= lv(old(self).nodes@, i as int) + 2 * bits_of(
                n as int,
            ) + 4,
            pp(old(self).nodes@, i as int) == 0 ==> pp(final(self).nodes@, r as int) == 0,
            n > 0 ==> exists|ch: Seq<(int, int)>|
                #[trigger] advance_trace(final(self).nodes@, n as int, ch, i as int, r as int),
    {
        let ghost s0 = old(self).nodes@;
        let ghost l0 = lv(s0, i as int);
        if n == 0 {
            return i;
        }
        let ghost bn = bits_of(n as int);
        proof {
            lemma_window_refl(self.nodes@, i as int);
        }
        let mut node: usize = i;
        let mut bits: Vec<u32> = Vec::new();
        let mut nn: u32 = n;
        proof {
            vstd::arithmetic::power2::lemma2_to64();
        }
        while nn > 0
            invariant
                self.wf(),
                extends(s0, self.nodes@),
                self.valid(node as int),
                s0 == old(self).nodes@,
                l0 == lv(s0, i as int),
                1 <= l0 <= 180,
                (i as int) < s0.len(),
                lv(self.nodes@, node as int) == l0 + bits@.len(),
                bits@.len() <= 32,
                (nn as int) * pow2(bits@.len() as nat) < pow2(32),
                bn == bits_of(n as int),
                bits@.len() + bits_of(nn as int) == bn,
                nn as int == (n as int) / (pow2(bits@.len() as nat) as int),
                forall|j: int|
                    0 <= j < bits@.len() ==> #[trigger] bits@[j] as int == ((n as int) / (pow2(
                        j as nat,
                    ) as int)) % 2,
                pp(self.nodes@, node as int) == pp(s0, i as int),
                shifted_window(
                    self.nodes@,
                    node as int,
                    i as int,
                    half(lv(self.nodes@, node as int)) - half(l0),
                ),
            decreases nn,
        {
            proof {
                let olen = bits@.len() as nat;
                vstd::arithmetic::power2::lemma2_to64();
                lemma_pow2_adds(olen, 1);
                vstd::arithmetic::power2::lemma_pow2_pos(olen);
                assert(pow2(olen) <= (nn as int) * pow2(olen)) by (nonlinear_arith)
                    requires
                        nn >= 1,
                        pow2(olen) >= 1,
                ;
                assert(olen < 32) by {
                    if olen > 32 {
                        lemma_pow2_strictly_increases(32, olen);
                    }
                    if olen >= 32 {
                        assert(pow2(olen) >= pow2(32));
                        assert(false);
                    }
                }
                assert(((nn as int) / 2) * pow2(olen + 1) <= (nn as int) * pow2(olen))
                    by (nonlinear_arith)
                    requires
                        pow2(olen + 1) == 2 * pow2(olen),
                        pow2(olen) >= 0,
                        nn >= 0,
                ;
                vstd::arithmetic::div_mod::lemma_div_denominator(
                    n as int,
                    pow2(olen) as int,
                    2,
                );
            }
            bits.push(nn % 2);
            nn = nn / 2;
            let ghost sa = self.nodes@;
            let ghost prev = node as int;
            let ghost da = half(lv(sa, prev)) - half(l0);
            node = self.center(node);
            proof {
                lemma_window_extends(sa, self.nodes@, prev, i as int, da);
                lemma_window_trans(
                    self.nodes@,
                    node as int,
                    prev,
                    i as int,
                    half(lv(sa, prev)),
                    da,
                );
                lemma_side_half(lv(sa, prev));
                lemma_side_half(lv(sa, prev) + 1);
            }
        }
        let blen: usize = bits.len();
        proof {
            lemma_bits_of_range(n as int);
            lemma_pow2_adds((bn - 1) as nat, 1);
            vstd::arithmetic::power2::lemma2_to64();
            vstd::arithmetic::power2::lemma_pow2_pos((bn - 1) as nat);
            assert((n as int) / (pow2((bn - 1) as nat) as int) == 1) by (nonlinear_arith)
                requires
                    pow2((bn - 1) as nat) <= n as int,
                    (n as int) < pow2(bn as nat),
                    pow2(bn as nat) == 2 * pow2((bn - 1) as nat),
                    pow2((bn - 1) as nat) > 0,
            ;
        }
        let ghost mut ch = Seq::<(int, int)>::empty();
        let mut k: usize = 0;
        while k < blen
            invariant
                self.wf(),
                extends(s0, self.nodes@),
                self.valid(node as int),
                s0 == old(self).nodes@,
                l0 == lv(s0, i as int),
                1 <= l0 <= 180,
                (i as int) < s0.len(),
                k <= blen,
                blen == bits@.len(),
                1 <= blen <= 32,
                bn == bits_of(n as int),
                blen == bn,
                bits@[blen - 1] as int == 1,
                forall|j: int|
                    0 <= j < bits@.len() ==> #[trigger] bits@[j] as int == ((n as int) / (pow2(
                        j as nat,
                    ) as int)) % 2,
                1 <= lv(self.nodes@, node as int),
                l0 + bn - k <= lv(self.nodes@, node as int),
                lv(self.nodes@, node as int) <= (if l0 + bn >= 3 {
                    l0 + bn
                } else {
                    3
                }) + k + 1,
                pp(s0, i as int) == 0 ==> pp(self.nodes@, node as int) == 0,
                ch.len() == k as int,
                forall|kk: int|
                    0 <= kk < k ==> #[trigger] chain_entry(self.nodes@, n as int, ch, i as int, kk),
                k >= 1 ==> chain_at(ch, i as int, k as int) == node as int,
                k == 0 ==> shifted_window(
                    self.nodes@,
                    node as int,
                    i as int,
                    half(lv(self.nodes@, node as int)) - half(l0),
                ) && lv(self.nodes@, node as int) >= l0,
            decreases blen - k,
        {
            let jpos: usize = blen - 1 - k;
            if bits[jpos] != 0 {
                let ghost sb = self.nodes@;
                let ghost prev = node as int;
                let ghost db = half(lv(sb, prev)) - half(l0);
                let p = self.pad(node);
                let ghost sp = self.nodes@;
                node = self.successor(p, Some(jpos as u8));
                proof {
                    let s = self.nodes@;
                    assert(bit_set(n as int, jpos as int));
                    assert(jpos as int <= lv(sp, p as int) - 2);
                    assert(eff_exp(Some(jpos as u8), lv(sp, p as int)) == jpos as int);
                    lemma_chain_extends(sb, s, n as int, ch, i as int);
                    lemma_padded_extends(sp, s, p as int);
                    if k == 0 {
                        lemma_window_extends(sb, sp, prev, i as int, db);
                        lemma_window_trans(
                            sp,
                            p as int,
                            prev,
                            i as int,
                            half(lv(sp, p as int)) - half(lv(sb, prev)),
                            db,
                        );
                        lemma_window_extends(
                            sp,
                            s,
                            p as int,
                            i as int,
                            half(lv(sp, p as int)) - half(l0),
                        );
                        assert(bit_step(s, i as int, jpos as int, p as int, node as int));
                    } else {
                        lemma_window_extends(
                            sp,
                            s,
                            p as int,
                            prev,
                            half(lv(sp, p as int)) - half(lv(sb, prev)),
                        );
                        assert(s[prev] == sb[prev]);
                        assert(bit_step(s, prev, jpos as int, p as int, node as int));
                    }
                    let ch0 = ch;
                    ch = ch0.push((p as int, node as int));
                    assert forall|kk: int| 0 <= kk < k + 1 implies #[trigger] chain_entry(
                        s,
                        n as int,
                        ch,
                        i as int,
                        kk,
                    ) by {
                        if kk < k {
                            assert(chain_entry(s, n as int, ch0, i as int, kk));
                            assert(ch[kk] == ch0[kk]);
                            assert(chain_at(ch, i as int, kk) == chain_at(ch0, i as int, kk));
                        }
                    }
                }
            } else {
                proof {
                    assert(!bit_set(n as int, jpos as int));
                    let prev = node as int;
                    let ch0 = ch;
                    ch = ch0.push((prev, prev));
                    assert forall|kk: int| 0 <= kk < k + 1 implies #[trigger] chain_entry(
                        self.nodes@,
                        n as int,
                        ch,
                        i as int,
                        kk,
                    ) by {
                        if kk < k {
                            assert(chain_entry(self.nodes@, n as int, ch0, i as int, kk));
                            assert(ch[kk] == ch0[kk]);
                            assert(chain_at(ch, i as int, kk) == chain_at(ch0, i as int, kk));
                        }
                    }
                }
            }
            k += 1;
        }
        let ghost sc = self.nodes@;
        let rr = self.crop(node);
        proof {
            let s = self.nodes@;
            lemma_chain_extends(sc, s, n as int, ch, i as int);
            assert(s[node as int] == sc[node as int]);
            assert(chain_at(ch, i as int, ch.len() as int) == node as int);
            assert(advance_trace(s, n as int, ch, i as int, rr as int));
        }
        rr
    }

    /// Advance `n` times by each level's maximum stride: every round pads
    /// and then takes one full generation-doubling step.  The number of
    /// generations covered therefore depends on the levels reached.
    pub fn ffwd(&mut self, i: usize, n: u32) -> (r: usize)
        requires
            old(self).wf(),
            old(self).valid(i as int),
            1 <= lv(old(self).nodes@, i as int),
            lv(old(self).nodes@, i as int) + 3 * (n as int) <= 244,
        ensures
            final(self).wf(),
            extends(old(self).nodes@, final(self).nodes@),
            final(self).valid(r as int),
            n == 0 ==> r == i && final(self).nodes@ == old(self).nodes@,
            1 <= lv(final(self).nodes@, r as int),
            lv(final(self).nodes@, r as int) <= lv(old(self).nodes@, i as int) + 3 * (n as int),
            pp(old(self).nodes@, i as int) == 0 ==> pp(final(self).nodes@, r as int) == 0,
            exists|ch: Seq<(int, int)>|
                #[trigger] ffwd_trace(final(self).nodes@, n as int, ch, i as int, r as int),
    {
        let ghost s0 = old(self).nodes@;
        let ghost l0 = lv(s0, i as int);
        let ghost mut ch = Seq::<(int, int)>::empty();
        let mut node: usize = i;
        let mut t: u32 = 0;
        while t < n
            invariant
                self.wf(),
                extends(s0, self.nodes@),
                self.valid(node as int),
                s0 == old(self).nodes@,
                l0 == lv(s0, i as int),
                l0 + 3 * (n as int) <= 244,
                t <= n,
                1 <= lv(self.nodes@, node as int) <= l0 + 3 * (t as int),
                t == 0 ==> node == i && self.nodes@ == s0,
                pp(s0, i as int) == 0 ==> pp(self.nodes@, node as int) == 0,
                ch.len() == t as int,
                forall|k: int|
                    0 <= k < ch.len() ==> #[trigger] full_step(
                        self.nodes@,
                        chain_at(ch, i as int, k),
                        ch[k].0,
                        ch[k].1,
                    ),
                chain_at(ch, i as int, t as int) == node as int,
            decreases n - t,
        {
            let ghost sb = self.nodes@;
            let ghost prev = node as int;
            let p = self.pad(node);
            let ghost sp = self.nodes@;
            node = self.successor(p, None);
            proof {
                let s = self.nodes@;
                lemma_full_chain_extends(sb, s, ch, i as int);
                lemma_padded_extends(sp, s, p as int);
                lemma_window_extends(
                    sp,
                    s,
                    p as int,
                    prev,
                    half(lv(sp, p as int)) - half(lv(sb, prev)),
                );
                assert(s[prev] == sb[prev]);
                assert(full_step(s, prev, p as int, node as int));
                let ch0 = ch;
                ch = ch0.push((p as int, node as int));
                assert forall|k: int| 0 <= k < ch.len() implies #[trigger] full_step(
                    s,
                    chain_at(ch, i as int, k),
                    ch[k].0,
                    ch[k].1,
                ) by {
                    if k < ch0.len() {
                        assert(full_step(s, chain_at(ch0, i as int, k), ch0[k].0, ch0[k].1));
                        assert(ch[k] == ch0[k]);
                        assert(chain_at(ch, i as int, k) == chain_at(ch0, i as int, k));
                    }
                }
            }
            t += 1;
        }
        proof {
            assert(ffwd_trace(self.nodes@, n as int, ch, i as int, node as int));
        }
        node
    }
}

} // verus!