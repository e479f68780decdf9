//! Boundary management: centering, padding and cropping.
//!
//! The step algorithm only reports the centre of a node, so before stepping,
//! a pattern is wrapped in enough dead border that nothing live can reach
//! the edge (`pad`), and afterwards the border is taken off again (`crop`).
//! Every operation here relates the result's cells to the input's cells
//! through an exact diagonal shift, stated with [`shifted_window`].

use vstd::prelude::*;

verus! {

use crate::node::Node;
use crate::node::lv;
use crate::node::pp;
use crate::node::ka;
use crate::node::kb;
use crate::node::kc;
use crate::node::kd;
use crate::node::sat4;
use crate::node::leaves_ok;
use crate::node::node_ok;
use crate::node::store_ok;
use crate::node::extends;
use crate::cells::side;
use crate::cells::half;
use crate::cells::in_sq;
use crate::cells::cell;
use crate::cells::lemma_side_half;
use crate::cells::lemma_pop_zero;
use crate::cells::lemma_cell_extends;
use crate::cells::lemma_pop_exact;
use crate::engine::Life;

/// The whole content of `small` sits inside `big`, shifted by `(d, d)`:
/// a cell of `big` is live exactly when it lies in the shifted window and
/// the corresponding cell of `small` is live.  In particular every live
/// cell of `big` lies inside the window.
pub open spec fn shifted_window(s: Seq<Node>, big: int, small: int, d: int) -> bool {
    &&& 0 <= d
    &&& d + side(lv(s, small)) <= side(lv(s, big))
    &&& forall|u: int, v: int|
        in_sq(lv(s, big), u, v) ==> #[trigger] cell(s, big, u, v) == (d <= u < d + side(
            lv(s, small),
        ) && d <= v < d + side(lv(s, small)) && cell(s, small, u - d, v - d))
}

/// A node is its own window, unshifted.
pub proof fn lemma_window_refl(s: Seq<Node>, i: int)
    ensures
        shifted_window(s, i, i, 0),
{
}

/// Windows compose: shifts add up.
pub proof fn lemma_window_trans(s: Seq<Node>, big: int, mid: int, small: int, d1: int, d2: int)
    requires
        shifted_window(s, big, mid, d1),
        shifted_window(s, mid, small, d2),
    ensures
        shifted_window(s, big, small, d1 + d2),
{
    assert forall|u: int, v: int| in_sq(lv(s, big), u, v) implies #[trigger] cell(s, big, u, v) == (
    d1 + d2 <= u < d1 + d2 + side(lv(s, small)) && d1 + d2 <= v < d1 + d2 + side(lv(s, small))
        && cell(s, small, u - d1 - d2, v - d1 - d2)) by {
        assert(cell(s, big, u, v) == (d1 <= u < d1 + side(lv(s, mid)) && d1 <= v < d1 + side(
            lv(s, mid),
        ) && cell(s, mid, u - d1, v - d1)));
        if d1 <= u < d1 + side(lv(s, mid)) && d1 <= v < d1 + side(lv(s, mid)) {
            assert(in_sq(lv(s, mid), u - d1, v - d1));
            assert(cell(s, mid, u - d1, v - d1) == (d2 <= u - d1 < d2 + side(lv(s, small)) && d2 <= v
                - d1 < d2 + side(lv(s, small)) && cell(s, small, u - d1 - d2, v - d1 - d2)));
        }
    }
}

/// A window relation survives growing the store.
pub proof fn lemma_window_extends(s1: Seq<Node>, s2: Seq<Node>, big: int, small: int, d: int)
    requires
        extends(s1, s2),
        0 <= big < s1.len(),
        0 <= small < s1.len(),
        shifted_window(s1, big, small, d),
    ensures
        shifted_window(s2, big, small, d),
{
    assert forall|u: int, v: int| in_sq(lv(s2, big), u, v) implies #[trigger] cell(s2, big, u, v)
        == (d <= u < d + side(lv(s2, small)) && d <= v < d + side(lv(s2, small)) && cell(
        s2,
        small,
        u - d,
        v - d,
    )) by {
        lemma_cell_extends(s1, s2, big, u, v);
        lemma_cell_extends(s1, s2, small, u - d, v - d);
    }
}

/// The shape `center` builds: each child of `r` carries one original child
/// in its inner corner and dead nodes in its other three quadrants.
pub open spec fn center_shape(s: Seq<Node>, r: int, na: int, nb: int, nc: int, nd: int) -> bool {
    &&& kd(s, ka(s, r)) == na && pp(s, ka(s, ka(s, r))) == 0 && pp(s, kb(s, ka(s, r))) == 0 && pp(
        s,
        kc(s, ka(s, r)),
    ) == 0
    &&& kc(s, kb(s, r)) == nb && pp(s, ka(s, kb(s, r))) == 0 && pp(s, kb(s, kb(s, r))) == 0 && pp(
        s,
        kd(s, kb(s, r)),
    ) == 0
    &&& kb(s, kc(s, r)) == nc && pp(s, ka(s, kc(s, r))) == 0 && pp(s, kc(s, kc(s, r))) == 0 && pp(
        s,
        kd(s, kc(s, r)),
    ) == 0
    &&& ka(s, kd(s, r)) == nd && pp(s, kb(s, kd(s, r))) == 0 && pp(s, kc(s, kd(s, r))) == 0 && pp(
        s,
        kd(s, kd(s, r)),
    ) == 0
}

/// The population equalities behind `isPadded`: each child's live cells all
/// sit in the grandchild at the child's inner corner, measured by counts.
pub open spec fn is_padded_spec(s: Seq<Node>, i: int) -> bool {
    &&& pp(s, ka(s, i)) == pp(s, kd(s, kd(s, ka(s, i))))
    &&& pp(s, kb(s, i)) == pp(s, kc(s, kc(s, kb(s, i))))
    &&& pp(s, kc(s, i)) == pp(s, kb(s, kb(s, kc(s, i))))
    &&& pp(s, kd(s, i)) == pp(s, ka(s, ka(s, kd(s, i))))
}

/// An interior node of positive level is not a leaf index.
proof fn lemma_interior_id(s: Seq<Node>, i: int)
    requires
        store_ok(s),
        0 <= i < s.len(),
        lv(s, i) >= 1,
    ensures
        2 <= i,
        node_ok(s, i),
{
    assert(leaves_ok(s));
    assert(i >= 2);
    assert(node_ok(s, i));
}

/// `center_shape` only reads immutable fields, so it survives growth.
proof fn lemma_center_shape_extends(
    s1: Seq<Node>,
    s2: Seq<Node>,
    r: int,
    na: int,
    nb: int,
    nc: int,
    nd: int,
)
    requires
        extends(s1, s2),
        store_ok(s1),
        0 <= r < s1.len(),
        2 <= lv(s1, r),
        center_shape(s1, r, na, nb, nc, nd),
    ensures
        center_shape(s2, r, na, nb, nc, nd),
{
    lemma_interior_id(s1, r);
    lemma_interior_id(s1, ka(s1, r));
    lemma_interior_id(s1, kb(s1, r));
    lemma_interior_id(s1, kc(s1, r));
    lemma_interior_id(s1, kd(s1, r));
    assert(s2[r] == s1[r]);
    assert(s2[ka(s1, r)] == s1[ka(s1, r)]);
    assert(s2[kb(s1, r)] == s1[kb(s1, r)]);
    assert(s2[kc(s1, r)] == s1[kc(s1, r)]);
    assert(s2[kd(s1, r)] == s1[kd(s1, r)]);
    assert(s2[ka(s1, ka(s1, r))] == s1[ka(s1, ka(s1, r))]);
    assert(s2[kb(s1, ka(s1, r))] == s1[kb(s1, ka(s1, r))]);
    assert(s2[kc(s1, ka(s1, r))] == s1[kc(s1, ka(s1, r))]);
    assert(s2[kd(s1, ka(s1, r))] == s1[kd(s1, ka(s1, r))]);
    assert(s2[ka(s1, kb(s1, r))] == s1[ka(s1, kb(s1, r))]);
    assert(s2[kb(s1, kb(s1, r))] == s1[kb(s1, kb(s1, r))]);
    assert(s2[kc(s1, kb(s1, r))] == s1[kc(s1, kb(s1, r))]);
    assert(s2[kd(s1, kb(s1, r))] == s1[kd(s1, kb(s1, r))]);
    assert(s2[ka(s1, kc(s1, r))] == s1[ka(s1, kc(s1, r))]);
    assert(s2[kb(s1, kc(s1, r))] == s1[kb(s1, kc(s1, r))]);
    assert(s2[kc(s1, kc(s1, r))] == s1[kc(s1, kc(s1, r))]);
    assert(s2[kd(s1, kc(s1, r))] == s1[kd(s1, kc(s1, r))]);
    assert(s2[ka(s1, kd(s1, r))] == s1[ka(s1, kd(s1, r))]);
    assert(s2[kb(s1, kd(s1, r))] == s1[kb(s1, kd(s1, r))]);
    assert(s2[kc(s1, kd(s1, r))] == s1[kc(s1, kd(s1, r))]);
    assert(s2[kd(s1, kd(s1, r))] == s1[kd(s1, kd(s1, r))]);
}

/// Cells of a freshly centered node: the original content, shifted by half
/// the original side, surrounded by dead cells.
proof fn lemma_center_cells(s: Seq<Node>, r: int, m: int)
    requires
        store_ok(s),
        0 <= m < s.len(),
        0 <= r < s.len(),
        1 <= lv(s, m),
        lv(s, r) == lv(s, m) + 1,
        center_shape(s, r, ka(s, m), kb(s, m), kc(s, m), kd(s, m)),
    ensures
        shifted_window(s, r, m, half(lv(s, m))),
{
    let l = lv(s, m);
    let hh = half(l);
    let ss = side(l);
    lemma_side_half(l);
    lemma_side_half(l + 1);
    lemma_interior_id(s, m);
    lemma_interior_id(s, r);
    let aq = ka(s, r);
    let bq = kb(s, r);
    let cq = kc(s, r);
    let dq = kd(s, r);
    lemma_interior_id(s, aq);
    lemma_interior_id(s, bq);
    lemma_interior_id(s, cq);
    lemma_interior_id(s, dq);
    assert(half(l + 1) == ss);
    assert(side(l + 1) == 2 * ss);
    assert(ss == 2 * hh);
    assert forall|u: int, v: int| in_sq(l + 1, u, v) implies #[trigger] cell(s, r, u, v) == (hh <= u
        < hh + ss && hh <= v < hh + ss && cell(s, m, u - hh, v - hh)) by {
        if u < ss && v < ss {
            assert(cell(s, r, u, v) == cell(s, aq, u, v));
            if u >= hh && v >= hh {
                assert(cell(s, aq, u, v) == cell(s, kd(s, aq), u - hh, v - hh));
                assert(cell(s, m, u - hh, v - hh) == cell(s, ka(s, m), u - hh, v - hh));
            } else if u < hh && v < hh {
                lemma_pop_zero(s, ka(s, aq), u, v);
            } else if u >= hh {
                lemma_pop_zero(s, kb(s, aq), u - hh, v);
            } else {
                lemma_pop_zero(s, kc(s, aq), u, v - hh);
            }
        } else if u >= ss && v < ss {
            assert(cell(s, r, u, v) == cell(s, bq, u - ss, v));
            if u - ss < hh && v >= hh {
                assert(cell(s, bq, u - ss, v) == cell(s, kc(s, bq), u - ss, v - hh));
                assert(kc(s, bq) == kb(s, m));
                assert(cell(s, m, u - hh, v - hh) == cell(s, kb(s, m), u - hh - hh, v - hh));
            } else if u - ss < hh && v < hh {
                lemma_pop_zero(s, ka(s, bq), u - ss, v);
            } else if v < hh {
                lemma_pop_zero(s, kb(s, bq), u - ss - hh, v);
            } else {
                lemma_pop_zero(s, kd(s, bq), u - ss - hh, v - hh);
            }
        } else if u < ss && v >= ss {
            assert(cell(s, r, u, v) == cell(s, cq, u, v - ss));
            if u >= hh && v - ss < hh {
                assert(cell(s, cq, u, v - ss) == cell(s, kb(s, cq), u - hh, v - ss));
                assert(kb(s, cq) == kc(s, m));
                assert(cell(s, m, u - hh, v - hh) == cell(s, kc(s, m), u - hh, v - hh - hh));
            } else if u < hh && v - ss < hh {
                lemma_pop_zero(s, ka(s, cq), u, v - ss);
            } else if u < hh {
                lemma_pop_zero(s, kc(s, cq), u, v - ss - hh);
            } else {
                lemma_pop_zero(s, kd(s, cq), u - hh, v - ss - hh);
            }
        } else {
            assert(cell(s, r, u, v) == cell(s, dq, u - ss, v - ss));
            if u - ss < hh && v - ss < hh {
                assert(cell(s, dq, u - ss, v - ss) == cell(s, ka(s, dq), u - ss, v - ss));
                assert(ka(s, dq) == kd(s, m));
                assert(cell(s, m, u - hh, v - hh) == cell(s, kd(s, m), u - hh - hh, v - hh - hh));
            } else if u - ss >= hh && v - ss < hh {
                lemma_pop_zero(s, kb(s, dq), u - ss - hh, v - ss);
            } else if u - ss < hh {
                lemma_pop_zero(s, kc(s, dq), u - ss, v - ss - hh);
            } else {
                lemma_pop_zero(s, kd(s, dq), u - ss - hh, v - ss - hh);
            }
        }
    }
}

/// Cells of the centre node extracted by `inner`: the original cells,
/// shifted back by a quarter of the original side.
proof fn lemma_inner_cells(s: Seq<Node>, r: int, m: int)
    requires
        store_ok(s),
        0 <= m < s.len(),
        0 <= r < s.len(),
        2 <= lv(s, m),
        lv(s, r) + 1 == lv(s, m),
        ka(s, r) == kd(s, ka(s, m)),
        kb(s, r) == kc(s, kb(s, m)),
        kc(s, r) == kb(s, kc(s, m)),
        kd(s, r) == ka(s, kd(s, m)),
    ensures
        forall|u: int, v: int|
            in_sq(lv(s, r), u, v) ==> #[trigger] cell(s, r, u, v) == cell(
                s,
                m,
                u + half(lv(s, r)),
                v + half(lv(s, r)),
            ),
{
    let l = lv(s, m);
    let q = half(l - 1);
    let hh = half(l);
    lemma_side_half(l);
    lemma_side_half(l - 1);
    lemma_interior_id(s, m);
    lemma_interior_id(s, r);
    lemma_interior_id(s, ka(s, m));
    lemma_interior_id(s, kb(s, m));
    lemma_interior_id(s, kc(s, m));
    lemma_interior_id(s, kd(s, m));
    assert(hh == 2 * q);
    assert forall|u: int, v: int| in_sq(l - 1, u, v) implies #[trigger] cell(s, r, u, v) == cell(
        s,
        m,
        u + q,
        v + q,
    ) by {
        assert(cell(s, m, u + q, v + q) == if u + q < hh {
            if v + q < hh {
                cell(s, ka(s, m), u + q, v + q)
            } else {
                cell(s, kc(s, m), u + q, v + q - hh)
            }
        } else {
            if v + q < hh {
                cell(s, kb(s, m), u + q - hh, v + q)
            } else {
                cell(s, kd(s, m), u + q - hh, v + q - hh)
            }
        });
        if u < q && v < q {
            assert(cell(s, r, u, v) == cell(s, ka(s, r), u, v));
            assert(cell(s, ka(s, m), u + q, v + q) == cell(s, kd(s, ka(s, m)), u, v));
        } else if u >= q && v < q {
            assert(cell(s, r, u, v) == cell(s, kb(s, r), u - q, v));
            assert(cell(s, kb(s, m), u + q - hh, v + q) == cell(s, kc(s, kb(s, m)), u - q, v));
        } else if u < q && v >= q {
            assert(cell(s, r, u, v) == cell(s, kc(s, r), u, v - q));
            assert(cell(s, kc(s, m), u + q, v + q - hh) == cell(s, kb(s, kc(s, m)), u, v - q));
        } else {
            assert(cell(s, r, u, v) == cell(s, kd(s, r), u - q, v - q));
            assert(cell(s, kd(s, m), u + q - hh, v + q - hh) == cell(
                s,
                ka(s, kd(s, m)),
                u - q,
                v - q,
            ));
        }
    }
}

/// In a padded node every live cell lies in the central half-size square,
/// and each child's population sits entirely in its inner-corner child.
proof fn lemma_padded_interior(s: Seq<Node>, i: int)
    requires
        store_ok(s),
        0 <= i < s.len(),
        3 <= lv(s, i) <= 63,
        is_padded_spec(s, i),
    ensures
        pp(s, kd(s, ka(s, i))) == pp(s, ka(s, i)),
        pp(s, kc(s, kb(s, i))) == pp(s, kb(s, i)),
        pp(s, kb(s, kc(s, i))) == pp(s, kc(s, i)),
        pp(s, ka(s, kd(s, i))) == pp(s, kd(s, i)),
        forall|u: int, v: int|
            in_sq(lv(s, i), u, v) && #[trigger] cell(s, i, u, v) ==> half(lv(s, i) - 1) <= u < 3
                * half(lv(s, i) - 1) && half(lv(s, i) - 1) <= v < 3 * half(lv(s, i) - 1),
{
    let l = lv(s, i);
    let q = half(l - 1);
    let hh = half(l);
    lemma_side_half(l);
    lemma_side_half(l - 1);
    lemma_interior_id(s, i);
    let aq = ka(s, i);
    let bq = kb(s, i);
    let cq = kc(s, i);
    let dq = kd(s, i);
    lemma_interior_id(s, aq);
    lemma_interior_id(s, bq);
    lemma_interior_id(s, cq);
    lemma_interior_id(s, dq);
    lemma_interior_id(s, kd(s, aq));
    lemma_interior_id(s, kc(s, bq));
    lemma_interior_id(s, kb(s, cq));
    lemma_interior_id(s, ka(s, dq));
    lemma_pop_exact(s, aq);
    lemma_pop_exact(s, bq);
    lemma_pop_exact(s, cq);
    lemma_pop_exact(s, dq);
    lemma_pop_exact(s, kd(s, aq));
    lemma_pop_exact(s, kc(s, bq));
    lemma_pop_exact(s, kb(s, cq));
    lemma_pop_exact(s, ka(s, dq));
    assert(pp(s, ka(s, aq)) == 0 && pp(s, kb(s, aq)) == 0 && pp(s, kc(s, aq)) == 0);
    assert(pp(s, ka(s, bq)) == 0 && pp(s, kb(s, bq)) == 0 && pp(s, kd(s, bq)) == 0);
    assert(pp(s, ka(s, cq)) == 0 && pp(s, kc(s, cq)) == 0 && pp(s, kd(s, cq)) == 0);
    assert(pp(s, kb(s, dq)) == 0 && pp(s, kc(s, dq)) == 0 && pp(s, kd(s, dq)) == 0);
    assert(hh == 2 * q);
    assert forall|u: int, v: int| in_sq(l, u, v) && #[trigger] cell(s, i, u, v) implies q <= u < 3
        * q && q <= v < 3 * q by {
        if u < hh && v < hh {
            assert(cell(s, i, u, v) == cell(s, aq, u, v));
            if u < q && v < q {
                lemma_pop_zero(s, ka(s, aq), u, v);
            } else if u >= q && v < q {
                lemma_pop_zero(s, kb(s, aq), u - q, v);
            } else if u < q {
                lemma_pop_zero(s, kc(s, aq), u, v - q);
            }
        } else if u >= hh && v < hh {
            assert(cell(s, i, u, v) == cell(s, bq, u - hh, v));
            if u - hh < q && v < q {
                lemma_pop_zero(s, ka(s, bq), u - hh, v);
            } else if u - hh >= q && v < q {
                lemma_pop_zero(s, kb(s, bq), u - hh - q, v);
            } else if u - hh >= q {
                lemma_pop_zero(s, kd(s, bq), u - hh - q, v - q);
            }
        } else if u < hh {
            assert(cell(s, i, u, v) == cell(s, cq, u, v - hh));
            if u < q && v - hh < q {
                lemma_pop_zero(s, ka(s, cq), u, v - hh);
            } else if u < q {
                lemma_pop_zero(s, kc(s, cq), u, v - hh - q);
            } else if v - hh >= q {
                lemma_pop_zero(s, kd(s, cq), u - q, v - hh - q);
            }
        } else {
            assert(cell(s, i, u, v) == cell(s, dq, u - hh, v - hh));
            if u - hh >= q && v - hh < q {
                lemma_pop_zero(s, kb(s, dq), u - hh - q, v - hh);
            } else if u - hh < q && v - hh >= q {
                lemma_pop_zero(s, kc(s, dq), u - hh, v - hh - q);
            } else if u - hh >= q {
                lemma_pop_zero(s, kd(s, dq), u - hh - q, v - hh - q);
            }
        }
    }
}

/// Centering twice in a row always yields a padded node.
proof fn lemma_double_center_padded(s: Seq<Node>, n2: int, n1: int, n0: int)
    requires
        store_ok(s),
        0 <= n0 < s.len(),
        0 <= n1 < s.len(),
        0 <= n2 < s.len(),
        1 <= lv(s, n0),
        lv(s, n1) == lv(s, n0) + 1,
        lv(s, n2) == lv(s, n1) + 1,
        center_shape(s, n1, ka(s, n0), kb(s, n0), kc(s, n0), kd(s, n0)),
        center_shape(s, n2, ka(s, n1), kb(s, n1), kc(s, n1), kd(s, n1)),
    ensures
        is_padded_spec(s, n2),
{
    lemma_interior_id(s, n0);
    lemma_interior_id(s, n1);
    lemma_interior_id(s, n2);
    lemma_interior_id(s, ka(s, n2));
    lemma_interior_id(s, kb(s, n2));
    lemma_interior_id(s, kc(s, n2));
    lemma_interior_id(s, kd(s, n2));
    lemma_interior_id(s, ka(s, n1));
    lemma_interior_id(s, kb(s, n1));
    lemma_interior_id(s, kc(s, n1));
    lemma_interior_id(s, kd(s, n1));
    assert(pp(s, ka(s, n2)) == pp(s, kd(s, ka(s, n2)))) by {
        assert(node_ok(s, ka(s, n2)));
    }
    assert(pp(s, kd(s, ka(s, n2))) == pp(s, kd(s, kd(s, ka(s, n2))))) by {
        assert(kd(s, ka(s, n2)) == ka(s, n1));
        assert(node_ok(s, ka(s, n1)));
        assert(kd(s, ka(s, n1)) == ka(s, n0));
    }
    assert(pp(s, kb(s, n2)) == pp(s, kc(s, kb(s, n2)))) by {
        assert(node_ok(s, kb(s, n2)));
    }
    assert(pp(s, kc(s, kb(s, n2))) == pp(s, kc(s, kc(s, kb(s, n2))))) by {
        assert(kc(s, kb(s, n2)) == kb(s, n1));
        assert(node_ok(s, kb(s, n1)));
        assert(kc(s, kb(s, n1)) == kb(s, n0));
    }
    assert(pp(s, kc(s, n2)) == pp(s, kb(s, kc(s, n2)))) by {
        assert(node_ok(s, kc(s, n2)));
    }
    assert(pp(s, kb(s, kc(s, n2))) == pp(s, kb(s, kb(s, kc(s, n2))))) by {
        assert(kb(s, kc(s, n2)) == kc(s, n1));
        assert(node_ok(s, kc(s, n1)));
        assert(kb(s, kc(s, n1)) == kc(s, n0));
    }
    assert(pp(s, kd(s, n2)) == pp(s, ka(s, kd(s, n2)))) by {
        assert(node_ok(s, kd(s, n2)));
    }
    assert(pp(s, ka(s, kd(s, n2))) == pp(s, ka(s, ka(s, kd(s, n2))))) by {
        assert(ka(s, kd(s, n2)) == kd(s, n1));
        assert(node_ok(s, kd(s, n1)));
        assert(ka(s, kd(s, n1)) == kd(s, n0));
    }
}

impl Life {
    /// Does padding hold: has each child the same population as the
    /// grandchild at the child's inner corner?  When true, all live cells
    /// sit well inside the interior, away from the node's edge.
    pub fn is_padded(&self, i: usize) -> (r: bool)
        requires
            self.wf(),
            self.valid(i as int),
            lv(self.nodes@, i as int) >= 3,
        ensures
            r == is_padded_spec(self.nodes@, i as int),
    {
        proof {
            let s = self.nodes@;
            lemma_interior_id(s, i as int);
            lemma_interior_id(s, ka(s, i as int));
            lemma_interior_id(s, kb(s, i as int));
            lemma_interior_id(s, kc(s, i as int));
            lemma_interior_id(s, kd(s, i as int));
            lemma_interior_id(s, kd(s, ka(s, i as int)));
            lemma_interior_id(s, kc(s, kb(s, i as int)));
            lemma_interior_id(s, kb(s, kc(s, i as int)));
            lemma_interior_id(s, ka(s, kd(s, i as int)));
        }
        let n = self.nodes[i];
        let an = self.nodes[n.a];
        let bn = self.nodes[n.b];
        let cn = self.nodes[n.c];
        let dn = self.nodes[n.d];
        let add = self.nodes[an.d].d;
        let bcc = self.nodes[bn.c].c;
        let cbb = self.nodes[cn.b].b;
        let daa = self.nodes[dn.a].a;
        an.population == self.nodes[add].population && bn.population
            == self.nodes[bcc].population && cn.population == self.nodes[cbb].population
            && dn.population == self.nodes[daa].population
    }

    /// Wrap a node in one ring of dead quadrants, one level up, with the
    /// original content sitting exactly in the middle.
    pub fn center(&mut self, m: usize) -> (r: usize)
        requires
            old(self).wf(),
            old(self).valid(m as int),
            1 <= lv(old(self).nodes@, m as int) <= 253,
        ensures
            final(self).wf(),
            extends(old(self).nodes@, final(self).nodes@),
            final(self).valid(r as int),
            lv(final(self).nodes@, r as int) == lv(old(self).nodes@, m as int) + 1,
            pp(final(self).nodes@, r as int) == pp(old(self).nodes@, m as int),
            center_shape(
                final(self).nodes@,
                r as int,
                ka(old(self).nodes@, m as int),
                kb(old(self).nodes@, m as int),
                kc(old(self).nodes@, m as int),
                kd(old(self).nodes@, m as int),
            ),
            shifted_window(
                final(self).nodes@,
                r as int,
                m as int,
                half(lv(old(self).nodes@, m as int)),
            ),
            final(self).memo@ == old(self).memo@,
    {
        proof {
            lemma_interior_id(old(self).nodes@, m as int);
        }
        let l: u8 = self.nodes[m].level;
        let z: usize = self.get_zero(l - 1);
        let mn = self.nodes[m];
        let ra = self.join(z, z, z, mn.a);
        let rb = self.join(z, z, mn.b, z);
        let rc = self.join(z, mn.c, z, z);
        let rd = self.join(mn.d, z, z, z);
        let r = self.join(ra, rb, rc, rd);
        proof {
            let s = self.nodes@;
            let s0 = old(self).nodes@;
            assert(extends(s0, s));
            assert(center_shape(
                s,
                r as int,
                ka(s0, m as int),
                kb(s0, m as int),
                kc(s0, m as int),
                kd(s0, m as int),
            ));
            assert(pp(s, r as int) == pp(s0, m as int)) by {
                assert(node_ok(s0, m as int));
            }
            assert(s[m as int] == s0[m as int]);
            lemma_center_cells(s, r as int, m as int);
        }
        r
    }

    /// The inverse of `center`: the centre node one level down, built from
    /// the four inner-corner grandchildren.
    pub fn inner(&mut self, m: usize) -> (r: usize)
        requires
            old(self).wf(),
            old(self).valid(m as int),
            2 <= lv(old(self).nodes@, m as int),
        ensures
            final(self).wf(),
            extends(old(self).nodes@, final(self).nodes@),
            final(self).valid(r as int),
            lv(final(self).nodes@, r as int) + 1 == lv(old(self).nodes@, m as int),
            pp(final(self).nodes@, r as int) == sat4(
                pp(old(self).nodes@, kd(old(self).nodes@, ka(old(self).nodes@, m as int))),
                pp(old(self).nodes@, kc(old(self).nodes@, kb(old(self).nodes@, m as int))),
                pp(old(self).nodes@, kb(old(self).nodes@, kc(old(self).nodes@, m as int))),
                pp(old(self).nodes@, ka(old(self).nodes@, kd(old(self).nodes@, m as int))),
            ),
            forall|u: int, v: int|
                in_sq(lv(final(self).nodes@, r as int), u, v) ==> #[trigger] cell(
                    final(self).nodes@,
                    r as int,
                    u,
                    v,
                ) == cell(
                    final(self).nodes@,
                    m as int,
                    u + half(lv(old(self).nodes@, m as int) - 1),
                    v + half(lv(old(self).nodes@, m as int) - 1),
                ),
            final(self).zeros@ == old(self).zeros@,
            final(self).memo@ == old(self).memo@,
    {
        proof {
            let s = self.nodes@;
            lemma_interior_id(s, m as int);
            lemma_interior_id(s, ka(s, m as int));
            lemma_interior_id(s, kb(s, m as int));
            lemma_interior_id(s, kc(s, m as int));
            lemma_interior_id(s, kd(s, m as int));
        }
        let mn = self.nodes[m];
        let iad = self.nodes[mn.a].d;
        let ibc = self.nodes[mn.b].c;
        let icb = self.nodes[mn.c].b;
        let ida = self.nodes[mn.d].a;
        let r = self.join(iad, ibc, icb, ida);
        proof {
            let s = self.nodes@;
            let s0 = old(self).nodes@;
            assert(s[m as int] == s0[m as int]);
            assert(s[ka(s0, m as int)] == s0[ka(s0, m as int)]);
            assert(s[kb(s0, m as int)] == s0[kb(s0, m as int)]);
            assert(s[kc(s0, m as int)] == s0[kc(s0, m as int)]);
            assert(s[kd(s0, m as int)] == s0[kd(s0, m as int)]);
            lemma_inner_cells(s, r as int, m as int);
        }
        r
    }

    /// Centre the node until padding holds and the level is at least 3, so
    /// that a following step cannot lose cells over the edge.  Returns the
    /// input itself whenever it is already padded, which makes padding
    /// idempotent; otherwise the content is kept intact under a diagonal
    /// shift determined by the levels.
    pub fn pad(&mut self, m: usize) -> (r: usize)
        requires
            old(self).wf(),
            old(self).valid(m as int),
            1 <= lv(old(self).nodes@, m as int) <= 248,
        ensures
            final(self).wf(),
            extends(old(self).nodes@, final(self).nodes@),
            final(self).valid(r as int),
            3 <= lv(final(self).nodes@, r as int),
            lv(old(self).nodes@, m as int) <= lv(final(self).nodes@, r as int) <= lv(
                old(self).nodes@,
                m as int,
            ) + 4,
            lv(old(self).nodes@, m as int) >= 3 ==> lv(final(self).nodes@, r as int) <= lv(
                old(self).nodes@,
                m as int,
            ) + 2,
            is_padded_spec(final(self).nodes@, r as int),
            pp(final(self).nodes@, r as int) == pp(old(self).nodes@, m as int),
            shifted_window(
                final(self).nodes@,
                r as int,
                m as int,
                half(lv(final(self).nodes@, r as int)) - half(lv(old(self).nodes@, m as int)),
            ),
            lv(old(self).nodes@, m as int) >= 3 && is_padded_spec(old(self).nodes@, m as int)
                ==> r == m && final(self).nodes@ == old(self).nodes@,
            final(self).memo@ == old(self).memo@,
    {
        let ghost s0 = old(self).nodes@;
        let mut node: usize = m;
        proof {
            lemma_window_refl(self.nodes@, m as int);
            lemma_side_half(lv(s0, m as int));
        }
        if self.level(node) < 3 {
            node = self.center(node);
            proof {
                lemma_side_half(lv(self.nodes@, node as int));
                assert(half(lv(self.nodes@, node as int)) - half(lv(s0, m as int)) == half(
                    lv(s0, m as int),
                ));
            }
        }
        if self.level(node) < 3 {
            let ghost sa = self.nodes@;
            let ghost da = half(lv(sa, node as int)) - half(lv(s0, m as int));
            let prev = node;
            node = self.center(node);
            proof {
                assert((m as int) < sa.len());
                assert(shifted_window(sa, prev as int, m as int, da));
                lemma_window_extends(sa, self.nodes@, prev as int, m as int, da);
                lemma_window_trans(
                    self.nodes@,
                    node as int,
                    prev as int,
                    m as int,
                    half(lv(sa, prev as int)),
                    da,
                );
                lemma_side_half(lv(sa, prev as int));
                lemma_side_half(lv(self.nodes@, node as int));
            }
        }
        if self.is_padded(node) {
            return node;
        }
        let ghost sb = self.nodes@;
        let ghost db = half(lv(sb, node as int)) - half(lv(s0, m as int));
        let n0 = node;
        let n1 = self.center(n0);
        let ghost sc = self.nodes@;
        let n2 = self.center(n1);
        proof {
            let s = self.nodes@;
            lemma_window_extends(sb, sc, n0 as int, m as int, db);
            lemma_window_trans(sc, n1 as int, n0 as int, m as int, half(lv(sb, n0 as int)), db);
            lemma_window_extends(
                sc,
                s,
                n1 as int,
                m as int,
                half(lv(sb, n0 as int)) + db,
            );
            lemma_window_trans(
                s,
                n2 as int,
                n1 as int,
                m as int,
                half(lv(sc, n1 as int)),
                half(lv(sb, n0 as int)) + db,
            );
            lemma_side_half(lv(s, n1 as int));
            lemma_side_half(lv(s, n2 as int));
            lemma_center_shape_extends(
                sc,
                s,
                n1 as int,
                ka(sb, n0 as int),
                kb(sb, n0 as int),
                kc(sb, n0 as int),
                kd(sb, n0 as int),
            );
            assert(s[n0 as int] == sb[n0 as int]);
            lemma_double_center_padded(s, n2 as int, n1 as int, n0 as int);
        }
        n2
    }

    /// Remove outer rings while padding holds and the level exceeds 3,
    /// keeping every live cell; the inverse of the growth `pad` causes.
    pub fn crop(&mut self, m: usize) -> (r: usize)
        requires
            old(self).wf(),
            old(self).valid(m as int),
        ensures
            final(self).wf(),
            extends(old(self).nodes@, final(self).nodes@),
            final(self).valid(r as int),
            lv(final(self).nodes@, r as int) <= lv(old(self).nodes@, m as int),
            lv(old(self).nodes@, m as int) >= 3 ==> lv(final(self).nodes@, r as int) >= 3,
            lv(old(self).nodes@, m as int) < 3 ==> r == m,
            lv(final(self).nodes@, r as int) > 3 ==> !is_padded_spec(final(self).nodes@, r as int),
            !(lv(old(self).nodes@, m as int) > 3 && is_padded_spec(old(self).nodes@, m as int))
                ==> r == m && final(self).nodes@ == old(self).nodes@,
            pp(old(self).nodes@, m as int) == 0 ==> pp(final(self).nodes@, r as int) == 0,
            lv(old(self).nodes@, m as int) <= 63 ==> pp(final(self).nodes@, r as int) == pp(
                old(self).nodes@,
                m as int,
            ) && shifted_window(
                final(self).nodes@,
                m as int,
                r as int,
                half(lv(old(self).nodes@, m as int)) - half(lv(final(self).nodes@, r as int)),
            ),
            final(self).memo@ == old(self).memo@,
    {
        let ghost s0 = old(self).nodes@;
        let ghost l0 = lv(s0, m as int);
        let mut node: usize = m;
        proof {
            lemma_window_refl(self.nodes@, m as int);
        }
        loop
            invariant
                self.wf(),
                extends(s0, self.nodes@),
                self.valid(node as int),
                lv(self.nodes@, node as int) <= l0,
                l0 >= 3 ==> lv(self.nodes@, node as int) >= 3,
                l0 < 3 ==> node == m,
                pp(s0, m as int) == 0 ==> pp(self.nodes@, node as int) == 0,
                (node == m && self.nodes@ == s0) || (l0 > 3 && is_padded_spec(s0, m as int)),
                l0 <= 63 ==> pp(self.nodes@, node as int) == pp(s0, m as int) && shifted_window(
                    self.nodes@,
                    m as int,
                    node as int,
                    half(l0) - half(lv(self.nodes@, node as int)),
                ),
                self.memo@ == old(self).memo@,
                old(self).wf(),
                old(self).valid(m as int),
                s0 == old(self).nodes@,
                l0 == lv(s0, m as int),
            ensures
                self.wf(),
                extends(s0, self.nodes@),
                self.valid(node as int),
                lv(self.nodes@, node as int) <= l0,
                l0 >= 3 ==> lv(self.nodes@, node as int) >= 3,
                l0 < 3 ==> node == m,
                !(lv(self.nodes@, node as int) > 3 && is_padded_spec(self.nodes@, node as int)),
                !(l0 > 3 && is_padded_spec(s0, m as int)) ==> node == m && self.nodes@ == s0,
                pp(s0, m as int) == 0 ==> pp(self.nodes@, node as int) == 0,
                l0 <= 63 ==> pp(self.nodes@, node as int) == pp(s0, m as int) && shifted_window(
                    self.nodes@,
                    m as int,
                    node as int,
                    half(l0) - half(lv(self.nodes@, node as int)),
                ),
                self.memo@ == old(self).memo@,
            decreases lv(self.nodes@, node as int),
        {
            if !(self.level(node) > 3 && self.is_padded(node)) {
                break;
            }
            let ghost sa = self.nodes@;
            let ghost la = lv(sa, node as int);
            let prev = node;
            node = self.inner(node);
            proof {
                let s = self.nodes@;
                lemma_side_half(la);
                lemma_side_half(la - 1);
                if pp(s0, m as int) == 0 {
                    assert(pp(sa, prev as int) == 0);
                    lemma_interior_id(sa, prev as int);
                    lemma_interior_id(sa, ka(sa, prev as int));
                    lemma_interior_id(sa, kb(sa, prev as int));
                    lemma_interior_id(sa, kc(sa, prev as int));
                    lemma_interior_id(sa, kd(sa, prev as int));
                    assert(pp(sa, ka(sa, prev as int)) == 0 && pp(sa, kb(sa, prev as int)) == 0
                        && pp(sa, kc(sa, prev as int)) == 0 && pp(sa, kd(sa, prev as int)) == 0);
                    assert(pp(sa, kd(sa, ka(sa, prev as int))) == 0);
                    assert(pp(sa, kc(sa, kb(sa, prev as int))) == 0);
                    assert(pp(sa, kb(sa, kc(sa, prev as int))) == 0);
                    assert(pp(sa, ka(sa, kd(sa, prev as int))) == 0);
                    assert(pp(s, node as int) == 0);
                }
                if l0 <= 63 {
                    lemma_padded_interior(sa, prev as int);
                    assert(pp(s, node as int) == pp(sa, prev as int)) by {
                        assert(node_ok(sa, prev as int));
                        lemma_pop_exact(sa, prev as int);
                        assert(s[prev as int] == sa[prev as int]);
                        assert(s[ka(sa, prev as int)] == sa[ka(sa, prev as int)]);
                        assert(s[kb(sa, prev as int)] == sa[kb(sa, prev as int)]);
                        assert(s[kc(sa, prev as int)] == sa[kc(sa, prev as int)]);
                        assert(s[kd(sa, prev as int)] == sa[kd(sa, prev as int)]);
                        assert(lv(s, node as int) <= 63);
                        lemma_interior_id(s, node as int);
                        lemma_pop_exact(s, node as int);
                    }
                    // the pointwise relation of `inner` plus interior
                    // containment give a full window relation
                    assert(shifted_window(s, prev as int, node as int, half(la - 1))) by {
                        let q = half(la - 1);
                        assert forall|u: int, v: int| in_sq(la, u, v) implies #[trigger] cell(
                            s,
                            prev as int,
                            u,
                            v,
                        ) == (q <= u < q + side(la - 1) && q <= v < q + side(la - 1) && cell(
                            s,
                            node as int,
                            u - q,
                            v - q,
                        )) by {
                            lemma_cell_extends(sa, s, prev as int, u, v);
                            if q <= u < q + side(la - 1) && q <= v < q + side(la - 1) {
                                assert(in_sq(la - 1, u - q, v - q));
                                assert(cell(s, node as int, u - q, v - q) == cell(
                                    s,
                                    prev as int,
                                    u,
                                    v,
                                ));
                            } else {
                                if cell(sa, prev as int, u, v) {
                                    assert(q <= u < 3 * q && q <= v < 3 * q);
                                    assert(false);
                                }
                            }
                        }
                    }
                    assert((m as int) < s0.len());
                    assert(extends(s0, sa));
                    assert((m as int) < sa.len());
                    assert((prev as int) < sa.len());
                    assert(shifted_window(sa, m as int, prev as int, half(l0) - half(la)));
                    lemma_window_extends(
                        sa,
                        s,
                        m as int,
                        prev as int,
                        half(l0) - half(la),
                    );
                    lemma_window_trans(
                        s,
                        m as int,
                        prev as int,
                        node as int,
                        half(l0) - half(la),
                        half(la - 1),
                    );
                    assert(half(l0) - half(la) + half(la - 1) == half(l0) - half(la - 1));
                }
            }
        }
        node
    }
}

/// Two windows on one node show the same content: if `big` holds `a`'s
/// cells shifted by `da` and `b`'s cells shifted by `db`, then `a`'s cells
/// are `b`'s cells shifted by `da - db`.  In particular, cropping a padded
/// node preserves every live cell of the node that was padded: `pad`'s
/// postcondition gives the first window and `crop`'s gives the second,
/// with the padded node as `big` in both.
pub proof fn lemma_window_common(s: Seq<Node>, big: int, a: int, b: int, da: int, db: int)
    requires
        shifted_window(s, big, a, da),
        shifted_window(s, big, b, db),
    ensures
        forall|u: int, v: int|
            in_sq(lv(s, a), u, v) ==> #[trigger] cell(s, a, u, v) == (db <= u + da < db + side(
                lv(s, b),
            ) && db <= v + da < db + side(lv(s, b)) && cell(s, b, u + da - db, v + da - db)),
{
    assert forall|u: int, v: int| in_sq(lv(s, a), u, v) implies #[trigger] cell(s, a, u, v) == (db
        <= u + da < db + side(lv(s, b)) && db <= v + da < db + side(lv(s, b)) && cell(
        s,
        b,
        u + da - db,
        v + da - db,
    )) by {
        assert(in_sq(lv(s, big), u + da, v + da));
        assert(cell(s, big, u + da, v + da) == (da <= u + da < da + side(lv(s, a)) && da <= v + da
            < da + side(lv(s, a)) && cell(s, a, u, v)));
        assert(cell(s, big, u + da, v + da) == (db <= u + da < db + side(lv(s, b)) && db <= v + da
            < db + side(lv(s, b)) && cell(s, b, u + da - db, v + da - db)));
    }
}

/// Padded-ness only reads immutable fields, so it survives growth.
pub proof fn lemma_padded_extends(s1: Seq<Node>, s2: Seq<Node>, p: int)
    requires
        store_ok(s1),
        extends(s1, s2),
        0 <= p < s1.len(),
        3 <= lv(s1, p),
        is_padded_spec(s1, p),
    ensures
        is_padded_spec(s2, p),
        lv(s2, p) == lv(s1, p),
        pp(s2, p) == pp(s1, p),
{
    lemma_interior_id(s1, p);
    lemma_interior_id(s1, ka(s1, p));
    lemma_interior_id(s1, kb(s1, p));
    lemma_interior_id(s1, kc(s1, p));
    lemma_interior_id(s1, kd(s1, p));
    lemma_interior_id(s1, kd(s1, ka(s1, p)));
    lemma_interior_id(s1, kc(s1, kb(s1, p)));
    lemma_interior_id(s1, kb(s1, kc(s1, p)));
    lemma_interior_id(s1, ka(s1, kd(s1, p)));
    assert(s2[p] == s1[p]);
    assert(s2[ka(s1, p)] == s1[ka(s1, p)]);
    assert(s2[kb(s1, p)] == s1[kb(s1, p)]);
    assert(s2[kc(s1, p)] == s1[kc(s1, p)]);
    assert(s2[kd(s1, p)] == s1[kd(s1, p)]);
    assert(s2[kd(s1, ka(s1, p))] == s1[kd(s1, ka(s1, p))]);
    assert(s2[kc(s1, kb(s1, p))] == s1[kc(s1, kb(s1, p))]);
    assert(s2[kb(s1, kc(s1, p))] == s1[kb(s1, kc(s1, p))]);
    assert(s2[ka(s1, kd(s1, p))] == s1[ka(s1, kd(s1, p))]);
    assert(s2[kd(s2, kd(s2, ka(s2, p)))] == s1[kd(s1, kd(s1, ka(s1, p)))]);
    assert(s2[kc(s2, kc(s2, kb(s2, p)))] == s1[kc(s1, kc(s1, kb(s1, p)))]);
    assert(s2[kb(s2, kb(s2, kc(s2, p)))] == s1[kb(s1, kb(s1, kc(s1, p)))]);
    assert(s2[ka(s2, ka(s2, kd(s2, p)))] == s1[ka(s1, ka(s1, kd(s1, p)))]);
}

} // verus!
