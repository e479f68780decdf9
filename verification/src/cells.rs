//! The mathematical meaning of a node: which cells of its square are alive.
//!
//! `cell(s, i, x, y)` reads the cell at column `x`, row `y` of the region
//! described by node `i`, with `(0, 0)` the north-west corner and both
//! coordinates ranging over `[0, 2^level)`.  Every contract of the engine is
//! stated over this one function.

use vstd::prelude::*;

verus! {

use vstd::arithmetic::power2::pow2;
use vstd::arithmetic::power2::lemma_pow2_adds;
use vstd::arithmetic::power2::lemma_pow2_pos;
use vstd::arithmetic::power2::lemma_pow2_strictly_increases;
use vstd::arithmetic::power2::lemma2_to64;
use crate::node::Node;
use crate::node::lv;
use crate::node::pp;
use crate::node::ka;
use crate::node::kb;
use crate::node::kc;
use crate::node::kd;
use crate::node::sat4;
use crate::node::leaves_ok;
use crate::node::node_ok;
use crate::node::same_shape;
use crate::node::store_ok;
use crate::node::extends;

/// Side length of a level-`l` region.
pub open spec fn side(l: int) -> int {
    pow2(l as nat) as int
}

/// Half the side length: the size of a child's region (0 at level 0).
pub open spec fn half(l: int) -> int {
    if l <= 0 { 0 } else { pow2((l - 1) as nat) as int }
}

/// Both coordinates lie inside a level-`l` region.
pub open spec fn in_sq(l: int, x: int, y: int) -> bool {
    0 <= x < side(l) && 0 <= y < side(l)
}

/// The cell at `(x, y)` of node `i`, for `(x, y)` inside the node's region.
/// The guards on the child indices only serve termination; a well-formed
/// store satisfies them.
pub open spec fn cell(s: Seq<Node>, i: int, x: int, y: int) -> bool
    decreases i,
{
    if i < 0 || i >= s.len() {
        false
    } else if s[i].level == 0 {
        i == 1
    } else {
        let h = half(lv(s, i));
        if x < h {
            if y < h {
                if ka(s, i) < i { cell(s, ka(s, i), x, y) } else { false }
            } else {
                if kc(s, i) < i { cell(s, kc(s, i), x, y - h) } else { false }
            }
        } else {
            if y < h {
                if kb(s, i) < i { cell(s, kb(s, i), x - h, y) } else { false }
            } else {
                if kd(s, i) < i { cell(s, kd(s, i), x - h, y - h) } else { false }
            }
        }
    }
}

/// `side` and `half` fit together: a region is two children wide.
pub proof fn lemma_side_half(l: int)
    requires
        l >= 1,
    ensures
        side(l) == 2 * half(l),
        half(l) >= 1,
        side(l - 1) == half(l),
    decreases l,
{
    lemma_pow2_adds((l - 1) as nat, 1);
    lemma_pow2_pos((l - 1) as nat);
    lemma2_to64();
}

/// A node with population 0 has no live cell.
pub proof fn lemma_pop_zero(s: Seq<Node>, i: int, x: int, y: int)
    requires
        store_ok(s),
        0 <= i < s.len(),
        pp(s, i) == 0,
    ensures
        !cell(s, i, x, y),
    decreases i,
{
    if s[i].level == 0 {
        if i >= 2 {
            assert(node_ok(s, i));
            assert(false);
        }
        assert(i == 0 || i == 1);
        assert(i == 1 ==> pp(s, i) == 1);
    } else {
        assert(i >= 2) by {
            if i < 2 {
                assert(leaves_ok(s));
            }
        }
        assert(node_ok(s, i));
        assert(pp(s, ka(s, i)) == 0 && pp(s, kb(s, i)) == 0 && pp(s, kc(s, i)) == 0 && pp(
            s,
            kd(s, i),
        ) == 0) by {
            assert(sat4(pp(s, ka(s, i)), pp(s, kb(s, i)), pp(s, kc(s, i)), pp(s, kd(s, i))) == 0);
        }
        let h = half(lv(s, i));
        if x < h {
            if y < h {
                lemma_pop_zero(s, ka(s, i), x, y);
            } else {
                lemma_pop_zero(s, kc(s, i), x, y - h);
            }
        } else {
            if y < h {
                lemma_pop_zero(s, kb(s, i), x - h, y);
            } else {
                lemma_pop_zero(s, kd(s, i), x - h, y - h);
            }
        }
    }
}

/// Cells of an existing node do not change when the store grows.
pub proof fn lemma_cell_extends(s1: Seq<Node>, s2: Seq<Node>, i: int, x: int, y: int)
    requires
        extends(s1, s2),
        0 <= i < s1.len(),
    ensures
        cell(s2, i, x, y) == cell(s1, i, x, y),
    decreases i,
{
    if s1[i].level == 0 {
    } else {
        let h = half(lv(s1, i));
        if ka(s1, i) < i && 0 <= ka(s1, i) {
            lemma_cell_extends(s1, s2, ka(s1, i), x, y);
        }
        if kb(s1, i) < i && 0 <= kb(s1, i) {
            lemma_cell_extends(s1, s2, kb(s1, i), x - h, y);
        }
        if kc(s1, i) < i && 0 <= kc(s1, i) {
            lemma_cell_extends(s1, s2, kc(s1, i), x, y - h);
        }
        if kd(s1, i) < i && 0 <= kd(s1, i) {
            lemma_cell_extends(s1, s2, kd(s1, i), x - h, y - h);
        }
    }
}

/// All cells of all existing nodes survive a store extension.
pub proof fn lemma_cells_extend_all(s1: Seq<Node>, s2: Seq<Node>)
    requires
        extends(s1, s2),
    ensures
        forall|i: int, x: int, y: int|
            0 <= i < s1.len() ==> #[trigger] cell(s2, i, x, y) == cell(s1, i, x, y),
{
    assert forall|i: int, x: int, y: int| 0 <= i < s1.len() implies #[trigger] cell(s2, i, x, y)
        == cell(s1, i, x, y) by {
        lemma_cell_extends(s1, s2, i, x, y);
    }
}

/// Canonical identity: two nodes of the same level whose regions hold the
/// same cells are one and the same node.  This is the point of hash-consing;
/// together with `Life::join`'s postcondition it says that structurally equal
/// regions are represented by referentially identical nodes.
pub proof fn lemma_same_cells_same_node(s: Seq<Node>, i: int, j: int)
    requires
        store_ok(s),
        0 <= i < s.len(),
        0 <= j < s.len(),
        lv(s, i) == lv(s, j),
        forall|x: int, y: int|
            in_sq(lv(s, i), x, y) ==> #[trigger] cell(s, i, x, y) == #[trigger] cell(s, j, x, y),
    ensures
        i == j,
    decreases lv(s, i),
{
    let l = lv(s, i);
    if l == 0 {
        assert(i < 2 && j < 2) by {
            if i >= 2 {
                assert(node_ok(s, i));
            }
            if j >= 2 {
                assert(node_ok(s, j));
            }
        }
        assert(side(0) == 1) by {
            lemma2_to64();
        }
        assert(in_sq(0, 0, 0));
        assert(cell(s, i, 0, 0) == (i == 1));
        assert(cell(s, j, 0, 0) == (j == 1));
    } else {
        assert(i >= 2 && j >= 2) by {
            if i < 2 || j < 2 {
                assert(leaves_ok(s));
            }
        }
        assert(node_ok(s, i));
        assert(node_ok(s, j));
        let h = half(l);
        lemma_side_half(l);
        assert forall|x: int, y: int| in_sq(l - 1, x, y) implies #[trigger] cell(s, ka(s, i), x, y)
            == #[trigger] cell(s, ka(s, j), x, y) by {
            assert(in_sq(l, x, y));
            assert(cell(s, i, x, y) == cell(s, ka(s, i), x, y));
            assert(cell(s, j, x, y) == cell(s, ka(s, j), x, y));
        }
        lemma_same_cells_same_node(s, ka(s, i), ka(s, j));
        assert forall|x: int, y: int| in_sq(l - 1, x, y) implies #[trigger] cell(s, kb(s, i), x, y)
            == #[trigger] cell(s, kb(s, j), x, y) by {
            assert(in_sq(l, x + h, y));
            assert(cell(s, i, x + h, y) == cell(s, kb(s, i), x, y));
            assert(cell(s, j, x + h, y) == cell(s, kb(s, j), x, y));
        }
        lemma_same_cells_same_node(s, kb(s, i), kb(s, j));
        assert forall|x: int, y: int| in_sq(l - 1, x, y) implies #[trigger] cell(s, kc(s, i), x, y)
            == #[trigger] cell(s, kc(s, j), x, y) by {
            assert(in_sq(l, x, y + h));
            assert(cell(s, i, x, y + h) == cell(s, kc(s, i), x, y));
            assert(cell(s, j, x, y + h) == cell(s, kc(s, j), x, y));
        }
        lemma_same_cells_same_node(s, kc(s, i), kc(s, j));
        assert forall|x: int, y: int| in_sq(l - 1, x, y) implies #[trigger] cell(s, kd(s, i), x, y)
            == #[trigger] cell(s, kd(s, j), x, y) by {
            assert(in_sq(l, x + h, y + h));
            assert(cell(s, i, x + h, y + h) == cell(s, kd(s, i), x, y));
            assert(cell(s, j, x + h, y + h) == cell(s, kd(s, j), x, y));
        }
        lemma_same_cells_same_node(s, kd(s, i), kd(s, j));
        if i != j {
            assert(same_shape(s, i, j));
            assert(false);
        }
    }
}

/// The all-dead node of a given level is unique: two empty nodes of equal
/// level are the same canonical node.
pub proof fn lemma_zero_unique(s: Seq<Node>, i: int, j: int)
    requires
        store_ok(s),
        0 <= i < s.len(),
        0 <= j < s.len(),
        lv(s, i) == lv(s, j),
        pp(s, i) == 0,
        pp(s, j) == 0,
    ensures
        i == j,
{
    assert forall|x: int, y: int| in_sq(lv(s, i), x, y) implies #[trigger] cell(s, i, x, y)
        == #[trigger] cell(s, j, x, y) by {
        lemma_pop_zero(s, i, x, y);
        lemma_pop_zero(s, j, x, y);
    }
    lemma_same_cells_same_node(s, i, j);
}
/// Populations below level 64 cannot saturate: the count is an exact sum.
pub proof fn lemma_pop_exact(s: Seq<Node>, i: int)
    requires
        store_ok(s),
        2 <= i < s.len(),
        lv(s, i) <= 63,
    ensures
        pp(s, i) == pp(s, ka(s, i)) + pp(s, kb(s, i)) + pp(s, kc(s, i)) + pp(s, kd(s, i)),
{
    assert(node_ok(s, i));
    let l = lv(s, i);
    let pa = pp(s, ka(s, i));
    let pb = pp(s, kb(s, i));
    let pc = pp(s, kc(s, i));
    let pd = pp(s, kd(s, i));
    assert(pa <= pow2((2 * l - 2) as nat) && pb <= pow2((2 * l - 2) as nat) && pc <= pow2(
        (2 * l - 2) as nat,
    ) && pd <= pow2((2 * l - 2) as nat)) by {
        assert(ka(s, i) >= 2 || pp(s, ka(s, i)) <= 1);
        assert(kb(s, i) >= 2 || pp(s, kb(s, i)) <= 1);
        assert(kc(s, i) >= 2 || pp(s, kc(s, i)) <= 1);
        assert(kd(s, i) >= 2 || pp(s, kd(s, i)) <= 1);
        if ka(s, i) >= 2 {
            assert(node_ok(s, ka(s, i)));
        }
        if kb(s, i) >= 2 {
            assert(node_ok(s, kb(s, i)));
        }
        if kc(s, i) >= 2 {
            assert(node_ok(s, kc(s, i)));
        }
        if kd(s, i) >= 2 {
            assert(node_ok(s, kd(s, i)));
        }
        lemma_pow2_pos((2 * l - 2) as nat);
    }
    assert(pow2((2 * l - 2) as nat) <= pow2(124)) by {
        if 2 * l - 2 < 124 {
            lemma_pow2_strictly_increases((2 * l - 2) as nat, 124);
        }
    }
    assert(4 * pow2(124) < u128::MAX) by {
        lemma_pow2_adds(62, 62);
        vstd::arithmetic::power2::lemma2_to64_rest();
    }
}

} // verus!
