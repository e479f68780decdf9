//! The base-case evaluator of the step algorithm.
//!
//! A level-2 node is a 4x4 window of cells — the smallest region with enough
//! context to advance its central 2x2 block by one generation.  `life_4x4`
//! applies the classic rule to each of the four central cells and joins the
//! results into a level-1 node.

use vstd::prelude::*;

verus! {

use crate::node::Node;
use crate::node::DEAD;
use crate::node::ALIVE;
use crate::node::lv;
use crate::node::ka;
use crate::node::kb;
use crate::node::kc;
use crate::node::kd;
use crate::node::node_ok;
use crate::node::leaves_ok;
use crate::node::store_ok;
use crate::engine::Life;
use crate::cells::cell;
use crate::cells::half;
use vstd::arithmetic::power2::lemma2_to64;

/// The classic rule: a cell is alive in the next generation iff it has
/// exactly three live neighbours, or it is alive and has exactly two.
pub open spec fn life_rule(center: bool, n: int) -> bool {
    n == 3 || (center && n == 2)
}

/// 1 if the id is the live cell singleton, else 0.
pub open spec fn bit(i: int) -> int {
    if i == 1 { 1 } else { 0 }
}

/// The cell singleton expressing a liveness.
pub open spec fn leaf(alive: bool) -> int {
    if alive { 1 } else { 0 }
}

/// The four cells produced by one generation of the rule on the centre of a
/// level-2 node, in the order north-west, north-east, south-west, south-east.
/// Cell `(x, y)` of the 4x4 window sits at grandchild position
/// `(x % 2, y % 2)` of child `(x / 2, y / 2)`.
#[verifier::opaque]
pub open spec fn step4(s: Seq<Node>, m: int) -> (int, int, int, int) {
    let a = ka(s, m);
    let b = kb(s, m);
    let c = kc(s, m);
    let d = kd(s, m);
    let aa = ka(s, a);
    let ab = kb(s, a);
    let ac = kc(s, a);
    let ad = kd(s, a);
    let ba = ka(s, b);
    let bb = kb(s, b);
    let bc = kc(s, b);
    let bd = kd(s, b);
    let ca = ka(s, c);
    let cb = kb(s, c);
    let cc = kc(s, c);
    let cd = kd(s, c);
    let da = ka(s, d);
    let db = kb(s, d);
    let dc = kc(s, d);
    let dd = kd(s, d);
    (
        leaf(
            life_rule(
                ad == 1,
                bit(aa) + bit(ab) + bit(ba) + bit(ac) + bit(bc) + bit(ca) + bit(cb) + bit(da),
            ),
        ),
        leaf(
            life_rule(
                bc == 1,
                bit(ab) + bit(ba) + bit(bb) + bit(ad) + bit(bd) + bit(cb) + bit(da) + bit(db),
            ),
        ),
        leaf(
            life_rule(
                cb == 1,
                bit(ac) + bit(ad) + bit(bc) + bit(ca) + bit(da) + bit(cc) + bit(cd) + bit(dc),
            ),
        ),
        leaf(
            life_rule(
                da == 1,
                bit(ad) + bit(bc) + bit(bd) + bit(cb) + bit(db) + bit(cd) + bit(dc) + bit(dd),
            ),
        ),
    )
}

/// 1 for a live cell, 0 for a dead one.
pub open spec fn bi(b: bool) -> int {
    if b { 1 } else { 0 }
}

/// Number of live cells among the eight neighbours of `(x, y)` inside the
/// region of node `i`; meaningful away from the region's border.
pub open spec fn nbrs(s: Seq<Node>, i: int, x: int, y: int) -> int {
    bi(cell(s, i, x - 1, y - 1)) + bi(cell(s, i, x, y - 1)) + bi(cell(s, i, x + 1, y - 1)) + bi(
        cell(s, i, x - 1, y),
    ) + bi(cell(s, i, x + 1, y)) + bi(cell(s, i, x - 1, y + 1)) + bi(cell(s, i, x, y + 1)) + bi(
        cell(s, i, x + 1, y + 1),
    )
}

/// The grandchild of a level-2 node holding cell `(x, y)`.
pub open spec fn gk2(s: Seq<Node>, m: int, x: int, y: int) -> int {
    let kid = if x < 2 {
        if y < 2 { ka(s, m) } else { kc(s, m) }
    } else {
        if y < 2 { kb(s, m) } else { kd(s, m) }
    };
    let gx = if x % 2 == 0 { 0int } else { 1 };
    let gy = if y % 2 == 0 { 0int } else { 1 };
    if gx == 0 {
        if gy == 0 { ka(s, kid) } else { kc(s, kid) }
    } else {
        if gy == 0 { kb(s, kid) } else { kd(s, kid) }
    }
}

/// A cell of a level-2 node is the grandchild singleton holding it.
proof fn lemma_cell_level2(s: Seq<Node>, m: int, x: int, y: int)
    requires
        store_ok(s),
        0 <= m < s.len(),
        lv(s, m) == 2,
        0 <= x < 4,
        0 <= y < 4,
    ensures
        cell(s, m, x, y) == (gk2(s, m, x, y) == 1),
{
    assert(leaves_ok(s));
    assert(node_ok(s, m));
    assert(node_ok(s, ka(s, m)));
    assert(node_ok(s, kb(s, m)));
    assert(node_ok(s, kc(s, m)));
    assert(node_ok(s, kd(s, m)));
    assert(half(2) == 2 && half(1) == 1) by {
        lemma2_to64();
    }
    let kid = if x < 2 {
        if y < 2 { ka(s, m) } else { kc(s, m) }
    } else {
        if y < 2 { kb(s, m) } else { kd(s, m) }
    };
    let kx = if x < 2 { x } else { x - 2 };
    let ky = if y < 2 { y } else { y - 2 };
    assert(cell(s, m, x, y) == cell(s, kid, kx, ky));
    let gid = if kx == 0 {
        if ky == 0 { ka(s, kid) } else { kc(s, kid) }
    } else {
        if ky == 0 { kb(s, kid) } else { kd(s, kid) }
    };
    assert(cell(s, kid, kx, ky) == cell(s, gid, if kx == 0 { 0int } else { kx - 1 }, if ky == 0 { 0int } else { ky - 1 }));
    assert(cell(s, gid, if kx == 0 { 0int } else { kx - 1 }, if ky == 0 { 0int } else { ky - 1 }) == (gid == 1));
    assert(gid == gk2(s, m, x, y));
}

/// `step4` really is one generation of the rule: the result's four cells
/// are the rule applied to the centre cells of the 4x4 window, counting
/// the eight neighbours inside the window.
/// One output cell of `step4`, checked against the rule.  The corner is
/// given by `(dx, dy)`; the work for one corner is kept in its own lemma
/// so each proof context stays small.
#[verifier::rlimit(100)]
proof fn lemma_step_corner(s: Seq<Node>, m: int, r: int, dx: int, dy: int)
    requires
        store_ok(s),
        0 <= m < s.len(),
        0 <= r < s.len(),
        lv(s, m) == 2,
        lv(s, r) == 1,
        dx == 0 || dx == 1,
        dy == 0 || dy == 1,
        dx == 0 && dy == 0 ==> ka(s, r) == step4(s, m).0,
        dx == 1 && dy == 0 ==> kb(s, r) == step4(s, m).1,
        dx == 0 && dy == 1 ==> kc(s, r) == step4(s, m).2,
        dx == 1 && dy == 1 ==> kd(s, r) == step4(s, m).3,
    ensures
        cell(s, r, dx, dy) == life_rule(cell(s, m, 1 + dx, 1 + dy), nbrs(s, m, 1 + dx, 1 + dy)),
{
    reveal(step4);
    lemma_cell_level2(s, m, dx, dy);
    lemma_cell_level2(s, m, 1 + dx, dy);
    lemma_cell_level2(s, m, 2 + dx, dy);
    lemma_cell_level2(s, m, dx, 1 + dy);
    lemma_cell_level2(s, m, 1 + dx, 1 + dy);
    lemma_cell_level2(s, m, 2 + dx, 1 + dy);
    lemma_cell_level2(s, m, dx, 2 + dy);
    lemma_cell_level2(s, m, 1 + dx, 2 + dy);
    lemma_cell_level2(s, m, 2 + dx, 2 + dy);
    assert(leaves_ok(s));
    assert(r >= 2);
    assert(node_ok(s, r));
    assert(half(1) == 1) by {
        lemma2_to64();
    }
    if dx == 0 && dy == 0 {
        assert(cell(s, r, 0, 0) == (ka(s, r) == 1)) by {
            assert(cell(s, r, 0, 0) == cell(s, ka(s, r), 0, 0));
        }
    } else if dx == 1 && dy == 0 {
        assert(cell(s, r, 1, 0) == (kb(s, r) == 1)) by {
            assert(cell(s, r, 1, 0) == cell(s, kb(s, r), 0, 0));
        }
    } else if dx == 0 && dy == 1 {
        assert(cell(s, r, 0, 1) == (kc(s, r) == 1)) by {
            assert(cell(s, r, 0, 1) == cell(s, kc(s, r), 0, 0));
        }
    } else {
        assert(cell(s, r, 1, 1) == (kd(s, r) == 1)) by {
            assert(cell(s, r, 1, 1) == cell(s, kd(s, r), 0, 0));
        }
    }
}

/// `step4` really is one generation of the rule: the result's four cells
/// are the rule applied to the centre cells of the 4x4 window, counting
/// the eight neighbours inside the window.
pub proof fn lemma_step_cells(s: Seq<Node>, m: int, r: int)
    requires
        store_ok(s),
        0 <= m < s.len(),
        0 <= r < s.len(),
        lv(s, m) == 2,
        lv(s, r) == 1,
        ka(s, r) == step4(s, m).0,
        kb(s, r) == step4(s, m).1,
        kc(s, r) == step4(s, m).2,
        kd(s, r) == step4(s, m).3,
    ensures
        forall|dx: int, dy: int|
            0 <= dx < 2 && 0 <= dy < 2 ==> #[trigger] cell(s, r, dx, dy) == life_rule(
                cell(s, m, 1 + dx, 1 + dy),
                nbrs(s, m, 1 + dx, 1 + dy),
            ),
{
    assert forall|dx: int, dy: int| 0 <= dx < 2 && 0 <= dy < 2 implies #[trigger] cell(s, r, dx, dy)
        == life_rule(cell(s, m, 1 + dx, 1 + dy), nbrs(s, m, 1 + dx, 1 + dy)) by {
        lemma_step_corner(s, m, r, dx, dy);
    }
}

/// Transfer `step4` facts into the grown store and apply the rule lemma.
proof fn lemma_life4x4_finish(s0: Seq<Node>, s2: Seq<Node>, m: int, r: int)
    requires
        store_ok(s0),
        store_ok(s2),
        crate::node::extends(s0, s2),
        0 <= m < s0.len(),
        0 <= r < s2.len(),
        lv(s0, m) == 2,
        lv(s2, r) == 1,
        ka(s2, r) == step4(s0, m).0,
        kb(s2, r) == step4(s0, m).1,
        kc(s2, r) == step4(s0, m).2,
        kd(s2, r) == step4(s0, m).3,
    ensures
        forall|dx: int, dy: int|
            0 <= dx < 2 && 0 <= dy < 2 ==> #[trigger] cell(s2, r, dx, dy) == life_rule(
                cell(s2, m, 1 + dx, 1 + dy),
                nbrs(s2, m, 1 + dx, 1 + dy),
            ),
{
    assert(leaves_ok(s0));
    assert(node_ok(s0, m));
    assert(s2[m] == s0[m]);
    assert(s2[ka(s0, m)] == s0[ka(s0, m)]);
    assert(s2[kb(s0, m)] == s0[kb(s0, m)]);
    assert(s2[kc(s0, m)] == s0[kc(s0, m)]);
    assert(s2[kd(s0, m)] == s0[kd(s0, m)]);
    assert(step4(s2, m) == step4(s0, m)) by {
        reveal(step4);
    }
    lemma_step_cells(s2, m, r);
}

impl Life {
    /// Apply the rule to the cell `e`, whose eight neighbours are the other
    /// arguments; every argument is a cell singleton.
    pub fn life(
        &self,
        a: usize,
        b: usize,
        c: usize,
        d: usize,
        e: usize,
        f: usize,
        g: usize,
        h: usize,
        i: usize,
    ) -> (r: usize)
        requires
            self.wf(),
            self.valid(a as int) && lv(self.nodes@, a as int) == 0,
            self.valid(b as int) && lv(self.nodes@, b as int) == 0,
            self.valid(c as int) && lv(self.nodes@, c as int) == 0,
            self.valid(d as int) && lv(self.nodes@, d as int) == 0,
            self.valid(e as int) && lv(self.nodes@, e as int) == 0,
            self.valid(f as int) && lv(self.nodes@, f as int) == 0,
            self.valid(g as int) && lv(self.nodes@, g as int) == 0,
            self.valid(h as int) && lv(self.nodes@, h as int) == 0,
            self.valid(i as int) && lv(self.nodes@, i as int) == 0,
        ensures
            r as int == leaf(
                life_rule(
                    e as int == 1,
                    bit(a as int) + bit(b as int) + bit(c as int) + bit(d as int) + bit(f as int)
                        + bit(g as int) + bit(h as int) + bit(i as int),
                ),
            ),
    {
        proof {
            lemma_leaf_ids(self.nodes@, a as int);
            lemma_leaf_ids(self.nodes@, b as int);
            lemma_leaf_ids(self.nodes@, c as int);
            lemma_leaf_ids(self.nodes@, d as int);
            lemma_leaf_ids(self.nodes@, e as int);
            lemma_leaf_ids(self.nodes@, f as int);
            lemma_leaf_ids(self.nodes@, g as int);
            lemma_leaf_ids(self.nodes@, h as int);
            lemma_leaf_ids(self.nodes@, i as int);
        }
        let mut n: u8 = 0;
        if a == ALIVE {
            n += 1;
        }
        if b == ALIVE {
            n += 1;
        }
        if c == ALIVE {
            n += 1;
        }
        if d == ALIVE {
            n += 1;
        }
        if f == ALIVE {
            n += 1;
        }
        if g == ALIVE {
            n += 1;
        }
        if h == ALIVE {
            n += 1;
        }
        if i == ALIVE {
            n += 1;
        }
        if n == 3 || (n == 2 && e == ALIVE) {
            ALIVE
        } else {
            DEAD
        }
    }

    /// Advance the central 2x2 block of a level-2 node by one generation,
    /// returning the level-1 node of the four resulting cells.
    #[verifier::rlimit(100)]
    pub fn life_4x4(&mut self, m: usize) -> (r: usize)
        requires
            old(self).wf(),
            old(self).valid(m as int),
            lv(old(self).nodes@, m as int) == 2,
        ensures
            final(self).wf(),
            crate::node::extends(old(self).nodes@, final(self).nodes@),
            final(self).valid(r as int),
            lv(final(self).nodes@, r as int) == 1,
            ka(final(self).nodes@, r as int) == step4(old(self).nodes@, m as int).0,
            kb(final(self).nodes@, r as int) == step4(old(self).nodes@, m as int).1,
            kc(final(self).nodes@, r as int) == step4(old(self).nodes@, m as int).2,
            kd(final(self).nodes@, r as int) == step4(old(self).nodes@, m as int).3,
            forall|dx: int, dy: int|
                0 <= dx < 2 && 0 <= dy < 2 ==> #[trigger] cell(
                    final(self).nodes@,
                    r as int,
                    dx,
                    dy,
                ) == life_rule(
                    cell(final(self).nodes@, m as int, 1 + dx, 1 + dy),
                    nbrs(final(self).nodes@, m as int, 1 + dx, 1 + dy),
                ),
            final(self).zeros@ == old(self).zeros@,
            final(self).memo@ == old(self).memo@,
    {
        proof {
            assert(node_ok(self.nodes@, m as int));
            assert(node_ok(self.nodes@, ka(self.nodes@, m as int)));
            assert(node_ok(self.nodes@, kb(self.nodes@, m as int)));
            assert(node_ok(self.nodes@, kc(self.nodes@, m as int)));
            assert(node_ok(self.nodes@, kd(self.nodes@, m as int)));
        }
        let mn = self.nodes[m];
        let an = self.nodes[mn.a];
        let bn = self.nodes[mn.b];
        let cn = self.nodes[mn.c];
        let dn = self.nodes[mn.d];
        let na = self.life(an.a, an.b, bn.a, an.c, an.d, bn.c, cn.a, cn.b, dn.a);
        let nb = self.life(an.b, bn.a, bn.b, an.d, bn.c, bn.d, cn.b, dn.a, dn.b);
        let nc = self.life(an.c, an.d, bn.c, cn.a, cn.b, dn.a, cn.c, cn.d, dn.c);
        let nd = self.life(an.d, bn.c, bn.d, cn.b, dn.a, dn.b, cn.d, dn.c, dn.d);
        let r = self.join(na, nb, nc, nd);
        proof {
            reveal(step4);
            lemma_life4x4_finish(old(self).nodes@, self.nodes@, m as int, r as int);
        }
        r
    }
}

/// A level-0 node is one of the two cell singletons.
proof fn lemma_leaf_ids(s: Seq<Node>, i: int)
    requires
        crate::node::store_ok(s),
        0 <= i < s.len(),
        lv(s, i) == 0,
    ensures
        i == 0 || i == 1,
{
    if i >= 2 {
        assert(node_ok(s, i));
    }
}

} // verus!
