//! Reading and writing patterns: coordinate enumeration, point queries and
//! point edits, and building a tree from a sparse list of live cells.
//!
//! `expand` uses the node's top-left corner as its origin; `is_alive` and
//! `set_cell` use the node's centre, with negative coordinates reaching the
//! north-west quadrants, matching the editing interface of the engine.

use vstd::prelude::*;

verus! {

use vstd::arithmetic::power2::pow2;
use vstd::arithmetic::power2::lemma_pow2_adds;
use vstd::arithmetic::power2::lemma_pow2_strictly_increases;
use vstd::arithmetic::power2::lemma2_to64;
use vstd::arithmetic::power2::lemma2_to64_rest;
use crate::node::Node;
use crate::node::DEAD;
use crate::node::ALIVE;
use crate::node::lv;
use crate::node::pp;
use crate::node::ka;
use crate::node::kb;
use crate::node::kc;
use crate::node::kd;
use crate::node::leaves_ok;
use crate::node::node_ok;
use crate::node::store_ok;
use crate::node::extends;
use crate::cells::side;
use crate::cells::half;
use crate::cells::in_sq;
use crate::cells::cell;
use crate::cells::lemma_side_half;
use crate::cells::lemma_pop_zero;
use crate::cells::lemma_cell_extends;
use crate::cells::lemma_cells_extend_all;
use crate::cells::lemma_pop_exact;
use crate::engine::Life;
use crate::boundary::shifted_window;
use crate::boundary::is_padded_spec;

/// 2^k as a machine integer.
fn pow2_i64(k: u8) -> (r: i64)
    requires
        k <= 62,
    ensures
        r as int == pow2(k as nat),
        1 <= r,
{
    proof {
        lemma2_to64();
    }
    let mut r: i64 = 1;
    let mut t: u8 = 0;
    while t < k
        invariant
            t <= k,
            k <= 62,
            r as int == pow2(t as nat),
            1 <= r,
        decreases k - t,
    {
        proof {
            lemma_pow2_adds(t as nat, 1);
            lemma2_to64();
            if (t as nat) + 1 < 62 {
                lemma_pow2_strictly_increases((t as nat) + 1, 62);
            }
            lemma2_to64_rest();
        }
        r = r * 2;
        t += 1;
    }
    r
}

impl Life {
    /// Is the cell at `(x, y)` alive?  Coordinates are relative to the
    /// node's centre, so they range over `[-2^(level-1), 2^(level-1))`.
    pub fn is_alive(&self, i: usize, x: i64, y: i64) -> (r: bool)
        requires
            self.wf(),
            self.valid(i as int),
            lv(self.nodes@, i as int) <= 62,
            lv(self.nodes@, i as int) >= 1 ==> -half(lv(self.nodes@, i as int)) <= x < half(
                lv(self.nodes@, i as int),
            ) && -half(lv(self.nodes@, i as int)) <= y < half(lv(self.nodes@, i as int)),
        ensures
            r == cell(
                self.nodes@,
                i as int,
                x + half(lv(self.nodes@, i as int)),
                y + half(lv(self.nodes@, i as int)),
            ),
        decreases lv(self.nodes@, i as int),
    {
        let ghost s = self.nodes@;
        let n = self.nodes[i];
        if n.level == 0 {
            proof {
                assert(leaves_ok(s));
                if i as int >= 2 {
                    assert(node_ok(s, i as int));
                }
            }
            n.population == 1
        } else {
            proof {
                assert(node_ok(s, i as int));
                lemma_side_half(lv(s, i as int));
                if lv(s, i as int) >= 2 {
                    lemma_side_half(lv(s, i as int) - 1);
                }
                lemma2_to64();
            }
            let off: i64 = if n.level >= 2 {
                pow2_i64(n.level - 2)
            } else {
                0
            };
            let ghost l = lv(s, i as int);
            let ghost xx = x + half(l);
            let ghost yy = y + half(l);
            if x >= 0 && y >= 0 {
                let rr = self.is_alive(n.d, x - off, y - off);
                proof {
                    assert(cell(s, i as int, xx, yy) == cell(s, kd(s, i as int), xx - half(l), yy - half(l)));
                    if l == 1 {
                        assert(cell(s, kd(s, i as int), xx - half(l), yy - half(l)) == (kd(s, i as int) == 1));
                        assert(cell(s, kd(s, i as int), (x - off) + half(l - 1), (y - off) + half(l - 1)) == (kd(s, i as int) == 1));
                    }
                }
                rr
            } else if x >= 0 && y < 0 {
                let rr = self.is_alive(n.b, x - off, y + off);
                proof {
                    assert(cell(s, i as int, xx, yy) == cell(s, kb(s, i as int), xx - half(l), yy));
                    if l == 1 {
                        assert(cell(s, kb(s, i as int), xx - half(l), yy) == (kb(s, i as int) == 1));
                        assert(cell(s, kb(s, i as int), (x - off) + half(l - 1), (y + off) + half(l - 1)) == (kb(s, i as int) == 1));
                    }
                }
                rr
            } else if x < 0 && y >= 0 {
                let rr = self.is_alive(n.c, x + off, y - off);
                proof {
                    assert(cell(s, i as int, xx, yy) == cell(s, kc(s, i as int), xx, yy - half(l)));
                    if l == 1 {
                        assert(cell(s, kc(s, i as int), xx, yy - half(l)) == (kc(s, i as int) == 1));
                        assert(cell(s, kc(s, i as int), (x + off) + half(l - 1), (y - off) + half(l - 1)) == (kc(s, i as int) == 1));
                    }
                }
                rr
            } else {
                let rr = self.is_alive(n.a, x + off, y + off);
                proof {
                    assert(cell(s, i as int, xx, yy) == cell(s, ka(s, i as int), xx, yy));
                    if l == 1 {
                        assert(cell(s, ka(s, i as int), xx, yy) == (ka(s, i as int) == 1));
                        assert(cell(s, ka(s, i as int), (x + off) + half(l - 1), (y + off) + half(l - 1)) == (ka(s, i as int) == 1));
                    }
                }
                rr
            }
        }
    }

    /// Return a node equal to `i` except that the cell at `(x, y)` — in the
    /// same centre-relative coordinates as `is_alive` — is set to `alive`.
    /// Nothing is mutated: the new tree shares all untouched quadrants.
    pub fn set_cell(&mut self, i: usize, x: i64, y: i64, alive: bool) -> (r: usize)
        requires
            old(self).wf(),
            old(self).valid(i as int),
            lv(old(self).nodes@, i as int) <= 62,
            lv(old(self).nodes@, i as int) >= 1 ==> -half(lv(old(self).nodes@, i as int)) <= x
                < half(lv(old(self).nodes@, i as int)) && -half(lv(old(self).nodes@, i as int))
                <= y < half(lv(old(self).nodes@, i as int)),
        ensures
            final(self).wf(),
            extends(old(self).nodes@, final(self).nodes@),
            final(self).valid(r as int),
            lv(final(self).nodes@, r as int) == lv(old(self).nodes@, i as int),
            lv(old(self).nodes@, i as int) == 0 ==> forall|u: int, v: int|
                in_sq(0, u, v) ==> #[trigger] cell(final(self).nodes@, r as int, u, v) == alive,
            lv(old(self).nodes@, i as int) >= 1 ==> forall|u: int, v: int|
                in_sq(lv(old(self).nodes@, i as int), u, v) ==> #[trigger] cell(
                    final(self).nodes@,
                    r as int,
                    u,
                    v,
                ) == (if u == x + half(lv(old(self).nodes@, i as int)) && v == y + half(
                    lv(old(self).nodes@, i as int),
                ) {
                    alive
                } else {
                    cell(final(self).nodes@, i as int, u, v)
                }),
            final(self).memo@ == old(self).memo@,
        decreases lv(old(self).nodes@, i as int),
    {
        let ghost s0 = self.nodes@;
        let ghost l = lv(s0, i as int);
        let n = self.nodes[i];
        if n.level == 0 {
            proof {
                assert(leaves_ok(s0));
                lemma2_to64();
            }
            if alive {
                ALIVE
            } else {
                DEAD
            }
        } else {
            proof {
                assert(node_ok(s0, i as int));
                lemma_side_half(l);
                if l >= 2 {
                    lemma_side_half(l - 1);
                }
                lemma2_to64();
            }
            let off: i64 = if n.level >= 2 {
                pow2_i64(n.level - 2)
            } else {
                0
            };
            let hh: i64 = pow2_i64(n.level - 1);
            let r: usize;
            if x >= 0 && y >= 0 {
                let nk = self.set_cell(n.d, x - off, y - off, alive);
                let ghost s1 = self.nodes@;
                r = self.join(n.a, n.b, n.c, nk);
                proof {
                    lemma_set_finish(s0, s1, self.nodes@, i as int, r as int, nk as int, 1, 1, x + half(l), y + half(l), alive);
                }
            } else if x >= 0 && y < 0 {
                let nk = self.set_cell(n.b, x - off, y + off, alive);
                let ghost s1 = self.nodes@;
                r = self.join(n.a, nk, n.c, n.d);
                proof {
                    lemma_set_finish(s0, s1, self.nodes@, i as int, r as int, nk as int, 1, 0, x + half(l), y + half(l), alive);
                }
            } else if x < 0 && y >= 0 {
                let nk = self.set_cell(n.c, x + off, y - off, alive);
                let ghost s1 = self.nodes@;
                r = self.join(n.a, n.b, nk, n.d);
                proof {
                    lemma_set_finish(s0, s1, self.nodes@, i as int, r as int, nk as int, 0, 1, x + half(l), y + half(l), alive);
                }
            } else {
                let nk = self.set_cell(n.a, x + off, y + off, alive);
                let ghost s1 = self.nodes@;
                r = self.join(nk, n.b, n.c, n.d);
                proof {
                    lemma_set_finish(s0, s1, self.nodes@, i as int, r as int, nk as int, 0, 0, x + half(l), y + half(l), alive);
                }
            }
            r
        }
    }
}

/// The child of `i` in column `qx`, row `qy` of the quadrant grid.
pub open spec fn kid_at(s: Seq<Node>, i: int, qx: int, qy: int) -> int {
    if qx == 0 {
        if qy == 0 {
            ka(s, i)
        } else {
            kc(s, i)
        }
    } else {
        if qy == 0 {
            kb(s, i)
        } else {
            kd(s, i)
        }
    }
}

/// Point-update glue: `r` agrees with `i` on three quadrants and holds the
/// updated child `nk` in quadrant `(qx, qy)`; lifting the child's pointwise
/// guarantee to the parent.
proof fn lemma_replace_kid(
    s: Seq<Node>,
    r: int,
    i: int,
    nk: int,
    qx: int,
    qy: int,
    tx: int,
    ty: int,
    alive: bool,
)
    requires
        store_ok(s),
        0 <= i < s.len(),
        0 <= r < s.len(),
        1 <= lv(s, i),
        lv(s, r) == lv(s, i),
        qx == 0 || qx == 1,
        qy == 0 || qy == 1,
        !(qx == 0 && qy == 0) ==> ka(s, r) == ka(s, i),
        !(qx == 1 && qy == 0) ==> kb(s, r) == kb(s, i),
        !(qx == 0 && qy == 1) ==> kc(s, r) == kc(s, i),
        !(qx == 1 && qy == 1) ==> kd(s, r) == kd(s, i),
        kid_at(s, r, qx, qy) == nk,
        qx * half(lv(s, i)) <= tx < (qx + 1) * half(lv(s, i)),
        qy * half(lv(s, i)) <= ty < (qy + 1) * half(lv(s, i)),
        forall|u: int, v: int|
            in_sq(lv(s, i) - 1, u, v) ==> #[trigger] cell(s, nk, u, v) == (if u == tx - qx * half(
                lv(s, i),
            ) && v == ty - qy * half(lv(s, i)) {
                alive
            } else {
                cell(s, kid_at(s, i, qx, qy), u, v)
            }),
    ensures
        forall|u: int, v: int|
            in_sq(lv(s, i), u, v) ==> #[trigger] cell(s, r, u, v) == (if u == tx && v == ty {
                alive
            } else {
                cell(s, i, u, v)
            }),
{
    let l = lv(s, i);
    let hh = half(l);
    lemma_side_half(l);
    assert(leaves_ok(s));
    assert(i >= 2 && r >= 2);
    assert(node_ok(s, i));
    assert(node_ok(s, r));
    assert forall|u: int, v: int| in_sq(l, u, v) implies #[trigger] cell(s, r, u, v) == (if u == tx
        && v == ty {
        alive
    } else {
        cell(s, i, u, v)
    }) by {
        let px: int = if u < hh {
            0int
        } else {
            1int
        };
        let py: int = if v < hh {
            0int
        } else {
            1int
        };
        assert(cell(s, r, u, v) == cell(s, kid_at(s, r, px, py), u - px * hh, v - py * hh));
        assert(cell(s, i, u, v) == cell(s, kid_at(s, i, px, py), u - px * hh, v - py * hh));
        if px == qx && py == qy {
            assert(in_sq(l - 1, u - px * hh, v - py * hh));
            assert(cell(s, nk, u - px * hh, v - py * hh) == (if u - px * hh == tx - qx * hh && v
                - py * hh == ty - qy * hh {
                alive
            } else {
                cell(s, kid_at(s, i, qx, qy), u - px * hh, v - py * hh)
            }));
        } else {
            assert(kid_at(s, r, px, py) == kid_at(s, i, px, py));
            assert(!(u == tx && v == ty));
        }
    }
}

/// Carry a `set_cell` recursion step over the final `join`, transferring
/// the child's guarantee from the intermediate store to the final one.
proof fn lemma_set_finish(
    s0: Seq<Node>,
    s1: Seq<Node>,
    s2: Seq<Node>,
    i: int,
    r: int,
    nk: int,
    qx: int,
    qy: int,
    tx: int,
    ty: int,
    alive: bool,
)
    requires
        store_ok(s0),
        store_ok(s2),
        extends(s0, s1),
        extends(s1, s2),
        0 <= i < s0.len(),
        0 <= nk < s1.len(),
        0 <= r < s2.len(),
        1 <= lv(s0, i),
        lv(s2, r) == lv(s0, i),
        lv(s1, nk as int) + 1 == lv(s0, i),
        qx == 0 || qx == 1,
        qy == 0 || qy == 1,
        !(qx == 0 && qy == 0) ==> ka(s2, r) == ka(s0, i),
        !(qx == 1 && qy == 0) ==> kb(s2, r) == kb(s0, i),
        !(qx == 0 && qy == 1) ==> kc(s2, r) == kc(s0, i),
        !(qx == 1 && qy == 1) ==> kd(s2, r) == kd(s0, i),
        kid_at(s2, r, qx, qy) == nk,
        qx * half(lv(s0, i)) <= tx < (qx + 1) * half(lv(s0, i)),
        qy * half(lv(s0, i)) <= ty < (qy + 1) * half(lv(s0, i)),
        lv(s0, i) == 1 ==> forall|u: int, v: int|
            in_sq(0, u, v) ==> #[trigger] cell(s1, nk, u, v) == alive,
        lv(s0, i) >= 2 ==> forall|u: int, v: int|
            in_sq(lv(s0, i) - 1, u, v) ==> #[trigger] cell(s1, nk, u, v) == (if u == tx - qx
                * half(lv(s0, i)) && v == ty - qy * half(lv(s0, i)) {
                alive
            } else {
                cell(s1, kid_at(s0, i, qx, qy), u, v)
            }),
    ensures
        forall|u: int, v: int|
            in_sq(lv(s0, i), u, v) ==> #[trigger] cell(s2, r, u, v) == (if u == tx && v == ty {
                alive
            } else {
                cell(s2, i, u, v)
            }),
{
    let l = lv(s0, i);
    assert(s2[i] == s0[i]);
    assert(lv(s2, i) == lv(s0, i));
    assert(node_ok(s0, i)) by {
        assert(leaves_ok(s0));
    }
    lemma_side_half(l);
    if l == 1 {
        assert(half(1) == 1) by {
            lemma2_to64();
        }
        assert(tx == qx && ty == qy);
    }
    assert forall|u: int, v: int| in_sq(lv(s2, i) - 1, u, v) implies #[trigger] cell(s2, nk, u, v)
        == (if u == tx - qx * half(lv(s2, i)) && v == ty - qy * half(lv(s2, i)) {
        alive
    } else {
        cell(s2, kid_at(s2, i, qx, qy), u, v)
    }) by {
        lemma_cell_extends(s1, s2, nk, u, v);
        assert(kid_at(s2, i, qx, qy) == kid_at(s0, i, qx, qy));
        assert(0 <= kid_at(s0, i, qx, qy) < s0.len());
        lemma_cell_extends(s1, s2, kid_at(s0, i, qx, qy), u, v);
        if l == 1 {
            assert(u == 0 && v == 0);
            assert(cell(s1, nk, u, v) == alive);
            assert(u == tx - qx * half(l) && v == ty - qy * half(l));
        } else {
            assert(cell(s1, nk, u, v) == (if u == tx - qx * half(lv(s0, i)) && v == ty - qy
                * half(lv(s0, i)) {
                alive
            } else {
                cell(s1, kid_at(s0, i, qx, qy), u, v)
            }));
        }
    }
    lemma_replace_kid(s2, r, i, nk, qx, qy, tx, ty, alive);
}

impl Life {
    /// List the absolute coordinates of every live cell of `i`, placing the
    /// node's north-west corner at `(ox, oy)`.  The result enumerates the
    /// live-cell set exactly — each listed point is live, every live cell is
    /// listed, there are no duplicates — and its length is the population.
    /// An all-dead subtree is skipped without descending into it.
    #[verifier::rlimit(100)]
    pub fn expand(&self, i: usize, ox: i64, oy: i64) -> (r: Vec<(i64, i64)>)
        requires
            self.wf(),
            self.valid(i as int),
            lv(self.nodes@, i as int) <= 62,
            -0x4000000000000000 <= ox as int,
            (ox as int) + side(lv(self.nodes@, i as int)) <= 0x4000000000000000,
            -0x4000000000000000 <= oy as int,
            (oy as int) + side(lv(self.nodes@, i as int)) <= 0x4000000000000000,
        ensures
            r@.len() == pp(self.nodes@, i as int),
            forall|t: int|
                0 <= t < r@.len() ==> ox as int <= (#[trigger] r@[t]).0 as int && ((r@[t].0 as int)
                    < (ox as int) + side(lv(self.nodes@, i as int))) && oy as int <= r@[t].1 as int
                    && ((r@[t].1 as int) < (oy as int) + side(lv(self.nodes@, i as int))) && cell(
                    self.nodes@,
                    i as int,
                    r@[t].0 as int - ox as int,
                    r@[t].1 as int - oy as int,
                ),
            forall|px: int, py: int|
                in_sq(lv(self.nodes@, i as int), px, py) && #[trigger] cell(
                    self.nodes@,
                    i as int,
                    px,
                    py,
                ) ==> r@.contains((((ox as int) + px) as i64, ((oy as int) + py) as i64)),
            forall|t1: int, t2: int| 0 <= t1 < t2 < r@.len() ==> r@[t1] != r@[t2],
        decreases i,
    {
        let ghost s = self.nodes@;
        let ghost l = lv(s, i as int);
        let n = self.nodes[i];
        if n.population == 0 {
            let r: Vec<(i64, i64)> = Vec::new();
            proof {
                assert forall|px: int, py: int|
                    in_sq(l, px, py) && #[trigger] cell(s, i as int, px, py) implies r@.contains(
                    (((ox as int) + px) as i64, ((oy as int) + py) as i64),
                ) by {
                    lemma_pop_zero(s, i as int, px, py);
                }
            }
            return r;
        }
        if n.level == 0 {
            proof {
                assert(leaves_ok(s));
                if i as int >= 2 {
                    assert(node_ok(s, i as int));
                }
                assert(i as int == 1);
            }
            let mut r: Vec<(i64, i64)> = Vec::new();
            r.push((ox, oy));
            proof {
                assert(side(0) == 1) by {
                    lemma2_to64();
                }
                assert(r@[0] == (ox, oy));
                assert forall|px: int, py: int|
                    in_sq(l, px, py) && #[trigger] cell(s, i as int, px, py) implies r@.contains(
                    (((ox as int) + px) as i64, ((oy as int) + py) as i64),
                ) by {
                    assert(px == 0 && py == 0);
                    assert((((ox as int) + px) as i64, ((oy as int) + py) as i64) == (ox, oy));
                }
            }
            return r;
        }
        proof {
            assert(node_ok(s, i as int));
            lemma_side_half(l);
            lemma_pop_exact(s, i as int);
        }
        let off = pow2_i64(n.level - 1);
        let mut ra = self.expand(n.a, ox, oy);
        let mut rb = self.expand(n.b, ox + off, oy);
        let mut rc = self.expand(n.c, ox, oy + off);
        let mut rd = self.expand(n.d, ox + off, oy + off);
        let ghost ga = ra@;
        let ghost gb = rb@;
        let ghost gc = rc@;
        let ghost gd = rd@;
        ra.append(&mut rb);
        ra.append(&mut rc);
        ra.append(&mut rd);
        proof {
            let g = ra@;
            let h = half(l);
            assert(g == ga + gb + gc + gd);
            assert(g.len() == ga.len() + gb.len() + gc.len() + gd.len());
            assert forall|t: int| 0 <= t < g.len() implies ox as int <= (#[trigger] g[t]).0 as int
                && ((g[t].0 as int) < (ox as int) + side(l)) && oy as int <= g[t].1 as int
                && ((g[t].1 as int) < (oy as int) + side(l)) && cell(
                s,
                i as int,
                (g[t].0 as int) - (ox as int),
                (g[t].1 as int) - (oy as int),
            ) by {
                let e = g[t];
                if t < ga.len() {
                    assert(e == ga[t]);
                    assert(cell(s, i as int, e.0 - ox, e.1 - oy) == cell(s, ka(s, i as int), e.0 - ox, e.1 - oy));
                } else if t < ga.len() + gb.len() {
                    assert(e == gb[t - ga.len()]);
                    assert(cell(s, i as int, e.0 - ox, e.1 - oy) == cell(s, kb(s, i as int), e.0 - ox - h, e.1 - oy));
                } else if t < ga.len() + gb.len() + gc.len() {
                    assert(e == gc[t - ga.len() - gb.len()]);
                    assert(cell(s, i as int, e.0 - ox, e.1 - oy) == cell(s, kc(s, i as int), e.0 - ox, e.1 - oy - h));
                } else {
                    assert(e == gd[t - ga.len() - gb.len() - gc.len()]);
                    assert(cell(s, i as int, e.0 - ox, e.1 - oy) == cell(s, kd(s, i as int), e.0 - ox - h, e.1 - oy - h));
                }
            }
            assert forall|px: int, py: int|
                in_sq(l, px, py) && #[trigger] cell(s, i as int, px, py) implies g.contains(
                (((ox as int) + px) as i64, ((oy as int) + py) as i64),
            ) by {
                let e = (((ox as int) + px) as i64, ((oy as int) + py) as i64);
                if px < h && py < h {
                    assert(cell(s, ka(s, i as int), px, py));
                    assert(in_sq(l - 1, px, py));
                    assert(ga.contains(e));
                    let t = choose|t: int| 0 <= t < ga.len() && ga[t] == e;
                    assert(g[t] == e);
                } else if py < h {
                    assert(cell(s, kb(s, i as int), px - h, py));
                    assert(in_sq(l - 1, px - h, py));
                    assert((((ox as int) + (off as int) + (px - h)) as i64, ((oy as int) + py) as i64) == e);
                    assert(gb.contains(e));
                    let t = choose|t: int| 0 <= t < gb.len() && gb[t] == e;
                    assert(g[ga.len() + t] == e);
                } else if px < h {
                    assert(cell(s, kc(s, i as int), px, py - h));
                    assert(in_sq(l - 1, px, py - h));
                    assert((((ox as int) + px) as i64, ((oy as int) + (off as int) + (py - h)) as i64) == e);
                    assert(gc.contains(e));
                    let t = choose|t: int| 0 <= t < gc.len() && gc[t] == e;
                    assert(g[ga.len() + gb.len() + t] == e);
                } else {
                    assert(cell(s, kd(s, i as int), px - h, py - h));
                    assert(in_sq(l - 1, px - h, py - h));
                    assert((((ox as int) + (off as int) + (px - h)) as i64, ((oy as int) + (off as int) + (py - h)) as i64) == e);
                    assert(gd.contains(e));
                    let t = choose|t: int| 0 <= t < gd.len() && gd[t] == e;
                    assert(g[ga.len() + gb.len() + gc.len() + t] == e);
                }
            }
            assert forall|t1: int, t2: int| 0 <= t1 < t2 < g.len() implies g[t1] != g[t2] by {
                let la = ga.len() as int;
                let lb = gb.len() as int;
                let lc = gc.len() as int;
                if t1 < la {
                    assert(g[t1] == ga[t1]);
                } else if t1 < la + lb {
                    assert(g[t1] == gb[t1 - la]);
                } else if t1 < la + lb + lc {
                    assert(g[t1] == gc[t1 - la - lb]);
                } else {
                    assert(g[t1] == gd[t1 - la - lb - lc]);
                }
                if t2 < la {
                    assert(g[t2] == ga[t2]);
                } else if t2 < la + lb {
                    assert(g[t2] == gb[t2 - la]);
                } else if t2 < la + lb + lc {
                    assert(g[t2] == gc[t2 - la - lb]);
                } else {
                    assert(g[t2] == gd[t2 - la - lb - lc]);
                }
            }
        }
        ra
    }
}

/// Where `construct` puts its input: `(ox, oy)` is the componentwise
/// minimum of the points, the node's live cells are exactly the points
/// translated so that the minimum lands `sh` cells in from the node's
/// north-west corner on both axes, and the node's level exceeds the
/// smallest level whose square holds the points' extent by at most the
/// padding margin — the tree is minimal up to that margin.
pub open spec fn construct_places(
    s: Seq<Node>,
    r: int,
    ps: Seq<(i64, i64)>,
    ox: int,
    oy: int,
    sh: int,
) -> bool {
    &&& 0 <= sh
    &&& forall|t: int|
        0 <= t < ps.len() ==> ox <= (#[trigger] ps[t]).0 as int && oy <= ps[t].1 as int && ((
        ps[t]).0 as int) - ox + sh < side(lv(s, r)) && ((ps[t]).1 as int) - oy + sh < side(
            lv(s, r),
        )
    &&& exists|t: int| 0 <= t < ps.len() && (#[trigger] ps[t]).0 as int == ox
    &&& exists|t: int| 0 <= t < ps.len() && (#[trigger] ps[t]).1 as int == oy
    &&& forall|u: int, v: int|
        in_sq(lv(s, r), u, v) ==> (#[trigger] cell(s, r, u, v) <==> exists|t: int|
            0 <= t < ps.len() && ((#[trigger] ps[t]).0 as int) - ox + sh == u && (
            ps[t].1 as int) - oy + sh == v)
    &&& exists|kf: int|
        #![trigger pow2(kf as nat)]
        {
            &&& 1 <= kf <= 57
            &&& lv(s, r) <= kf + 4
            &&& forall|t: int|
                0 <= t < ps.len() ==> ((#[trigger] ps[t]).0 as int) - ox < pow2(kf as nat) && ((
                ps[t]).1 as int) - oy < pow2(kf as nat)
            &&& (kf == 1 || exists|t: int|
                0 <= t < ps.len() && (((#[trigger] ps[t]).0 as int) - ox >= pow2((kf - 1) as nat)
                    || ((ps[t]).1 as int) - oy >= pow2((kf - 1) as nat)))
        }
}

/// The smallest level whose square is wider than `e`.
fn fit_level(e: i64) -> (k: u8)
    requires
        0 <= e < 0x100000000000000,
    ensures
        1 <= k <= 57,
        (e as int) < pow2(k as nat),
        k == 1 || pow2((k - 1) as nat) <= e as int,
{
    proof {
        lemma2_to64();
    }
    let mut k: u8 = 1;
    let mut p: i64 = 2;
    while p <= e
        invariant
            1 <= k <= 57,
            p as int == pow2(k as nat),
            0 <= e < 0x100000000000000,
            k == 1 || pow2((k - 1) as nat) <= e as int,
        decreases 57 - k,
    {
        proof {
            lemma_pow2_adds(k as nat, 1);
            lemma2_to64();
            lemma2_to64_rest();
            assert(k < 56) by {
                if k as nat > 56 {
                    lemma_pow2_strictly_increases(56, k as nat);
                }
                if k as nat >= 56 {
                    assert(pow2(k as nat) >= pow2(56));
                    assert(false);
                }
            }
        }
        p = p * 2;
        k += 1;
    }
    k
}

impl Life {
    /// Build the minimal padded quadtree holding exactly the given live
    /// cells.  The coordinates are normalized by their componentwise
    /// minimum, so only the shape of the set matters; duplicates are
    /// harmless.  An empty list yields a small all-dead node.
    #[verifier::rlimit(100)]
    pub fn construct(&mut self, pts: &Vec<(i64, i64)>) -> (r: usize)
        requires
            old(self).wf(),
            forall|t: int|
                0 <= t < pts@.len() ==> -0x80000000000000 < ((#[trigger] pts@[t]).0 as int)
                    < 0x80000000000000 && -0x80000000000000 < ((pts@[t]).1 as int)
                    < 0x80000000000000,
        ensures
            final(self).wf(),
            extends(old(self).nodes@, final(self).nodes@),
            final(self).valid(r as int),
            3 <= lv(final(self).nodes@, r as int) <= 62,
            is_padded_spec(final(self).nodes@, r as int),
            pts@.len() == 0 ==> pp(final(self).nodes@, r as int) == 0 && lv(
                final(self).nodes@,
                r as int,
            ) <= 5,
            pts@.len() > 0 ==> pp(final(self).nodes@, r as int) != 0,
            pts@.len() > 0 ==> exists|ox: int, oy: int, sh: int|
                #[trigger] construct_places(final(self).nodes@, r as int, pts@, ox, oy, sh),
    {
        if pts.len() == 0 {
            let z = self.get_zero(1);
            let r = self.pad(z);
            return r;
        }
        let mut minx: i64 = pts[0].0;
        let mut maxx: i64 = pts[0].0;
        let mut miny: i64 = pts[0].1;
        let mut maxy: i64 = pts[0].1;
        let mut t: usize = 1;
        while t < pts.len()
            invariant
                1 <= t <= pts@.len(),
                forall|w: int|
                    0 <= w < pts@.len() ==> -0x80000000000000 < ((#[trigger] pts@[w]).0 as int)
                        < 0x80000000000000 && -0x80000000000000 < ((pts@[w]).1 as int)
                        < 0x80000000000000,
                -0x80000000000000 < (minx as int) && (minx as int) < 0x80000000000000,
                -0x80000000000000 < (maxx as int) && (maxx as int) < 0x80000000000000,
                -0x80000000000000 < (miny as int) && (miny as int) < 0x80000000000000,
                -0x80000000000000 < (maxy as int) && (maxy as int) < 0x80000000000000,
                forall|w: int|
                    0 <= w < t ==> minx as int <= ((#[trigger] pts@[w]).0 as int) <= maxx as int
                        && miny as int <= ((pts@[w]).1 as int) <= maxy as int,
                exists|w: int| 0 <= w < t && ((#[trigger] pts@[w]).0 as int) == minx as int,
                exists|w: int| 0 <= w < t && ((#[trigger] pts@[w]).1 as int) == miny as int,
                exists|w: int| 0 <= w < t && ((#[trigger] pts@[w]).0 as int) == maxx as int,
                exists|w: int| 0 <= w < t && ((#[trigger] pts@[w]).1 as int) == maxy as int,
            decreases pts@.len() - t,
        {
            let p = pts[t];
            if p.0 < minx {
                minx = p.0;
            }
            if p.0 > maxx {
                maxx = p.0;
            }
            if p.1 < miny {
                miny = p.1;
            }
            if p.1 > maxy {
                maxy = p.1;
            }
            t += 1;
        }
        let ex: i64 = maxx - minx;
        let ey: i64 = maxy - miny;
        let e: i64 = if ex > ey {
            ex
        } else {
            ey
        };
        let k: u8 = fit_level(e);
        let hk: i64 = pow2_i64(k - 1);
        let ghost s00 = self.nodes@;
        let mut node: usize = self.get_zero(k);
        proof {
            lemma_side_half(k as int);
            lemma2_to64_rest();
            if (k as nat) < 57 {
                lemma_pow2_strictly_increases(k as nat, 57);
            }
            assert forall|u: int, v: int| in_sq(k as int, u, v) implies !cell(
                self.nodes@,
                node as int,
                u,
                v,
            ) by {
                lemma_pop_zero(self.nodes@, node as int, u, v);
            }
        }
        let mut t: usize = 0;
        while t < pts.len()
            invariant
                self.wf(),
                extends(s00, self.nodes@),
                self.valid(node as int),
                lv(self.nodes@, node as int) == k as int,
                1 <= k <= 57,
                hk as int == half(k as int),
                pow2(k as nat) == 2 * (hk as int),
                pow2(k as nat) <= 0x200000000000000,
                t <= pts@.len(),
                pts@.len() > 0,
                forall|w: int|
                    0 <= w < pts@.len() ==> 0 <= ((#[trigger] pts@[w]).0 as int) - (minx as int)
                        < pow2(k as nat) && 0 <= ((pts@[w]).1 as int) - (miny as int) < pow2(
                        k as nat,
                    ),
                forall|u: int, v: int|
                    in_sq(k as int, u, v) ==> (#[trigger] cell(self.nodes@, node as int, u, v)
                        <==> exists|w: int|
                        0 <= w < t && ((#[trigger] pts@[w]).0 as int) - (minx as int) == u && ((
                        pts@[w]).1 as int) - (miny as int) == v),
            decreases pts@.len() - t,
        {
            let p = pts[t];
            let nx: i64 = p.0 - minx;
            let ny: i64 = p.1 - miny;
            let ghost sa = self.nodes@;
            let ghost prev = node;
            let nd = self.set_cell(node, nx - hk, ny - hk, true);
            proof {
                lemma_cells_extend_all(sa, self.nodes@);
                let s = self.nodes@;
                assert forall|u: int, v: int| in_sq(k as int, u, v) implies (#[trigger] cell(
                    s,
                    nd as int,
                    u,
                    v,
                ) <==> exists|w: int|
                    0 <= w < t + 1 && ((#[trigger] pts@[w]).0 as int) - (minx as int) == u && ((
                    pts@[w]).1 as int) - (miny as int) == v) by {
                    assert(cell(s, nd as int, u, v) == (if u == (nx - hk) + half(k as int) && v
                        == (ny - hk) + half(k as int) {
                        true
                    } else {
                        cell(s, prev as int, u, v)
                    }));
                    assert(cell(s, prev as int, u, v) == cell(sa, prev as int, u, v));
                    if u == nx as int && v == ny as int {
                        assert(((pts@[t as int]).0 as int) - (minx as int) == u && ((
                        pts@[t as int]).1 as int) - (miny as int) == v);
                    }
                }
            }
            node = nd;
            t += 1;
        }
        let ghost sb = self.nodes@;
        let r = self.pad(node);
        proof {
            let s = self.nodes@;
            let ll = lv(s, r as int);
            let sh = half(ll) - half(k as int);
            lemma_cells_extend_all(sb, s);
            lemma_side_half(k as int);
            lemma_side_half(ll);
            assert(shifted_window(s, r as int, node as int, sh));
            assert(construct_places(s, r as int, pts@, minx as int, miny as int, sh)) by {
                assert forall|u: int, v: int| in_sq(ll, u, v) implies (#[trigger] cell(
                    s,
                    r as int,
                    u,
                    v,
                ) <==> exists|t2: int|
                    0 <= t2 < pts@.len() && ((#[trigger] pts@[t2]).0 as int) - (minx as int) + sh
                        == u && ((pts@[t2]).1 as int) - (miny as int) + sh == v) by {
                    assert(cell(s, r as int, u, v) == (sh <= u < sh + side(k as int) && sh <= v
                        < sh + side(k as int) && cell(s, node as int, u - sh, v - sh)));
                    if sh <= u < sh + side(k as int) && sh <= v < sh + side(k as int) {
                        assert(in_sq(k as int, u - sh, v - sh));
                        assert(cell(s, node as int, u - sh, v - sh) == cell(
                            sb,
                            node as int,
                            u - sh,
                            v - sh,
                        ));
                    } else {
                        if exists|t2: int|
                            0 <= t2 < pts@.len() && ((#[trigger] pts@[t2]).0 as int) - (
                            minx as int) + sh == u && ((pts@[t2]).1 as int) - (miny as int) + sh
                                == v {
                            let t2 = choose|t2: int|
                                0 <= t2 < pts@.len() && ((#[trigger] pts@[t2]).0 as int) - (
                                minx as int) + sh == u && ((pts@[t2]).1 as int) - (miny as int)
                                    + sh == v;
                            assert(0 <= ((pts@[t2]).0 as int) - (minx as int) < side(k as int));
                            assert(false);
                        }
                    }
                }
            }
            assert(pp(s, r as int) != 0) by {
                let u0 = ((pts@[0]).0 as int) - (minx as int) + sh;
                let v0 = ((pts@[0]).1 as int) - (miny as int) + sh;
                assert(in_sq(ll, u0, v0));
                assert(cell(s, r as int, u0, v0));
                if pp(s, r as int) == 0 {
                    lemma_pop_zero(s, r as int, u0, v0);
                }
            }
        }
        r
    }
}

impl Life {
    /// The bounding box of the live cells, in the node's own coordinates
    /// (north-west corner at the origin): the least and greatest live
    /// column and row, or `None` for an empty region.
    pub fn get_bounds(&self, i: usize) -> (r: Option<(i64, i64, i64, i64)>)
        requires
            self.wf(),
            self.valid(i as int),
            lv(self.nodes@, i as int) <= 62,
        ensures
            match r {
                None => pp(self.nodes@, i as int) == 0,
                Some(b) => {
                    &&& pp(self.nodes@, i as int) != 0
                    &&& forall|x: int, y: int|
                        in_sq(lv(self.nodes@, i as int), x, y) && #[trigger] cell(
                            self.nodes@,
                            i as int,
                            x,
                            y,
                        ) ==> b.0 as int <= x <= b.1 as int && b.2 as int <= y <= b.3 as int
                    &&& exists|x: int, y: int|
                        in_sq(lv(self.nodes@, i as int), x, y) && #[trigger] cell(
                            self.nodes@,
                            i as int,
                            x,
                            y,
                        ) && x == b.0 as int
                    &&& exists|x: int, y: int|
                        in_sq(lv(self.nodes@, i as int), x, y) && #[trigger] cell(
                            self.nodes@,
                            i as int,
                            x,
                            y,
                        ) && x == b.1 as int
                    &&& exists|x: int, y: int|
                        in_sq(lv(self.nodes@, i as int), x, y) && #[trigger] cell(
                            self.nodes@,
                            i as int,
                            x,
                            y,
                        ) && y == b.2 as int
                    &&& exists|x: int, y: int|
                        in_sq(lv(self.nodes@, i as int), x, y) && #[trigger] cell(
                            self.nodes@,
                            i as int,
                            x,
                            y,
                        ) && y == b.3 as int
                },
            },
    {
        let ghost ss = self.nodes@;
        let ghost l = lv(ss, i as int);
        proof {
            lemma2_to64_rest();
            if l < 62 {
                lemma_pow2_strictly_increases(l as nat, 62);
            }
        }
        let v = self.expand(i, 0, 0);
        if v.len() == 0 {
            return None;
        }
        let mut x0: i64 = v[0].0;
        let mut x1: i64 = v[0].0;
        let mut y0: i64 = v[0].1;
        let mut y1: i64 = v[0].1;
        let mut t: usize = 1;
        while t < v.len()
            invariant
                1 <= t <= v@.len(),
                forall|w: int|
                    0 <= w < t ==> x0 as int <= ((#[trigger] v@[w]).0 as int) <= x1 as int
                        && y0 as int <= ((v@[w]).1 as int) <= y1 as int,
                exists|w: int| 0 <= w < t && ((#[trigger] v@[w]).0 as int) == x0 as int,
                exists|w: int| 0 <= w < t && ((#[trigger] v@[w]).0 as int) == x1 as int,
                exists|w: int| 0 <= w < t && ((#[trigger] v@[w]).1 as int) == y0 as int,
                exists|w: int| 0 <= w < t && ((#[trigger] v@[w]).1 as int) == y1 as int,
            decreases v@.len() - t,
        {
            let p = v[t];
            if p.0 < x0 {
                x0 = p.0;
            }
            if p.0 > x1 {
                x1 = p.0;
            }
            if p.1 < y0 {
                y0 = p.1;
            }
            if p.1 > y1 {
                y1 = p.1;
            }
            t += 1;
        }
        proof {
            assert forall|x: int, y: int| in_sq(l, x, y) && #[trigger] cell(ss, i as int, x, y)
                implies x0 as int <= x <= x1 as int && y0 as int <= y <= y1 as int by {
                assert(0 <= x < pow2(62) && 0 <= y < pow2(62));
                assert(v@.contains(((0 + x) as i64, (0 + y) as i64)));
                let w = choose|w: int| 0 <= w < v@.len() && v@[w] == ((x as i64, y as i64));
                assert(((v@[w]).0 as int) == x && ((v@[w]).1 as int) == y);
            }
            let wa = choose|w: int| 0 <= w < v@.len() && ((#[trigger] v@[w]).0 as int) == x0 as int;
            assert(cell(ss, i as int, (v@[wa]).0 as int, (v@[wa]).1 as int));
            let wb = choose|w: int| 0 <= w < v@.len() && ((#[trigger] v@[w]).0 as int) == x1 as int;
            assert(cell(ss, i as int, (v@[wb]).0 as int, (v@[wb]).1 as int));
            let wc = choose|w: int| 0 <= w < v@.len() && ((#[trigger] v@[w]).1 as int) == y0 as int;
            assert(cell(ss, i as int, (v@[wc]).0 as int, (v@[wc]).1 as int));
            let wd = choose|w: int| 0 <= w < v@.len() && ((#[trigger] v@[w]).1 as int) == y1 as int;
            assert(cell(ss, i as int, (v@[wd]).0 as int, (v@[wd]).1 as int));
        }
        Some((x0, x1, y0, y1))
    }
}

/// Reading a constructed pattern back gives the input: if a node places a
/// point list as `construct` promises, and a coordinate list enumerates
/// that node's cells as `expand` promises — with the node's corner set to
/// the minimum shifted back by the placement — then the two lists hold
/// exactly the same points.
pub proof fn lemma_round_trip(
    s: Seq<Node>,
    r: int,
    ps: Seq<(i64, i64)>,
    ox: int,
    oy: int,
    sh: int,
    out: Seq<(i64, i64)>,
)
    requires
        store_ok(s),
        0 <= r < s.len(),
        construct_places(s, r, ps, ox, oy, sh),
        forall|t: int|
            0 <= t < out.len() ==> ox - sh <= (#[trigger] out[t]).0 as int && ((out[t].0 as int)
                < ox - sh + side(lv(s, r))) && oy - sh <= out[t].1 as int && ((out[t].1 as int)
                < oy - sh + side(lv(s, r))) && cell(
                s,
                r,
                (out[t].0 as int) - (ox - sh),
                (out[t].1 as int) - (oy - sh),
            ),
        forall|px: int, py: int|
            in_sq(lv(s, r), px, py) && #[trigger] cell(s, r, px, py) ==> out.contains(
                ((ox - sh + px) as i64, (oy - sh + py) as i64),
            ),
        -0x80000000000000 < ox - sh,
        ox - sh + side(lv(s, r)) < 0x80000000000000,
        -0x80000000000000 < oy - sh,
        oy - sh + side(lv(s, r)) < 0x80000000000000,
    ensures
        forall|p: (i64, i64)| #[trigger] out.contains(p) <==> ps.contains(p),
{
    assert forall|p: (i64, i64)| #[trigger] out.contains(p) implies ps.contains(p) by {
        let t = choose|t: int| 0 <= t < out.len() && out[t] == p;
        let u = (p.0 as int) - (ox - sh);
        let v = (p.1 as int) - (oy - sh);
        assert(cell(s, r, u, v));
        assert(in_sq(lv(s, r), u, v));
        let w = choose|w: int|
            0 <= w < ps.len() && ((#[trigger] ps[w]).0 as int) - ox + sh == u && (
            ps[w].1 as int) - oy + sh == v;
        assert(ps[w] == p);
        assert(ps.contains(p));
    }
    assert forall|p: (i64, i64)| #[trigger] ps.contains(p) implies out.contains(p) by {
        let w = choose|w: int| 0 <= w < ps.len() && ps[w] == p;
        let u = (p.0 as int) - ox + sh;
        let v = (p.1 as int) - oy + sh;
        assert(in_sq(lv(s, r), u, v));
        assert(cell(s, r, u, v));
        assert(((ox - sh + u) as i64, (oy - sh + v) as i64) == p);
    }
}

} // verus!
