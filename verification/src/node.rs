//! The stored node record and the well-formedness of the node store.
//!
//! A node of `level` k describes a square region of side 2^k.  Level-0 nodes
//! are the two cell singletons, stored once and for all at the fixed indices
//! [`DEAD`] and [`ALIVE`].  Every other node has four children one level
//! below, named after the original quadrant layout: `a` = north-west,
//! `b` = north-east, `c` = south-west, `d` = south-east.

use vstd::prelude::*;

verus! {

use vstd::arithmetic::power2::pow2;

/// Index of the canonical dead cell (level 0, population 0).
pub const DEAD: usize = 0;

/// Index of the canonical live cell (level 0, population 1).
pub const ALIVE: usize = 1;

/// One immutable quadtree node, stored in the engine's append-only node store
/// and referred to by its index there.  `population` counts the live cells of
/// the whole region; the count is exact until it would exceed `u128::MAX`
/// (which a real pattern cannot reach) and saturates there.
#[derive(Clone, Copy)]
pub struct Node {
    pub level: u8,
    pub population: u128,
    pub a: usize,
    pub b: usize,
    pub c: usize,
    pub d: usize,
}

/// Level of node `i`, as an integer.
pub open spec fn lv(s: Seq<Node>, i: int) -> int {
    s[i].level as int
}

/// Population of node `i`, as an integer.
pub open spec fn pp(s: Seq<Node>, i: int) -> int {
    s[i].population as int
}

/// North-west child of node `i`.
pub open spec fn ka(s: Seq<Node>, i: int) -> int {
    s[i].a as int
}

/// North-east child of node `i`.
pub open spec fn kb(s: Seq<Node>, i: int) -> int {
    s[i].b as int
}

/// South-west child of node `i`.
pub open spec fn kc(s: Seq<Node>, i: int) -> int {
    s[i].c as int
}

/// South-east child of node `i`.
pub open spec fn kd(s: Seq<Node>, i: int) -> int {
    s[i].d as int
}

/// Addition of two populations, saturating at `u128::MAX`.
pub open spec fn sat2(x: int, y: int) -> int {
    if x + y > u128::MAX { u128::MAX as int } else { x + y }
}

/// The population of a parent: the saturating sum of its four children's.
pub open spec fn sat4(w: int, x: int, y: int, z: int) -> int {
    sat2(sat2(sat2(w, x), y), z)
}

/// The two cell singletons sit at indices 0 and 1 with fixed contents.
pub open spec fn leaves_ok(s: Seq<Node>) -> bool {
    &&& s.len() >= 2
    &&& s[0].level == 0 && s[0].population == 0
    &&& s[0].a == 0 && s[0].b == 0 && s[0].c == 0 && s[0].d == 0
    &&& s[1].level == 0 && s[1].population == 1
    &&& s[1].a == 0 && s[1].b == 0 && s[1].c == 0 && s[1].d == 0
}

/// An interior node: four earlier-built children one level down, population
/// equal to the (saturating) sum of theirs and bounded by the region's area.
pub open spec fn node_ok(s: Seq<Node>, i: int) -> bool {
    &&& 1 <= lv(s, i)
    &&& 0 <= ka(s, i) < i && 0 <= kb(s, i) < i && 0 <= kc(s, i) < i && 0 <= kd(s, i) < i
    &&& lv(s, ka(s, i)) + 1 == lv(s, i)
    &&& lv(s, kb(s, i)) + 1 == lv(s, i)
    &&& lv(s, kc(s, i)) + 1 == lv(s, i)
    &&& lv(s, kd(s, i)) + 1 == lv(s, i)
    &&& pp(s, i) == sat4(pp(s, ka(s, i)), pp(s, kb(s, i)), pp(s, kc(s, i)), pp(s, kd(s, i)))
    &&& pp(s, i) <= pow2((2 * lv(s, i)) as nat)
}

/// Two interior nodes with the same level and the same four children.
pub open spec fn same_shape(s: Seq<Node>, i: int, j: int) -> bool {
    &&& lv(s, i) == lv(s, j)
    &&& ka(s, i) == ka(s, j)
    &&& kb(s, i) == kb(s, j)
    &&& kc(s, i) == kc(s, j)
    &&& kd(s, i) == kd(s, j)
}

/// Well-formedness of the node store: fixed leaves, well-formed interior
/// nodes, and at most one node per shape (the hash-consing invariant).
pub open spec fn store_ok(s: Seq<Node>) -> bool {
    &&& leaves_ok(s)
    &&& forall|i: int| 2 <= i < s.len() ==> #[trigger] node_ok(s, i)
    &&& forall|i: int, j: int|
        2 <= i < s.len() && 2 <= j < s.len() && i != j ==> !same_shape(s, i, j)
}

/// The store only ever grows, and existing nodes never change.
pub open spec fn extends(s1: Seq<Node>, s2: Seq<Node>) -> bool {
    &&& s1.len() <= s2.len()
    &&& forall|i: int| 0 <= i < s1.len() ==> s2[i] == s1[i]
}

/// `extends` is transitive.
pub proof fn lemma_extends_trans(s1: Seq<Node>, s2: Seq<Node>, s3: Seq<Node>)
    requires
        extends(s1, s2),
        extends(s2, s3),
    ensures
        extends(s1, s3),
{
}

} // verus!
