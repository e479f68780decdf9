//! The engine: an owned context holding the node store and every cache.
//!
//! A [`Life`] value owns an append-only store of [`Node`]s together with the
//! hash-consing index, the per-level all-dead cache, and the successor memo
//! table.  Independent simulations use independent engines, so no state is
//! global.  `join` is the sole constructor of interior nodes: it looks the
//! four children up in the index and returns the one canonical node per
//! shape, which is what every deduplication and memoization guarantee of the
//! engine rests on.
//!
//! The index maps a 64-bit structural fingerprint to the bucket of node
//! indices bearing it.  Equal shapes always fall into the same bucket, and a
//! bucket is scanned with an exact field comparison before anything is
//! reused, so fingerprint collisions cost time but never correctness.

use vstd::prelude::*;

verus! {

use vstd::arithmetic::power2::pow2;
use vstd::arithmetic::power2::lemma_pow2_adds;
use vstd::arithmetic::power2::lemma_pow2_pos;
use vstd::hash_map::HashMapWithView;
use crate::node::Node;
use crate::node::DEAD;
use crate::node::lv;
use crate::node::pp;
use crate::node::ka;
use crate::node::kb;
use crate::node::kc;
use crate::node::kd;
use crate::node::sat2;
use crate::node::sat4;
use crate::node::node_ok;
use crate::node::same_shape;
use crate::node::store_ok;
use crate::node::extends;

/// The structural fingerprint of an interior node: a fixed mixing of the
/// level and the four child indices, reduced to 63 bits.  It is a pure
/// function of the shape, so equal shapes share a bucket.
#[verifier::opaque]
pub open spec fn mix(level: int, a: int, b: int, c: int, d: int) -> int {
    (a * 5131830419411 + b * 3758991985019 + c * 8973110871315 + d * 4318490180473 + level)
        % 0x8000000000000000
}

/// Fingerprint of the node stored at `i`.
pub open spec fn key_of(s: Seq<Node>, i: int) -> u64 {
    mix(lv(s, i), ka(s, i), kb(s, i), kc(s, i), kd(s, i)) as u64
}

/// Node `j` has exactly this level and these four children.
pub open spec fn is_shape(s: Seq<Node>, j: int, level: int, a: int, b: int, c: int, d: int) -> bool {
    &&& lv(s, j) == level
    &&& ka(s, j) == a
    &&& kb(s, j) == b
    &&& kc(s, j) == c
    &&& kd(s, j) == d
}

/// `i` occurs in the bucket `b`.
pub open spec fn seq_has_id(b: Seq<usize>, i: int) -> bool {
    exists|t: int| 0 <= t < b.len() && #[trigger] b[t] as int == i
}

/// Every entry of bucket `b` is an interior node bearing fingerprint `k`.
pub open spec fn bucket_ok(s: Seq<Node>, b: Seq<usize>, k: u64) -> bool {
    forall|t: int|
        0 <= t < b.len() ==> 2 <= #[trigger] b[t] as int && b[t] < s.len() && key_of(s, b[t] as int) == k
}

/// The hash-consing index is sound (buckets hold matching interior nodes)
/// and complete (every interior node is in its fingerprint's bucket).
pub open spec fn index_ok(s: Seq<Node>, m: Map<u64, Vec<usize>>) -> bool {
    &&& forall|k: u64| m.contains_key(k) ==> bucket_ok(s, (#[trigger] m[k])@, k)
    &&& forall|i: int|
        2 <= i < s.len() ==> m.contains_key(#[trigger] key_of(s, i)) && seq_has_id(
            m[key_of(s, i)]@,
            i,
        )
}

/// The all-dead cache: entry `t` is the canonical dead node of level `t`.
pub open spec fn zeros_ok(s: Seq<Node>, z: Seq<usize>) -> bool {
    &&& 1 <= z.len() <= 256
    &&& z[0] == 0
    &&& forall|t: int|
        0 <= t < z.len() ==> (#[trigger] z[t] as int) < s.len() && lv(s, z[t] as int) == t && pp(
            s,
            z[t] as int,
        ) == 0
}

/// One memoized successor result: advancing the keyed node by `2^j`
/// generations gave node `r`.
#[derive(Clone, Copy)]
pub struct MemoEntry {
    pub j: u8,
    pub r: usize,
}

/// Every memo entry points back into the store at the right level and
/// records a correct step result for its exponent.
pub open spec fn memo_bucket_ok(s: Seq<Node>, b: Seq<MemoEntry>, m: int) -> bool {
    forall|t: int|
        0 <= t < b.len() ==> (#[trigger] b[t].r as int) < s.len() && lv(s, b[t].r as int) + 1 == lv(
            s,
            m,
        ) && crate::succ::succ_rel(s, m, b[t].j as int, b[t].r as int)
}

/// The successor memo table: keys are node indices of level at least 2.
pub open spec fn memo_ok(s: Seq<Node>, m: Map<u64, Vec<MemoEntry>>) -> bool {
    forall|k: u64|
        #[trigger] m.contains_key(k) ==> (k as int) < s.len() && 2 <= lv(s, k as int)
            && memo_bucket_ok(s, m[k]@, k as int)
}

/// The engine: the node store and its three caches, plus memo-hit counters
/// that let a caller observe how much structure was reused.
pub struct Life {
    pub nodes: Vec<Node>,
    pub index: HashMapWithView<u64, Vec<usize>>,
    pub zeros: Vec<usize>,
    pub memo: HashMapWithView<u64, Vec<MemoEntry>>,
    pub hits: u64,
    pub misses: u64,
}

impl Life {
    /// The engine's invariant, established by `new` and preserved by every
    /// operation.  In particular it carries the population-additivity
    /// invariant of every node and the one-node-per-shape guarantee.
    pub open spec fn wf(self) -> bool {
        &&& store_ok(self.nodes@)
        &&& index_ok(self.nodes@, self.index@)
        &&& zeros_ok(self.nodes@, self.zeros@)
        &&& memo_ok(self.nodes@, self.memo@)
    }

    /// Node index `i` exists in the store.
    pub open spec fn valid(self, i: int) -> bool {
        0 <= i < self.nodes@.len()
    }

    /// A fresh engine holding only the two cell singletons.
    pub fn new() -> (r: Life)
        ensures
            r.wf(),
            r.nodes@.len() == 2,
    {
        let mut nodes: Vec<Node> = Vec::new();
        nodes.push(Node { level: 0, population: 0, a: 0, b: 0, c: 0, d: 0 });
        nodes.push(Node { level: 0, population: 1, a: 0, b: 0, c: 0, d: 0 });
        let mut zeros: Vec<usize> = Vec::new();
        zeros.push(DEAD);
        let r = Life {
            nodes,
            index: HashMapWithView::new(),
            zeros,
            memo: HashMapWithView::new(),
            hits: 0,
            misses: 0,
        };
        r
    }

    /// Number of nodes built so far (a measure of distinct structure seen).
    pub fn node_count(&self) -> (r: usize)
        ensures
            r == self.nodes@.len(),
    {
        self.nodes.len()
    }

    /// How often the successor memo table answered a query.
    pub fn cache_hits(&self) -> (r: u64)
        ensures
            r == self.hits,
    {
        self.hits
    }

    /// How often a successor had to be computed afresh.
    pub fn cache_misses(&self) -> (r: u64)
        ensures
            r == self.misses,
    {
        self.misses
    }

    /// Level of node `i`.
    pub fn level(&self, i: usize) -> (r: u8)
        requires
            self.valid(i as int),
        ensures
            r as int == lv(self.nodes@, i as int),
    {
        self.nodes[i].level
    }

    /// Population of node `i`: its number of live cells.
    pub fn population(&self, i: usize) -> (r: u128)
        requires
            self.valid(i as int),
        ensures
            r as int == pp(self.nodes@, i as int),
    {
        self.nodes[i].population
    }

    /// The structural signature of node `i`.  Because the store keeps one
    /// node per shape, the canonical index itself is a collision-free
    /// signature: equal signatures mean structurally equal regions.
    pub fn hash(&self, i: usize) -> (r: u64)
        requires
            self.valid(i as int),
        ensures
            r as int == i as int,
    {
        i as u64
    }

    /// The four children of an interior node, in the order north-west,
    /// north-east, south-west, south-east.  Level-0 nodes have no children,
    /// so they are excluded by contract.
    pub fn children(&self, i: usize) -> (r: (usize, usize, usize, usize))
        requires
            self.valid(i as int),
            lv(self.nodes@, i as int) >= 1,
        ensures
            r.0 as int == ka(self.nodes@, i as int),
            r.1 as int == kb(self.nodes@, i as int),
            r.2 as int == kc(self.nodes@, i as int),
            r.3 as int == kd(self.nodes@, i as int),
    {
        let n = self.nodes[i];
        (n.a, n.b, n.c, n.d)
    }

    /// Scan the bucket of the given fingerprint for a node of exactly this
    /// shape.  `None` means no such node exists anywhere in the store, by
    /// completeness of the index.
    fn find_join(&self, key: u64, nlevel: u8, a: usize, b: usize, c: usize, d: usize) -> (r: Option<
        usize,
    >)
        requires
            self.wf(),
            key as int == mix(nlevel as int, a as int, b as int, c as int, d as int),
        ensures
            match r {
                Some(x) => 2 <= x as int && (x as int) < self.nodes@.len() && is_shape(
                    self.nodes@,
                    x as int,
                    nlevel as int,
                    a as int,
                    b as int,
                    c as int,
                    d as int,
                ),
                None => forall|j: int|
                    2 <= j < self.nodes@.len() ==> !is_shape(
                        self.nodes@,
                        j,
                        nlevel as int,
                        a as int,
                        b as int,
                        c as int,
                        d as int,
                    ),
            },
    {
        let found: Option<&Vec<usize>> = self.index.get(&key);
        match found {
            None => {
                proof {
                    assert forall|j: int| 2 <= j < self.nodes@.len() implies !is_shape(
                        self.nodes@,
                        j,
                        nlevel as int,
                        a as int,
                        b as int,
                        c as int,
                        d as int,
                    ) by {
                        if is_shape(self.nodes@, j, nlevel as int, a as int, b as int, c as int, d as int) {
                            assert(key_of(self.nodes@, j) == key);
                            assert(self.index@.contains_key(key));
                        }
                    }
                }
                None
            },
            Some(bucket) => {
                let mut t: usize = 0;
                let blen: usize = bucket.len();
                while t < blen
                    invariant
                        self.wf(),
                        t <= blen,
                        blen == bucket@.len(),
                        bucket@ == self.index@[key]@,
                        self.index@.contains_key(key),
                        key as int == mix(nlevel as int, a as int, b as int, c as int, d as int),
                        forall|u: int|
                            0 <= u < t ==> !is_shape(
                                self.nodes@,
                                #[trigger] bucket@[u] as int,
                                nlevel as int,
                                a as int,
                                b as int,
                                c as int,
                                d as int,
                            ),
                    decreases blen - t,
                {
                    let cand: usize = bucket[t];
                    assert(bucket_ok(self.nodes@, bucket@, key));
                    assert(2 <= cand as int && (cand as int) < self.nodes@.len());
                    let n = self.nodes[cand];
                    if n.level == nlevel && n.a == a && n.b == b && n.c == c && n.d == d {
                        return Some(cand);
                    }
                    t += 1;
                }
                proof {
                    assert forall|j: int| 2 <= j < self.nodes@.len() implies !is_shape(
                        self.nodes@,
                        j,
                        nlevel as int,
                        a as int,
                        b as int,
                        c as int,
                        d as int,
                    ) by {
                        if is_shape(self.nodes@, j, nlevel as int, a as int, b as int, c as int, d as int) {
                            assert(key_of(self.nodes@, j) == key);
                            assert(seq_has_id(self.index@[key]@, j));
                            let u = choose|u: int|
                                0 <= u < bucket@.len() && #[trigger] bucket@[u] as int == j;
                            assert(!is_shape(
                                self.nodes@,
                                bucket@[u] as int,
                                nlevel as int,
                                a as int,
                                b as int,
                                c as int,
                                d as int,
                            ));
                        }
                    }
                }
                None
            },
        }
    }

    /// The sole construction primitive.  Given four existing children of
    /// equal level, return the canonical parent: the one and only node of
    /// that shape, reusing a stored node whenever the shape was ever built
    /// before and appending a fresh node otherwise.  The parent's level is
    /// one above the children's and its population is the (saturating) sum
    /// of theirs.
    #[verifier::rlimit(100)]
    pub fn join(&mut self, a: usize, b: usize, c: usize, d: usize) -> (r: usize)
        requires
            old(self).wf(),
            old(self).valid(a as int),
            old(self).valid(b as int),
            old(self).valid(c as int),
            old(self).valid(d as int),
            lv(old(self).nodes@, a as int) == lv(old(self).nodes@, b as int),
            lv(old(self).nodes@, a as int) == lv(old(self).nodes@, c as int),
            lv(old(self).nodes@, a as int) == lv(old(self).nodes@, d as int),
            lv(old(self).nodes@, a as int) < 255,
        ensures
            final(self).wf(),
            extends(old(self).nodes@, final(self).nodes@),
            final(self).nodes@.len() <= old(self).nodes@.len() + 1,
            2 <= r as int && (r as int) < final(self).nodes@.len(),
            is_shape(
                final(self).nodes@,
                r as int,
                lv(old(self).nodes@, a as int) + 1,
                a as int,
                b as int,
                c as int,
                d as int,
            ),
            pp(final(self).nodes@, r as int) == sat4(
                pp(old(self).nodes@, a as int),
                pp(old(self).nodes@, b as int),
                pp(old(self).nodes@, c as int),
                pp(old(self).nodes@, d as int),
            ),
            forall|j: int|
                2 <= j < old(self).nodes@.len() && #[trigger] is_shape(
                    old(self).nodes@,
                    j,
                    lv(old(self).nodes@, a as int) + 1,
                    a as int,
                    b as int,
                    c as int,
                    d as int,
                ) ==> j == r as int,
            final(self).zeros@ == old(self).zeros@,
            final(self).memo@ == old(self).memo@,
    {
        let nlevel: u8 = self.nodes[a].level + 1;
        let np: u128 = pop_add(
            pop_add(pop_add(self.nodes[a].population, self.nodes[b].population), self.nodes[c].population),
            self.nodes[d].population,
        );
        let key: u64 = mix_key(nlevel, a, b, c, d);
        match self.find_join(key, nlevel, a, b, c, d) {
            Some(x) => {
                proof {
                    assert(node_ok(self.nodes@, x as int));
                    assert forall|j: int|
                        2 <= j < self.nodes@.len() && #[trigger] is_shape(
                            self.nodes@,
                            j,
                            nlevel as int,
                            a as int,
                            b as int,
                            c as int,
                            d as int,
                        ) implies j == x as int by {
                        if j != x as int {
                            assert(same_shape(self.nodes@, j, x as int));
                        }
                    }
                }
                x
            },
            None => {
                let i: usize = self.nodes.len();
                let ghost s1 = self.nodes@;
                self.nodes.push(Node { level: nlevel, population: np, a, b, c, d });
                let ghost s2 = self.nodes@;
                proof {
                    assert(extends(s1, s2));
                    assert(node_ok(s2, i as int)) by {
                        lemma_kid_pop_bound(s1, a as int);
                        lemma_kid_pop_bound(s1, b as int);
                        lemma_kid_pop_bound(s1, c as int);
                        lemma_kid_pop_bound(s1, d as int);
                        lemma_pow2_adds((2 * (nlevel as int) - 2) as nat, 2);
                        lemma_pow2_pos((2 * (nlevel as int) - 2) as nat);
                        assert(pow2(2) == 4) by {
                            vstd::arithmetic::power2::lemma2_to64();
                        }
                    }
                    assert(store_ok(s2)) by {
                        assert forall|p: int| 2 <= p < s2.len() implies #[trigger] node_ok(s2, p) by {
                            if p < s1.len() {
                                assert(node_ok(s1, p));
                            }
                        }
                        assert forall|p: int, q: int|
                            2 <= p < s2.len() && 2 <= q < s2.len() && p != q implies !same_shape(
                            s2,
                            p,
                            q,
                        ) by {
                            if p < s1.len() && q < s1.len() {
                                assert(!same_shape(s1, p, q));
                            } else if p == i as int && q < s1.len() {
                                assert(!is_shape(s1, q, nlevel as int, a as int, b as int, c as int, d as int));
                            } else if q == i as int && p < s1.len() {
                                assert(!is_shape(s1, p, nlevel as int, a as int, b as int, c as int, d as int));
                            }
                        }
                    }
                }
                let ghost m0 = self.index@;
                let mut bvec: Vec<usize> = match self.index.remove(&key) {
                    Some(v) => v,
                    None => Vec::new(),
                };
                let ghost b1 = bvec@;
                let ghost m1 = self.index@;
                proof {
                    assert(m0.contains_key(key) ==> b1 == m0[key]@ && m1 == m0.remove(key));
                    assert(!m0.contains_key(key) ==> b1.len() == 0 && m1 == m0);
                }
                bvec.push(i);
                self.index.insert(key, bvec);
                proof {
                    let m2 = self.index@;
                    assert(key_of(s2, i as int) == key);
                    assert(m2[key]@ == b1.push(i));
                    assert forall|k: u64| k != key && #[trigger] m2.contains_key(k) implies m0.contains_key(
                        k,
                    ) && m2[k] == m0[k] by {}
                    assert forall|k: u64| k != key && #[trigger] m0.contains_key(k) implies m2.contains_key(
                        k,
                    ) && m2[k] == m0[k] by {}
                    assert(index_ok(s2, m2)) by {
                        assert forall|k: u64| m2.contains_key(k) implies bucket_ok(
                            s2,
                            (#[trigger] m2[k])@,
                            k,
                        ) by {
                            if k == key {
                                assert forall|t: int| 0 <= t < m2[k]@.len() implies 2 <= #[trigger] m2[k]@[t] as int
                                    && m2[k]@[t] < s2.len() && key_of(s2, m2[k]@[t] as int) == k by {
                                    if t < b1.len() {
                                        assert(m0.contains_key(key));
                                        assert(bucket_ok(s1, m0[key]@, key));
                                        assert(2 <= b1[t] as int && (b1[t] as int) < s1.len());
                                        assert(key_of(s1, b1[t] as int) == key);
                                        assert(s2[b1[t] as int] == s1[b1[t] as int]);
                                    }
                                }
                            } else {
                                assert(bucket_ok(s1, m0[k]@, k));
                                assert forall|t: int| 0 <= t < m2[k]@.len() implies 2 <= #[trigger] m2[k]@[t] as int
                                    && m2[k]@[t] < s2.len() && key_of(s2, m2[k]@[t] as int) == k by {
                                    assert(s2[m0[k]@[t] as int] == s1[m0[k]@[t] as int]);
                                }
                            }
                        }
                        assert forall|p: int| 2 <= p < s2.len() implies m2.contains_key(
                            #[trigger] key_of(s2, p),
                        ) && seq_has_id(m2[key_of(s2, p)]@, p) by {
                            if p == i as int {
                                assert(m2[key]@[b1.len() as int] as int == i as int);
                            } else {
                                assert(s2[p] == s1[p]);
                                assert(key_of(s2, p) == key_of(s1, p));
                                assert(m0.contains_key(key_of(s1, p)) && seq_has_id(
                                    m0[key_of(s1, p)]@,
                                    p,
                                ));
                                if key_of(s1, p) == key {
                                    let u = choose|u: int|
                                        0 <= u < b1.len() && #[trigger] b1[u] as int == p;
                                    assert(m2[key]@[u] as int == p);
                                } else {
                                    assert(m2[key_of(s1, p)] == m0[key_of(s1, p)]);
                                }
                            }
                        }
                    }
                    assert(zeros_ok(s1, self.zeros@));
                    assert(memo_ok(s1, self.memo@));
                    lemma_caches_extend(s1, s2, self.zeros@, self.memo@);
                }
                i
            },
        }
    }

    /// The canonical all-dead node of level `k`, built once per level and
    /// cached.  It is the one and only empty node of its level.
    pub fn get_zero(&mut self, k: u8) -> (r: usize)
        requires
            old(self).wf(),
        ensures
            final(self).wf(),
            extends(old(self).nodes@, final(self).nodes@),
            final(self).valid(r as int),
            lv(final(self).nodes@, r as int) == k as int,
            pp(final(self).nodes@, r as int) == 0,
            forall|j: int|
                0 <= j < final(self).nodes@.len() && lv(final(self).nodes@, j) == k as int && pp(
                    final(self).nodes@,
                    j,
                ) == 0 ==> j == r as int,
            final(self).memo@ == old(self).memo@,
    {
        while self.zeros.len() <= k as usize
            invariant
                self.wf(),
                extends(old(self).nodes@, self.nodes@),
                self.memo@ == old(self).memo@,
            decreases k as int + 1 - self.zeros@.len(),
        {
            let last: usize = self.zeros[self.zeros.len() - 1];
            let ghost s1 = self.nodes@;
            let z: usize = self.join(last, last, last, last);
            self.zeros.push(z);
            proof {
                let s2 = self.nodes@;
                let zs = self.zeros@;
                assert(zeros_ok(s2, zs)) by {
                    assert forall|t: int| 0 <= t < zs.len() implies (#[trigger] zs[t] as int)
                        < s2.len() && lv(s2, zs[t] as int) == t && pp(s2, zs[t] as int) == 0 by {
                        if t < zs.len() - 1 {
                            assert(s2[zs[t] as int] == s1[zs[t] as int]);
                        } else {
                            assert(zs[t] == z);
                        }
                    }
                }
                crate::node::lemma_extends_trans(old(self).nodes@, s1, s2);
            }
        }
        let r = self.zeros[k as usize];
        proof {
            assert forall|j: int|
                0 <= j < self.nodes@.len() && lv(self.nodes@, j) == k as int && pp(
                    self.nodes@,
                    j,
                ) == 0 implies j == r as int by {
                crate::cells::lemma_zero_unique(self.nodes@, j, r as int);
            }
        }
        r
    }
}

/// Add two populations, saturating at the counter's capacity.
fn pop_add(x: u128, y: u128) -> (r: u128)
    ensures
        r as int == sat2(x as int, y as int),
{
    if x <= u128::MAX - y {
        x + y
    } else {
        u128::MAX
    }
}

/// Compute the structural fingerprint of a shape.
fn mix_key(level: u8, a: usize, b: usize, c: usize, d: usize) -> (k: u64)
    ensures
        k as int == mix(level as int, a as int, b as int, c as int, d as int),
{
    proof {
        reveal(mix);
    }
    let s: u128 = (a as u128) * 5131830419411 + (b as u128) * 3758991985019 + (c as u128)
        * 8973110871315 + (d as u128) * 4318490180473 + (level as u128);
    (s % 0x8000000000000000u128) as u64
}

/// A child's population is bounded by the area of its region.
proof fn lemma_kid_pop_bound(s: Seq<Node>, i: int)
    requires
        store_ok(s),
        0 <= i < s.len(),
    ensures
        pp(s, i) <= pow2((2 * lv(s, i)) as nat),
{
    if i >= 2 {
        assert(node_ok(s, i));
    } else {
        lemma_pow2_pos((2 * lv(s, i)) as nat);
    }
}

/// Growing the store preserves the zero-cache and memo-table invariants.
pub proof fn lemma_caches_extend(
    s1: Seq<Node>,
    s2: Seq<Node>,
    z: Seq<usize>,
    m: Map<u64, Vec<MemoEntry>>,
)
    requires
        store_ok(s1),
        store_ok(s2),
        extends(s1, s2),
        zeros_ok(s1, z),
        memo_ok(s1, m),
    ensures
        zeros_ok(s2, z),
        memo_ok(s2, m),
{
    assert forall|t: int| 0 <= t < z.len() implies (#[trigger] z[t] as int) < s2.len() && lv(
        s2,
        z[t] as int,
    ) == t && pp(s2, z[t] as int) == 0 by {
        assert(s2[z[t] as int] == s1[z[t] as int]);
    }
    assert forall|k: u64| #[trigger] m.contains_key(k) implies (k as int) < s2.len() && 2 <= lv(
        s2,
        k as int,
    ) && memo_bucket_ok(s2, m[k]@, k as int) by {
        let bk = m[k];
        assert((k as int) < s1.len());
        assert(s2[k as int] == s1[k as int]);
        assert(memo_bucket_ok(s1, m[k]@, k as int));
        assert forall|t: int| 0 <= t < m[k]@.len() implies (#[trigger] m[k]@[t].r as int)
            < s2.len() && lv(s2, m[k]@[t].r as int) + 1 == lv(s2, k as int)
            && crate::succ::succ_rel(s2, k as int, m[k]@[t].j as int, m[k]@[t].r as int) by {
            assert(s2[m[k]@[t].r as int] == s1[m[k]@[t].r as int]);
            crate::succ::lemma_succ_rel_extends(s1, s2, k as int, m[k]@[t].j as int, m[k]@[t].r as int);
        }
    }
}

/// Population additivity: for every interior node the population is the sum
/// of the four children's populations (saturating only at counts no real
/// pattern can reach; below level 64 the sum is exact).
pub proof fn lemma_population_additive(s: Seq<Node>, i: int)
    requires
        store_ok(s),
        2 <= i < s.len(),
    ensures
        pp(s, i) == sat4(
            pp(s, ka(s, i)),
            pp(s, kb(s, i)),
            pp(s, kc(s, i)),
            pp(s, kd(s, i)),
        ),
        lv(s, i) <= 63 ==> pp(s, i) == pp(s, ka(s, i)) + pp(s, kb(s, i)) + pp(s, kc(s, i)) + pp(
            s,
            kd(s, i),
        ),
{
    assert(node_ok(s, i));
    if lv(s, i) <= 63 {
        crate::cells::lemma_pop_exact(s, i);
    }
}

} // verus!
