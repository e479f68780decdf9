//! The store and its canonicalization guarantees.

use hashlife::Life;
use hashlife::ALIVE;
use hashlife::DEAD;

#[test]
fn leaves_exist() {
    let life = Life::new();
    assert_eq!(life.level(DEAD), 0);
    assert_eq!(life.level(ALIVE), 0);
    assert_eq!(life.population(DEAD), 0);
    assert_eq!(life.population(ALIVE), 1);
}

#[test]
fn join_is_canonical() {
    // Joining the same four children twice yields the identical node.
    let mut life = Life::new();
    let n1 = life.join(ALIVE, DEAD, DEAD, ALIVE);
    let n2 = life.join(ALIVE, DEAD, DEAD, ALIVE);
    assert_eq!(n1, n2);
    let other = life.join(DEAD, ALIVE, DEAD, ALIVE);
    assert_ne!(n1, other);
    let again = life.join(ALIVE, DEAD, DEAD, ALIVE);
    assert_eq!(n1, again);
}

#[test]
fn join_levels_and_population() {
    let mut life = Life::new();
    let n = life.join(ALIVE, ALIVE, DEAD, ALIVE);
    assert_eq!(life.level(n), 1);
    assert_eq!(life.population(n), 3);
    let p = life.join(n, n, n, n);
    assert_eq!(life.level(p), 2);
    assert_eq!(life.population(p), 12);
}

#[test]
fn population_is_additive() {
    // The population of every interior node equals the sum of its
    // children's populations.
    let mut life = Life::new();
    let pts = vec![(0i64, 0i64), (3, 1), (2, 2), (1, 3), (3, 3)];
    let node = life.construct(&pts);
    let mut stack = vec![node];
    while let Some(n) = stack.pop() {
        if life.level(n) > 0 {
            let (a, b, c, d) = life.children(n);
            let sum = life.population(a) + life.population(b) + life.population(c)
                + life.population(d);
            assert_eq!(life.population(n), sum);
            stack.push(a);
            stack.push(b);
            stack.push(c);
            stack.push(d);
        }
    }
}

#[test]
fn zero_cache_is_canonical() {
    let mut life = Life::new();
    let z3 = life.get_zero(3);
    let z3b = life.get_zero(3);
    assert_eq!(z3, z3b);
    assert_eq!(life.level(z3), 3);
    assert_eq!(life.population(z3), 0);
    // The all-dead node of a level is unique: joining four dead level-2
    // nodes gives the cached level-3 zero.
    let z2 = life.get_zero(2);
    let joined = life.join(z2, z2, z2, z2);
    assert_eq!(joined, z3);
}

#[test]
fn construct_twice_shares_structure() {
    // Two structurally equal patterns built independently are the same
    // canonical node.
    let mut life = Life::new();
    let pts = vec![(5i64, 5i64), (6, 5), (7, 5)];
    let n1 = life.construct(&pts);
    let n2 = life.construct(&pts);
    assert_eq!(n1, n2);
    // The same shape somewhere else normalizes to the same node too.
    let moved = vec![(105i64, -55i64), (106, -55), (107, -55)];
    let n3 = life.construct(&moved);
    assert_eq!(n1, n3);
}

#[test]
fn signature_matches_identity() {
    let mut life = Life::new();
    let pts = vec![(0i64, 0i64), (1, 0)];
    let n = life.construct(&pts);
    assert_eq!(life.hash(n), n as u64);
}
