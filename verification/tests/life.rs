//! Behaviour of the step algorithm on classic small patterns.

use hashlife::Life;
use hashlife::ALIVE;
use hashlife::DEAD;

/// The live-cell set of a node, translated so its minimum is (0, 0) and
/// sorted, so that two nodes holding the same pattern compare equal no
/// matter where the engine placed it.
fn shape(life: &Life, node: usize) -> Vec<(i64, i64)> {
    let v = life.expand(node, 0, 0);
    if v.is_empty() {
        return v;
    }
    let minx = v.iter().map(|p| p.0).min().unwrap();
    let miny = v.iter().map(|p| p.1).min().unwrap();
    let mut out: Vec<(i64, i64)> = v.iter().map(|p| (p.0 - minx, p.1 - miny)).collect();
    out.sort();
    out
}

fn sorted(mut v: Vec<(i64, i64)>) -> Vec<(i64, i64)> {
    v.sort();
    v
}

#[test]
fn blinker_oscillates() {
    // A horizontal blinker becomes vertical after one generation and
    // returns to itself after two.
    let mut life = Life::new();
    let horizontal = vec![(0i64, 1i64), (1, 1), (2, 1)];
    let node = life.construct(&horizontal);
    let one = life.advance(node, 1);
    assert_eq!(shape(&life, one), vec![(0, 0), (0, 1), (0, 2)]);
    let two = life.advance(node, 2);
    assert_eq!(shape(&life, two), vec![(0, 0), (1, 0), (2, 0)]);
    assert_eq!(shape(&life, two), shape(&life, node));
}

#[test]
fn block_is_still() {
    let mut life = Life::new();
    let block = vec![(0i64, 0i64), (1, 0), (0, 1), (1, 1)];
    let node = life.construct(&block);
    let later = life.advance(node, 7);
    assert_eq!(shape(&life, later), shape(&life, node));
}

#[test]
fn glider_period_four() {
    // After four generations a glider is the same shape again (having
    // drifted diagonally), and in between it is not.
    let mut life = Life::new();
    let glider = vec![(1i64, 0i64), (2, 1), (0, 2), (1, 2), (2, 2)];
    let node = life.construct(&glider);
    let g1 = life.advance(node, 1);
    assert_ne!(shape(&life, g1), shape(&life, node));
    let g4 = life.advance(node, 4);
    assert_eq!(shape(&life, g4), shape(&life, node));
}

#[test]
fn glider_translates_diagonally() {
    // Track absolute coordinates through one full-speed step: pad the
    // glider to a level-6 frame, step it by four generations, and compare
    // against the input cells translated by (1, 1).
    let mut life = Life::new();
    let glider = vec![(1i64, 0i64), (2, 1), (0, 2), (1, 2), (2, 2)];
    let mut node = life.construct(&glider);
    // Cells of `node` sit at the original coordinates plus s0 on each axis.
    let mut s0: i64 = (1 << (life.level(node) - 1)) - 2;
    while life.level(node) < 6 {
        s0 += 1 << (life.level(node) - 1);
        node = life.center(node);
    }
    let before = life.expand(node, -s0, -s0);
    assert_eq!(sorted(before), sorted(glider.clone()));
    // One step of 2^2 = 4 generations; the result is the central quadrant,
    // whose corner sits a quarter side in from the input's corner.
    let q: i64 = 1 << (life.level(node) - 2);
    let stepped = life.successor(node, Some(2));
    let after = life.expand(stepped, q - s0, q - s0);
    let expected: Vec<(i64, i64)> = glider.iter().map(|p| (p.0 + 1, p.1 + 1)).collect();
    assert_eq!(sorted(after), sorted(expected));
}

#[test]
fn lone_cell_dies() {
    // A single live cell has no neighbours, so one generation kills it and
    // the grid stays empty forever after.
    let mut life = Life::new();
    let node = life.construct(&vec![(0i64, 0i64)]);
    assert_eq!(life.population(node), 1);
    let one = life.advance(node, 1);
    assert_eq!(life.population(one), 0);
    assert!(life.expand(one, 0, 0).is_empty());
    let many = life.advance(node, 9);
    assert!(life.expand(many, 0, 0).is_empty());
}

#[test]
fn advance_adds_up_as_sets() {
    // Advancing by a and then by b shows the same pattern as advancing by
    // a + b in one go.
    let mut life = Life::new();
    let glider = vec![(1i64, 0i64), (2, 1), (0, 2), (1, 2), (2, 2)];
    let node = life.construct(&glider);
    let threefive = {
        let a = life.advance(node, 3);
        life.advance(a, 5)
    };
    let eight = life.advance(node, 8);
    assert_eq!(shape(&life, threefive), shape(&life, eight));
}

#[test]
fn advance_adds_up_as_canonical_nodes() {
    // The two routes do not just show the same cells: after the final
    // crop they are the identical canonical node.
    let mut life = Life::new();
    let blinker = vec![(0i64, 1i64), (1, 1), (2, 1)];
    let node = life.construct(&blinker);
    let a = life.advance(node, 3);
    let ab = life.advance(a, 5);
    let whole = life.advance(node, 8);
    assert_eq!(ab, whole);
}

#[test]
fn padding_is_idempotent() {
    let mut life = Life::new();
    let glider = vec![(1i64, 0i64), (2, 1), (0, 2), (1, 2), (2, 2)];
    let node = life.construct(&glider);
    let p1 = life.pad(node);
    let p2 = life.pad(p1);
    assert_eq!(p1, p2);
}

#[test]
fn crop_of_pad_keeps_cells() {
    let mut life = Life::new();
    let glider = vec![(1i64, 0i64), (2, 1), (0, 2), (1, 2), (2, 2)];
    let node = life.construct(&glider);
    let padded = life.pad(node);
    let cropped = life.crop(padded);
    assert_eq!(shape(&life, cropped), shape(&life, node));
    assert_eq!(life.population(cropped), life.population(node));
}

#[test]
fn memoization_reuses_repeated_blocks() {
    // A field of identical, well separated gliders advances with far
    // fewer fresh step computations than proportionally many lone
    // gliders would need, because equal sub-patterns share cache entries.
    let glider = [(1i64, 0i64), (2, 1), (0, 2), (1, 2), (2, 2)];
    let mut single = Life::new();
    let one = single.construct(&glider.to_vec());
    single.advance(one, 8);
    let single_misses = single.cache_misses();

    let mut field = Life::new();
    let mut pts: Vec<(i64, i64)> = Vec::new();
    for gx in 0..4i64 {
        for gy in 0..4i64 {
            for p in glider.iter() {
                pts.push((p.0 + 32 * gx, p.1 + 32 * gy));
            }
        }
    }
    let grid = field.construct(&pts);
    field.advance(grid, 8);
    assert!(field.cache_hits() > 0);
    // 16 gliders cost far less than 16 times one glider.
    assert!(field.cache_misses() < 16 * single_misses);
}

#[test]
fn rule_on_single_cells() {
    let e = Life::new();
    // A dead cell with exactly three live neighbours is born.
    assert_eq!(e.life(ALIVE, ALIVE, ALIVE, DEAD, DEAD, DEAD, DEAD, DEAD, DEAD), ALIVE);
    // A live cell with two live neighbours survives.
    assert_eq!(e.life(ALIVE, ALIVE, DEAD, DEAD, ALIVE, DEAD, DEAD, DEAD, DEAD), ALIVE);
    // A live cell with one live neighbour dies.
    assert_eq!(e.life(ALIVE, DEAD, DEAD, DEAD, ALIVE, DEAD, DEAD, DEAD, DEAD), DEAD);
    // A live cell with four live neighbours dies.
    assert_eq!(e.life(ALIVE, ALIVE, ALIVE, ALIVE, ALIVE, DEAD, DEAD, DEAD, DEAD), DEAD);
    // A dead cell with two live neighbours stays dead.
    assert_eq!(e.life(ALIVE, ALIVE, DEAD, DEAD, DEAD, DEAD, DEAD, DEAD, DEAD), DEAD);
}

#[test]
fn successor_exponent_none_means_maximum() {
    // `None` and the level's maximum exponent are the same request, and
    // larger exponents clamp to it.
    let mut e = Life::new();
    let glider = vec![(1i64, 0i64), (2, 1), (0, 2), (1, 2), (2, 2)];
    let node = e.construct(&glider);
    let p = e.pad(node);
    let l = e.level(p);
    let full = e.successor(p, None);
    let same = e.successor(p, Some(l - 2));
    assert_eq!(full, same);
    let clamped = e.successor(p, Some(l));
    assert_eq!(full, clamped);
}

#[test]
fn ffwd_keeps_an_oscillator() {
    // Every ffwd round advances by a power of two of at least 2
    // generations, so a period-2 oscillator comes back to itself.
    let mut e = Life::new();
    let blinker = vec![(0i64, 1i64), (1, 1), (2, 1)];
    let node = e.construct(&blinker);
    let later = e.ffwd(node, 1);
    assert_eq!(e.population(later), 3);
    assert_eq!(shape(&e, later), shape(&e, node));
    let much_later = e.ffwd(node, 3);
    assert_eq!(shape(&e, much_later), shape(&e, node));
}
