//! Building trees from points and reading them back.

use hashlife::Life;

fn sorted(mut v: Vec<(i64, i64)>) -> Vec<(i64, i64)> {
    v.sort();
    v
}

fn normalized(v: &[(i64, i64)]) -> Vec<(i64, i64)> {
    if v.is_empty() {
        return Vec::new();
    }
    let minx = v.iter().map(|p| p.0).min().unwrap();
    let miny = v.iter().map(|p| p.1).min().unwrap();
    sorted(v.iter().map(|p| (p.0 - minx, p.1 - miny)).collect())
}

#[test]
fn construct_expand_round_trip() {
    // Reading a constructed pattern back gives exactly the input points,
    // up to the consistent translation construct applies.
    let mut life = Life::new();
    let pts = vec![(3i64, -4i64), (0, 0), (-7, 5), (2, 2), (-7, -4)];
    let node = life.construct(&pts);
    let out = life.expand(node, 0, 0);
    assert_eq!(normalized(&out), normalized(&pts));
    assert_eq!(out.len() as u128, life.population(node));
}

#[test]
fn construct_empty_input() {
    let mut life = Life::new();
    let node = life.construct(&Vec::new());
    assert_eq!(life.population(node), 0);
    assert!(life.expand(node, 0, 0).is_empty());
}

#[test]
fn construct_single_point() {
    let mut life = Life::new();
    let node = life.construct(&vec![(40i64, -3i64)]);
    assert_eq!(life.population(node), 1);
    assert_eq!(normalized(&life.expand(node, 0, 0)), vec![(0, 0)]);
}

#[test]
fn construct_ignores_duplicates() {
    let mut life = Life::new();
    let pts = vec![(1i64, 1i64), (2, 1), (1, 1), (2, 1), (1, 1)];
    let node = life.construct(&pts);
    assert_eq!(life.population(node), 2);
}

#[test]
fn expand_has_no_duplicates() {
    let mut life = Life::new();
    let pts = vec![(0i64, 0i64), (1, 0), (0, 1), (1, 1), (5, 5)];
    let node = life.construct(&pts);
    let out = life.expand(node, 100, 200);
    let mut seen = out.clone();
    seen.sort();
    seen.dedup();
    assert_eq!(seen.len(), out.len());
    assert_eq!(out.len(), 5);
}

#[test]
fn expand_offsets_by_origin() {
    let mut life = Life::new();
    let pts = vec![(0i64, 0i64), (1, 2)];
    let node = life.construct(&pts);
    let base = life.expand(node, 0, 0);
    let moved = life.expand(node, 10, -20);
    let shifted: Vec<(i64, i64)> = base.iter().map(|p| (p.0 + 10, p.1 - 20)).collect();
    assert_eq!(sorted(moved), sorted(shifted));
}

#[test]
fn set_cell_and_is_alive_agree() {
    let mut life = Life::new();
    let mut node = life.get_zero(4);
    assert!(!life.is_alive(node, 0, 0));
    node = life.set_cell(node, 0, 0, true);
    node = life.set_cell(node, -3, 2, true);
    assert!(life.is_alive(node, 0, 0));
    assert!(life.is_alive(node, -3, 2));
    assert!(!life.is_alive(node, 2, -3));
    assert_eq!(life.population(node), 2);
    // Clearing a cell restores the previous pattern exactly.
    let cleared = life.set_cell(node, -3, 2, false);
    assert!(!life.is_alive(cleared, -3, 2));
    assert!(life.is_alive(cleared, 0, 0));
    assert_eq!(life.population(cleared), 1);
    // Setting an already-live cell changes nothing: same canonical node.
    let same = life.set_cell(node, 0, 0, true);
    assert_eq!(same, node);
}

#[test]
fn get_bounds_reports_extremes() {
    let mut life = Life::new();
    let pts = vec![(2i64, 3i64), (5, 3), (3, 8)];
    let node = life.construct(&pts);
    let (x0, x1, y0, y1) = life.get_bounds(node).unwrap();
    assert_eq!((x1 - x0, y1 - y0), (3, 5));
    // An empty region has no bounds.
    let z = life.get_zero(5);
    assert!(life.get_bounds(z).is_none());
}

#[test]
fn construct_far_from_origin() {
    let mut life = Life::new();
    let big = 1i64 << 50;
    let pts = vec![(big, -big), (big + 1, -big), (big, -big + 1)];
    let node = life.construct(&pts);
    assert_eq!(life.population(node), 3);
    assert_eq!(normalized(&life.expand(node, 0, 0)), vec![(0, 0), (0, 1), (1, 0)]);
}
