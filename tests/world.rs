use life::world::{Cell, World, SEED_ODDS};
use std::collections::HashSet;

fn draws_for(width: usize, height: usize, cells: &[Cell]) -> Vec<bool> {
    let mut draws = vec![false; width * height];
    for &(x, y) in cells {
        draws[x * height + y] = true;
    }
    draws
}

fn world_with(width: usize, height: usize, cells: &[Cell]) -> World {
    let mut w = World::new((width, height));
    w.seed_from(&draws_for(width, height, cells));
    w
}

fn live(w: &World) -> HashSet<Cell> {
    w.live_cells().into_iter().collect()
}

fn set(cells: &[Cell]) -> HashSet<Cell> {
    cells.iter().cloned().collect()
}

#[test]
fn new_world_is_empty() {
    let w = World::new((7, 4));
    assert_eq!(w.width(), 7);
    assert_eq!(w.height(), 4);
    assert!(w.live_cells().is_empty());
}

#[test]
fn corner_has_three_neighbors() {
    let w = World::new((5, 5));
    let n = w.neighbors(&(0, 0));
    assert_eq!(n.len(), 3);
    assert_eq!(n.into_iter().collect::<HashSet<Cell>>(), set(&[(1, 0), (0, 1), (1, 1)]));
    assert_eq!(w.neighbors(&(4, 4)).len(), 3);
    assert_eq!(w.neighbors(&(4, 0)).len(), 3);
    assert_eq!(w.neighbors(&(0, 4)).len(), 3);
}

#[test]
fn edge_has_five_neighbors() {
    let w = World::new((5, 5));
    assert_eq!(w.neighbors(&(2, 0)).len(), 5);
    assert_eq!(w.neighbors(&(0, 2)).len(), 5);
    assert_eq!(w.neighbors(&(4, 3)).len(), 5);
    assert_eq!(w.neighbors(&(1, 4)).len(), 5);
    let n: HashSet<Cell> = w.neighbors(&(2, 4)).into_iter().collect();
    assert_eq!(n, set(&[(1, 4), (3, 4), (1, 3), (2, 3), (3, 3)]));
}

#[test]
fn interior_has_eight_neighbors() {
    let w = World::new((5, 5));
    let n: HashSet<Cell> = w.neighbors(&(2, 2)).into_iter().collect();
    assert_eq!(
        n,
        set(&[(1, 1), (2, 1), (3, 1), (1, 2), (3, 2), (1, 3), (2, 3), (3, 3)])
    );
}

#[test]
fn neighbors_stay_in_a_narrow_grid() {
    let w = World::new((1, 3));
    let n: HashSet<Cell> = w.neighbors(&(0, 1)).into_iter().collect();
    assert_eq!(n, set(&[(0, 0), (0, 2)]));
    let single = World::new((1, 1));
    assert!(single.neighbors(&(0, 0)).is_empty());
}

#[test]
fn neighbor_count_splits_live_and_dead() {
    let w = world_with(5, 5, &[(1, 1), (2, 1), (4, 4)]);
    let (living, dead) = w.neighbor_count(&(1, 2));
    assert_eq!(living.into_iter().collect::<HashSet<Cell>>(), set(&[(1, 1), (2, 1)]));
    assert_eq!(
        dead.into_iter().collect::<HashSet<Cell>>(),
        set(&[(0, 1), (0, 2), (2, 2), (0, 3), (1, 3), (2, 3)])
    );
}

#[test]
fn block_is_still() {
    let block = [(2, 2), (3, 2), (2, 3), (3, 3)];
    let mut w = world_with(6, 6, &block);
    w.step();
    assert_eq!(live(&w), set(&block));
    let mut small = world_with(5, 5, &block);
    small.step();
    assert_eq!(live(&small), set(&block));
}

#[test]
fn blinker_oscillates() {
    let horizontal = [(1, 2), (2, 2), (3, 2)];
    let vertical = [(2, 1), (2, 2), (2, 3)];
    let mut w = world_with(5, 5, &horizontal);
    w.step();
    assert_eq!(live(&w), set(&vertical));
    w.step();
    assert_eq!(live(&w), set(&horizontal));
}

#[test]
fn lone_cell_dies() {
    let mut w = world_with(5, 5, &[(2, 2)]);
    w.step();
    assert!(w.live_cells().is_empty());
    let mut corner = world_with(5, 5, &[(0, 0)]);
    corner.step();
    assert!(corner.live_cells().is_empty());
}

#[test]
fn crowded_cell_dies() {
    // the centre has four live neighbours
    let mut w = world_with(5, 5, &[(2, 2), (1, 1), (3, 1), (1, 3), (3, 3)]);
    w.step();
    assert!(!w.is_alive((2, 2)));
    assert_eq!(live(&w), set(&[(2, 1), (1, 2), (3, 2), (2, 3)]));
}

#[test]
fn birth_with_three_neighbors() {
    let mut w = world_with(4, 4, &[(0, 0), (1, 0), (0, 1)]);
    w.step();
    assert_eq!(live(&w), set(&[(0, 0), (1, 0), (0, 1), (1, 1)]));
}

#[test]
fn step_respects_borders() {
    // a blinker against the top edge loses its arms without wrapping round
    let mut w = world_with(5, 5, &[(1, 0), (2, 0), (3, 0)]);
    w.step();
    assert_eq!(live(&w), set(&[(2, 0), (2, 1)]));
}

#[test]
fn step_is_deterministic() {
    let cells = [(0, 0), (1, 0), (2, 1), (4, 4), (3, 3), (3, 4), (1, 2)];
    let mut a = world_with(6, 5, &cells);
    let mut b = world_with(6, 5, &cells);
    a.step();
    b.step();
    assert_eq!(live(&a), live(&b));
    assert_eq!(
        live(&a),
        set(&[(0, 1), (1, 0), (2, 1), (2, 2), (2, 3), (3, 3), (3, 4), (4, 3), (4, 4)])
    );
}

#[test]
fn empty_world_stays_empty() {
    let mut w = World::new((3, 3));
    w.step();
    assert!(w.live_cells().is_empty());
}

#[test]
fn seeding_is_reproducible_and_forgets() {
    let draws = draws_for(4, 3, &[(0, 0), (3, 2), (1, 1)]);
    let mut a = world_with(4, 3, &[(2, 2), (2, 1)]);
    a.seed_from(&draws);
    let mut b = World::new((4, 3));
    b.seed_from(&draws);
    assert_eq!(live(&a), live(&b));
    assert_eq!(live(&a), set(&[(0, 0), (3, 2), (1, 1)]));
    assert!(!a.is_alive((2, 2)));
}

#[test]
fn seeding_uses_column_order() {
    let mut draws = vec![false; 6];
    draws[1] = true;
    draws[4] = true;
    let mut w = World::new((3, 2));
    w.seed_from(&draws);
    assert_eq!(live(&w), set(&[(0, 1), (2, 0)]));
}

#[test]
fn random_seeding_stays_in_bounds() {
    let mut w = world_with(20, 10, &[(5, 5)]);
    assert_eq!(w.random_draws().len(), 200);
    w.gen();
    assert_eq!(w.width(), 20);
    assert_eq!(w.height(), 10);
    let cells = w.live_cells();
    let unique: HashSet<Cell> = cells.iter().cloned().collect();
    assert_eq!(unique.len(), cells.len());
    for (x, y) in cells {
        assert!(x < 20 && y < 10);
    }
    assert_eq!(SEED_ODDS, 30);
}

#[test]
fn random_seeding_is_sparse() {
    let mut w = World::new((100, 100));
    w.gen();
    let n = w.live_cells().len();
    assert!(n > 100 && n < 1000, "{} live cells", n);
}
