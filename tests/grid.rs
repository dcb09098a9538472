use boid_sir::fixed::ONE;
use boid_sir::grid::SpatialHash;
use boid_sir::rng::Lcg;

fn points(seed: u32, n: usize, extent: i64) -> Vec<(i64, i64)> {
    let mut g = Lcg::new(seed);
    let mut v = Vec::new();
    for _ in 0..n {
        let x = (g.next_unit() as i64) * extent / ONE;
        let y = (g.next_unit() as i64) * extent / ONE;
        v.push((x.min(extent - 1), y.min(extent - 1)));
    }
    v
}

#[test]
fn grid_matches_brute_force_within_cell_size() {
    let cell = 20 * ONE;
    let pts = points(7, 400, 200 * ONE);
    let mut grid = SpatialHash::new(cell);
    for (i, &(x, y)) in pts.iter().enumerate() {
        grid.insert(i, x, y);
    }
    for radius in [cell, cell / 2, 3 * cell / 4] {
        for (q, &(qx, qy)) in pts.iter().enumerate().take(60) {
            let mut from_grid: Vec<usize> = grid
                .neighbors(qx, qy)
                .into_iter()
                .filter(|&j| {
                    let (x, y) = pts[j];
                    (x - qx) * (x - qx) + (y - qy) * (y - qy) < radius * radius
                })
                .collect();
            from_grid.sort();
            let brute: Vec<usize> = (0..pts.len())
                .filter(|&j| {
                    let (x, y) = pts[j];
                    (x - qx) * (x - qx) + (y - qy) * (y - qy) < radius * radius
                })
                .collect();
            assert_eq!(from_grid, brute, "query {}", q);
            assert!(from_grid.contains(&q));
        }
    }
}

#[test]
fn neighbors_cover_the_three_by_three_block_only() {
    let mut grid = SpatialHash::new(10 * ONE);
    grid.insert(0, 15 * ONE, 15 * ONE); // cell (1, 1)
    grid.insert(1, 5 * ONE, 5 * ONE); // cell (0, 0)
    grid.insert(2, 29 * ONE, 29 * ONE); // cell (2, 2)
    grid.insert(3, 31 * ONE, 15 * ONE); // cell (3, 1)
    grid.insert(4, 15 * ONE, 15 * ONE + 1); // cell (1, 1)
    let mut n = grid.neighbors(15 * ONE, 15 * ONE);
    n.sort();
    assert_eq!(n, vec![0, 1, 2, 4]);
    let n0 = grid.neighbors(0, 0);
    assert_eq!(n0.len(), 3);
}

#[test]
fn neighbors_keep_insertion_order_in_a_cell() {
    let mut grid = SpatialHash::new(10 * ONE);
    grid.insert(5, ONE, ONE);
    grid.insert(2, 2 * ONE, ONE);
    grid.insert(9, 3 * ONE, ONE);
    assert_eq!(grid.neighbors(ONE, ONE), vec![5, 2, 9]);
}

#[test]
fn cell_size_clamps_and_clear_empties() {
    let mut grid = SpatialHash::new(0);
    assert_eq!(grid.cell_size(), ONE);
    grid.insert(0, ONE, ONE);
    assert_eq!(grid.neighbors(ONE, ONE), vec![0]);
    grid.clear();
    assert!(grid.neighbors(ONE, ONE).is_empty());
    grid.set_cell_size(-5);
    assert_eq!(grid.cell_size(), ONE);
    grid.set_cell_size(40 * ONE);
    assert_eq!(grid.cell_size(), 40 * ONE);
}

#[test]
fn resizing_keeps_the_points() {
    let mut grid = SpatialHash::new(10 * ONE);
    grid.insert(0, ONE, ONE);
    grid.insert(1, 25 * ONE, ONE);
    grid.insert(2, 45 * ONE, ONE);
    let mut n = grid.neighbors(ONE, ONE);
    n.sort();
    assert_eq!(n, vec![0]);
    grid.set_cell_size(30 * ONE);
    let mut n = grid.neighbors(ONE, ONE);
    n.sort();
    assert_eq!(n, vec![0, 1, 2]);
    grid.set_cell_size(10 * ONE);
    let mut n = grid.neighbors(ONE, ONE);
    n.sort();
    assert_eq!(n, vec![0]);
}
