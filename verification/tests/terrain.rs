use trw::terrain::{height_limit, Terrain};

#[test]
fn new_creates_zero_grid() {
    let t = Terrain::new(4, 6);
    assert_eq!(t.rows, 4);
    assert_eq!(t.cols, 6);
    assert_eq!(t.max_height, 0);
    assert!(t.heights.iter().flatten().all(|&h| h == 0));
}

#[test]
fn random_values_within_bounds() {
    let mut t = Terrain::new(16, 16);
    t.generate_random(7);
    assert_eq!(t.max_height, 7);
    assert!(t.heights.iter().flatten().all(|&h| h <= 7));
    let mut saw_nonzero = false;
    for _ in 0..5 {
        t.generate_random(7);
        saw_nonzero |= t.heights.iter().flatten().any(|&h| h > 0);
    }
    assert!(saw_nonzero);
}

#[test]
fn get_height_with_bounds_checks() {
    let mut t = Terrain::new(3, 3);
    t.heights[1][2] = 5;
    assert_eq!(t.get_height(1, 2), 5);
    assert_eq!(t.get_height(99, 99), 0);
    assert_eq!(t.get_height(0, 3), 0);
    assert_eq!(t.get_height(3, 0), 0);
}

#[test]
fn generate_random_draws_varied_heights() {
    let mut t = Terrain::new(16, 16);
    t.generate_random(7);
    // 256 draws from 0..=7 are neither all the top value nor all zero
    assert!(t.heights.iter().flatten().any(|&h| h != 7));
    assert!(t.heights.iter().flatten().any(|&h| h != 0));
}

#[test]
fn generate_random_zero_max_gives_flat_terrain() {
    let mut t = Terrain::new(5, 3);
    t.generate_random(0);
    assert_eq!(t.max_height, 0);
    assert_eq!(t.heights.len(), 5);
    assert!(t.heights.iter().all(|row| row.len() == 3));
    assert!(t.heights.iter().flatten().all(|&h| h == 0));
}

#[test]
fn generate_random_leaves_cells_outside_the_grid() {
    let mut t = Terrain::new(2, 2);
    t.heights[0].push(200);
    t.heights.push(vec![201]);
    t.generate_random(3);
    assert_eq!(t.heights[0][2], 200);
    assert_eq!(t.heights[2][0], 201);
    assert!(t.heights[0][..2].iter().all(|&h| h <= 3));
    assert!(t.heights[1].iter().all(|&h| h <= 3));
}

#[test]
fn terrain_heights_scale_with_grid_size() {
    // larger grid -> taller possible columns
    let mut big = Terrain::new(16, 16);
    big.generate_random(height_limit(16));
    assert_eq!(big.max_height, 15);
    assert!(big.heights.iter().flatten().all(|&h| h <= 15));
    assert!(big.heights.iter().flatten().any(|&h| h > 7));

    // smaller grid -> shorter possible columns
    let mut small = Terrain::new(4, 4);
    small.generate_random(height_limit(4));
    assert_eq!(small.max_height, 3);
    assert!(small.heights.iter().flatten().all(|&h| h <= 3));
}

#[test]
fn height_limit_edges() {
    assert_eq!(height_limit(0), 0);
    assert_eq!(height_limit(1), 0);
    assert_eq!(height_limit(8), 7);
    assert_eq!(height_limit(256), 255);
    assert_eq!(height_limit(300), 43);
}
