use trw::algorithm::TrappingRainWater;

#[test]
fn known_answers() {
    // 1x3 grid: every cell is on the boundary -> nothing is trapped
    assert_eq!(TrappingRainWater::calculate(&[vec![3, 0, 2]]), 0);
    // 3x3 ring
    let m = vec![vec![3, 3, 3], vec![3, 0, 3], vec![3, 3, 3]];
    assert_eq!(TrappingRainWater::calculate(&m), 3);
    // 4x4 with a central 2x2 depression
    let m = vec![
        vec![3, 3, 3, 3],
        vec![3, 0, 0, 3],
        vec![3, 0, 0, 3],
        vec![3, 3, 3, 3],
    ];
    assert_eq!(TrappingRainWater::calculate(&m), 12);
}

#[test]
fn water_heights_shape() {
    let m = vec![vec![3, 3, 3], vec![3, 0, 3], vec![3, 3, 3]];
    let wh = TrappingRainWater::water_heights(&m);
    assert_eq!(wh[1][1], 3);
    for (r, row) in wh.iter().enumerate() {
        for (c, &w) in row.iter().enumerate() {
            if r == 1 && c == 1 {
                continue;
            }
            assert_eq!(w, 0, "({r},{c}) boundary cell should return 0");
        }
    }
    assert_eq!(TrappingRainWater::calculate(&m), 3);
}

#[test]
fn no_water_on_monotonic_terrain() {
    let m = vec![vec![1, 2, 3, 4, 5]];
    assert_eq!(TrappingRainWater::calculate(&m), 0);
}

#[test]
fn degenerate_grids() {
    assert_eq!(TrappingRainWater::calculate(&[] as &[Vec<u8>]), 0);
    assert_eq!(TrappingRainWater::calculate(&[vec![]]), 0);
    assert_eq!(TrappingRainWater::calculate(&[vec![5]]), 0);
}

#[test]
fn dry_peak_shows_its_own_height() {
    // the centre is a peak: it holds no water, so its surface is its terrain
    let m = vec![vec![1, 1, 1], vec![1, 9, 1], vec![1, 1, 1]];
    let wh = TrappingRainWater::water_heights(&m);
    assert_eq!(wh[1][1], 9);
    let m = vec![vec![3, 3, 3], vec![3, 5, 3], vec![3, 3, 3]];
    assert_eq!(TrappingRainWater::water_heights(&m)[1][1], 5);
    assert_eq!(TrappingRainWater::calculate(&m), 0);
}

#[test]
fn pool_fills_to_lowest_rim() {
    // rim of 5 with one notch of 2: the pool fills only to 2
    let m = vec![
        vec![5, 5, 5, 5],
        vec![5, 0, 0, 2],
        vec![5, 0, 0, 5],
        vec![5, 5, 5, 5],
    ];
    let wh = TrappingRainWater::water_heights(&m);
    assert_eq!(wh[1][1], 2);
    assert_eq!(wh[1][2], 2);
    assert_eq!(wh[2][1], 2);
    assert_eq!(wh[2][2], 2);
    assert_eq!(TrappingRainWater::calculate(&m), 8);
}

#[test]
fn nested_pools_and_ragged_rows() {
    // an inner basin inside an outer one; rows longer than the first are cut to it
    let m = vec![
        vec![9, 9, 9, 9, 9],
        vec![9, 4, 4, 4, 9, 7],
        vec![9, 4, 1, 4, 9],
        vec![9, 4, 4, 4, 9, 7, 7],
        vec![9, 9, 9, 9, 9],
    ];
    let wh = TrappingRainWater::water_heights(&m);
    assert_eq!(wh.len(), 5);
    assert!(wh.iter().all(|row| row.len() == 5));
    for r in 1..4 {
        for c in 1..4 {
            assert_eq!(wh[r][c], 9);
        }
    }
    // 8 cells of depth 5 and the centre of depth 8
    assert_eq!(TrappingRainWater::calculate(&m), 8 * 5 + 8);
}

#[test]
fn equilibrium_each_surface_matches_lowest_neighbour() {
    let m: Vec<Vec<u8>> = vec![
        vec![3, 8, 6, 7, 4],
        vec![9, 1, 5, 0, 8],
        vec![7, 2, 9, 3, 6],
        vec![5, 0, 4, 2, 9],
        vec![8, 6, 7, 9, 5],
    ];
    let wh = TrappingRainWater::water_heights(&m);
    let rows = m.len() as i64;
    let cols = m[0].len() as i64;
    let level = |r: i64, c: i64| -> i32 {
        let h = m[r as usize][c as usize] as i32;
        if r == 0 || c == 0 || r == rows - 1 || c == cols - 1 {
            h
        } else {
            h.max(wh[r as usize][c as usize])
        }
    };
    for r in 1..rows - 1 {
        for c in 1..cols - 1 {
            let lowest = [(0, 1), (0, -1), (1, 0), (-1, 0)]
                .iter()
                .map(|(dr, dc)| level(r + dr, c + dc))
                .min()
                .unwrap();
            // a dry cell shows its own height; a wet one the lowest level around it
            let h = m[r as usize][c as usize] as i32;
            assert_eq!(wh[r as usize][c as usize], h.max(lowest), "at ({r},{c})");
        }
    }
}

#[test]
fn thin_grids_trap_nothing() {
    let two_rows = vec![vec![9, 0, 0, 9], vec![9, 0, 0, 9]];
    assert_eq!(TrappingRainWater::calculate(&two_rows), 0);
    let two_cols = vec![vec![9, 9], vec![0, 0], vec![0, 0], vec![9, 9]];
    assert_eq!(TrappingRainWater::calculate(&two_cols), 0);
}

#[test]
fn rising_rows_trap_nothing() {
    let m = vec![
        vec![0, 1, 5, 9],
        vec![2, 2, 3, 9],
        vec![1, 4, 4, 4],
        vec![0, 0, 0, 7],
    ];
    assert_eq!(TrappingRainWater::calculate(&m), 0);
    let wh = TrappingRainWater::water_heights(&m);
    for r in 1..3 {
        for c in 1..3 {
            assert_eq!(wh[r][c], m[r][c] as i32);
        }
    }
}

#[test]
fn depths_per_cell_add_up_to_the_total() {
    let m = vec![
        vec![1, 4, 3, 1, 3, 2],
        vec![3, 2, 1, 3, 2, 4],
        vec![2, 3, 3, 2, 3, 1],
    ];
    let d = TrappingRainWater::water_depths(&m);
    assert_eq!(
        d,
        vec![
            vec![0, 0, 0, 0, 0, 0],
            vec![0, 1, 2, 0, 1, 0],
            vec![0, 0, 0, 0, 0, 0],
        ]
    );
    let sum: usize = d.iter().flatten().sum();
    assert_eq!(sum, TrappingRainWater::calculate(&m));
    assert_eq!(sum, 4);
}

#[test]
fn depths_are_zero_on_dry_cells() {
    // the centre cell is higher than its rim: it stays dry
    let m = vec![vec![1, 1, 1], vec![1, 5, 1], vec![1, 1, 1]];
    assert_eq!(TrappingRainWater::water_heights(&m)[1][1], 5);
    assert_eq!(TrappingRainWater::water_depths(&m), vec![vec![0; 3]; 3]);
    // ragged rows are cut to the first row's width
    let m = vec![vec![4, 4, 4], vec![4, 1, 4, 9], vec![4, 4, 4]];
    assert_eq!(
        TrappingRainWater::water_depths(&m),
        vec![vec![0, 0, 0], vec![0, 3, 0], vec![0, 0, 0]]
    );
}

#[test]
fn turned_grids_trap_the_same() {
    let m: Vec<Vec<u8>> = vec![
        vec![1, 4, 3, 1, 3, 2],
        vec![3, 2, 1, 3, 2, 4],
        vec![2, 3, 3, 2, 3, 1],
    ];
    let total = TrappingRainWater::calculate(&m);
    assert_eq!(total, 4);
    let transposed: Vec<Vec<u8>> = (0..m[0].len())
        .map(|c| m.iter().map(|row| row[c]).collect())
        .collect();
    let rows_flipped: Vec<Vec<u8>> = m.iter().rev().cloned().collect();
    let cols_flipped: Vec<Vec<u8>> = m
        .iter()
        .map(|row| row.iter().rev().cloned().collect())
        .collect();
    assert_eq!(TrappingRainWater::calculate(&transposed), total);
    assert_eq!(TrappingRainWater::calculate(&rows_flipped), total);
    assert_eq!(TrappingRainWater::calculate(&cols_flipped), total);
}

#[test]
fn raising_terrain_never_lowers_the_water() {
    let low: Vec<Vec<u8>> = vec![
        vec![3, 3, 3, 3],
        vec![3, 0, 1, 2],
        vec![3, 4, 0, 3],
        vec![3, 3, 3, 3],
    ];
    let mut high = low.clone();
    high[1][3] = 6; // plug the notch in the rim
    high[2][1] = 5; // and raise an inner cell
    let a = TrappingRainWater::water_heights(&low);
    let b = TrappingRainWater::water_heights(&high);
    for r in 0..4 {
        for c in 0..4 {
            assert!(a[r][c] <= b[r][c], "at ({r},{c})");
        }
    }
    assert_eq!(a[1][1], 2);
    assert_eq!(b[1][1], 3);
    assert_eq!(b[2][1], 5);
}
