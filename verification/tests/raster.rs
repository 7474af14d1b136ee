use trw::raster::{bresenham, paint_dot, RenderOpts};

#[test]
fn paint_dot_sets_braille_bits() {
    let mut dots = vec![0u8; 4];
    let mut colors = vec![0u8; 4];
    // canvas 2 cells wide = 4 x 8 dots
    paint_dot(0, 0, 3, 2, 4, 8, &mut dots, &mut colors);
    assert_eq!(dots, vec![1, 0, 0, 0]);
    paint_dot(1, 3, 3, 2, 4, 8, &mut dots, &mut colors);
    assert_eq!(dots, vec![1 | (1 << 7), 0, 0, 0]);
    paint_dot(3, 5, 4, 2, 4, 8, &mut dots, &mut colors);
    assert_eq!(dots[3], 1 << 3);
    assert_eq!(colors, vec![3, 0, 0, 4]);
    // off the canvas: nothing changes
    paint_dot(4, 0, 9, 2, 4, 8, &mut dots, &mut colors);
    paint_dot(0, 8, 9, 2, 4, 8, &mut dots, &mut colors);
    assert_eq!(colors, vec![3, 0, 0, 4]);
}

#[test]
fn bresenham_straight_lines() {
    assert_eq!(bresenham(2, 5, 2, 2), vec![(2, 2), (2, 3), (2, 4), (2, 5)]);
    assert_eq!(bresenham(4, 1, 1, 1), vec![(1, 1), (2, 1), (3, 1), (4, 1)]);
    assert_eq!(bresenham(3, 3, 3, 3), vec![(3, 3)]);
}

#[test]
fn bresenham_shallow_and_steep() {
    assert_eq!(
        bresenham(0, 0, 4, 2),
        vec![(0, 0), (1, 0), (2, 1), (3, 1), (4, 2)]
    );
    // drawn from the end with the smaller x
    assert_eq!(
        bresenham(4, 2, 0, 0),
        vec![(0, 0), (1, 0), (2, 1), (3, 1), (4, 2)]
    );
    // equal steps go along y, from the end with the smaller y
    assert_eq!(bresenham(0, 3, 3, 0), vec![(3, 0), (2, 1), (1, 2), (0, 3)]);
    assert_eq!(
        bresenham(1, 0, 3, 4),
        vec![(1, 0), (1, 1), (2, 2), (2, 3), (3, 4)]
    );
    assert_eq!(
        bresenham(3, 4, 1, 0),
        vec![(1, 0), (1, 1), (2, 2), (2, 3), (3, 4)]
    );
}

#[test]
fn bresenham_endpoints_and_adjacency() {
    for &(x1, y1, x2, y2) in &[(0, 0, 7, 3), (7, 3, 0, 0), (5, 0, 0, 9), (2, 9, 6, 1), (0, 0, 6, 6)] {
        let pts = bresenham(x1, y1, x2, y2);
        let dx = (x1 as i64 - x2 as i64).abs();
        let dy = (y1 as i64 - y2 as i64).abs();
        assert_eq!(pts.len() as i64, dx.max(dy) + 1);
        assert!(pts.contains(&(x1, y1)) && pts.contains(&(x2, y2)));
        for w in pts.windows(2) {
            let (a, b) = (w[0], w[1]);
            assert!((a.0 as i64 - b.0 as i64).abs() <= 1 && (a.1 as i64 - b.1 as i64).abs() <= 1);
        }
    }
}

#[test]
fn render_opts_fields() {
    let o = RenderOpts {
        region: (0, 2, 10, 5),
        show_axes: true,
        edge_color: 4,
        keep_depth: false,
    };
    assert_eq!(o.region, (0, 2, 10, 5));
    assert!(o.show_axes && !o.keep_depth);
    assert_eq!(o.edge_color, 4);
}
