use graphics::color::Rgb;
use graphics::ppm::PpmBuilder;
use graphics::screen::line_points;

#[test]
fn horizontal_line_endpoints_inclusive() {
    let white = Rgb::gray(255);
    let mut img = PpmBuilder::new(10, 10, 255).build();
    img.draw_line((0, 0, 0), (5, 0, 0), white);
    let mut set: u32 = 0;
    for x in 0i64..10 {
        for y in 0i64..10 {
            let hit = img.pixel(x, y) == Some(white);
            if hit {
                set += 1;
            }
            assert_eq!(hit, y == 0 && x <= 5);
        }
    }
    assert_eq!(set, 6);
}

#[test]
fn single_point_line_plots_once() {
    let pts = line_points((4, 7, 3), (4, 7, 3));
    assert_eq!(pts, vec![(4, 7, 3)]);
}

#[test]
fn gentle_slope_steps_every_x_once() {
    let pts = line_points((0, 0, 0), (7, 3, 0));
    assert_eq!(pts.len(), 8);
    assert_eq!(pts[0], (0, 0, 0));
    assert_eq!(pts[7], (7, 3, 0));
    for i in 0..7 {
        assert_eq!(pts[i + 1].0, pts[i].0 + 1);
        let dy = pts[i + 1].1 - pts[i].1;
        assert!(dy == 0 || dy == 1);
    }
}

#[test]
fn steep_slope_steps_every_y_once() {
    let pts = line_points((0, 0, 0), (3, 7, 0));
    assert_eq!(pts.len(), 8);
    assert_eq!(pts[0], (0, 0, 0));
    assert_eq!(pts[7], (3, 7, 0));
    for i in 0..7 {
        assert_eq!(pts[i + 1].1, pts[i].1 + 1);
        let dx = pts[i + 1].0 - pts[i].0;
        assert!(dx == 0 || dx == 1);
    }
}

#[test]
fn all_octants_reach_their_endpoint() {
    let ends: Vec<(i64, i64)> = vec![
        (9, 4),
        (9, -4),
        (-9, 4),
        (-9, -4),
        (4, 9),
        (4, -9),
        (-4, 9),
        (-4, -9),
        (9, 0),
        (0, 9),
        (-9, 0),
        (0, -9),
        (9, 9),
        (-9, -9),
    ];
    for (ex, ey) in ends {
        let pts = line_points((0, 0, 0), (ex, ey, 0));
        assert!(pts.contains(&(0, 0, 0)));
        assert!(pts.contains(&(ex, ey, 0)));
        let n = if ex.abs() > ey.abs() { ex.abs() } else { ey.abs() };
        assert_eq!(pts.len() as i64, n + 1);
    }
}

#[test]
fn octant_symmetry_same_pixels() {
    let cases: Vec<((i64, i64, i64), (i64, i64, i64))> = vec![
        ((0, 0, 0), (7, 3, 0)),
        ((2, 9, 1), (11, 1, 4)),
        ((-5, -5, 0), (5, 4, 0)),
        ((3, 3, 2), (3, 3, 9)),
        ((0, 0, 0), (0, 8, 0)),
    ];
    for (a, b) in cases {
        assert_eq!(line_points(a, b), line_points(b, a));
    }
}

#[test]
fn octant_symmetry_on_the_buffer() {
    let color = Rgb::new(0, 255, 0);
    let mut one = PpmBuilder::new(20, 20, 255).build();
    let mut two = PpmBuilder::new(20, 20, 255).build();
    one.draw_line((1, 2, 0), (17, 9, 0), color);
    two.draw_line((17, 9, 0), (1, 2, 0), color);
    assert_eq!(one.encode_binary(), two.encode_binary());
}

#[test]
fn bresenham_picks_nearest_row() {
    // slope 1/4: the ideal ordinates are 0, 0.25, 0.5, 0.75, 1; the tie
    // at the midpoint rounds toward the start
    let pts = line_points((0, 0, 0), (4, 1, 0));
    let ys: Vec<i64> = pts.iter().map(|p| p.1).collect();
    assert_eq!(ys, vec![0, 0, 0, 1, 1]);
}

#[test]
fn line_depth_is_piecewise_from_endpoints() {
    let pts = line_points((0, 0, 10), (4, 0, 30));
    let zs: Vec<i64> = pts.iter().map(|p| p.2).collect();
    assert_eq!(zs, vec![10, 10, 10, 30, 30]);
}

#[test]
fn line_plots_are_depth_tested() {
    let white = Rgb::gray(255);
    let red = Rgb::new(255, 0, 0);
    let mut img = PpmBuilder::new(10, 10, 255).build();
    img.draw_line((0, 0, 5), (9, 0, 5), white);
    // a line beneath the first never shows
    img.draw_line((0, 0, 1), (9, 0, 1), red);
    assert_eq!(img.pixel(4, 0), Some(white));
    // a line above it wins
    img.draw_line((0, 0, 9), (9, 0, 9), red);
    assert_eq!(img.pixel(4, 0), Some(red));
}
