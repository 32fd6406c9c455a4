use graphics::color::Rgb;
use graphics::ppm::Ppm;
use graphics::ppm::PpmBuilder;
use graphics::ppm::wrap_index;

fn old_wrap_index(value: i64, limit: i64) -> i64 {
    if value >= limit {
        value % limit
    } else if value < 0 {
        let r: i64 = value % limit;
        if r != 0 {
            r + limit
        } else {
            r
        }
    } else {
        value
    }
}

#[test]
fn test_wrap_index() {
    let cases: Vec<(i64, i64)> = vec![
        (1, 2),
        (4, 5),
        (-2, 5),
        (-5, 10),
        (5, 5),
        (-5, 5),
        (i64::MIN, 2142432422),
    ];
    for (value, limit) in cases {
        assert_eq!(old_wrap_index(value, limit), wrap_index(value, limit))
    }
}

#[test]
fn wrap_concrete_values() {
    assert_eq!(wrap_index(-5, 5), 0);
    assert_eq!(wrap_index(-2, 5), 3);
    assert_eq!(wrap_index(5, 5), 0);
    assert_eq!(wrap_index(4, 5), 4);
}

#[test]
fn wrap_periodic() {
    for v in -20i64..20 {
        let w = wrap_index(v, 7);
        assert!(0 <= w && w < 7);
        assert_eq!(wrap_index(v + 7, 7), w);
        assert_eq!(wrap_index(v - 3 * 7, 7), w);
    }
}

#[test]
fn builder_defaults_and_settings() {
    let img = PpmBuilder::new(500, 1000, 255).bg_color(Rgb::gray(255)).wrap_x(true).build();
    assert_eq!(1000, img.width());
    assert_eq!(500, img.height());
    assert_eq!(255, img.color_depth());
    assert_eq!(true, img.wrap_x);
    assert_eq!(false, img.wrap_y);
    assert_eq!(true, img.invert_y);

    let builder = PpmBuilder::new(400, 500, 255);
    let builder = builder.bg_color(Rgb::gray(20));
    let builder = builder.wrap_y(true);
    let builder = builder.invert_y(false);
    let img = builder.build();
    assert_eq!(true, img.wrap_y);
    assert_eq!(false, img.wrap_x);
    assert_eq!(false, img.invert_y);
    assert_eq!(500, img.width());
    assert_eq!(400, img.height());
}

#[test]
fn new_is_default_configuration() {
    let img = Ppm::new();
    assert_eq!(500, img.width());
    assert_eq!(500, img.height());
    assert_eq!(img.pixel(3, 4), Some(Rgb::gray(0)));
}

#[test]
fn depth_test_keeps_higher_z() {
    let mut img = PpmBuilder::new(4, 4, 255).build();
    let a = Rgb::new(10, 0, 0);
    let b = Rgb::new(0, 10, 0);
    let c = Rgb::new(0, 0, 10);
    let d = Rgb::new(5, 5, 5);
    // a write at z = 1.0 (in tenths), then a lower one at z = 0.5: the
    // first stays
    img.plot(1, 1, 10, a);
    img.plot(1, 1, 5, b);
    assert_eq!(img.pixel(1, 1), Some(a));
    // a higher write at z = 2.0 wins
    img.plot(1, 1, 20, c);
    assert_eq!(img.pixel(1, 1), Some(c));
    // an equal z does not overwrite
    img.plot(1, 1, 20, d);
    assert_eq!(img.pixel(1, 1), Some(c));
}

#[test]
fn out_of_bounds_plot_is_noop() {
    let mut img = PpmBuilder::new(5, 8, 255).bg_color(Rgb::gray(9)).build();
    let before = img.encode_binary();
    img.plot(-1, 2, 100, Rgb::gray(255));
    img.plot(8, 2, 100, Rgb::gray(255));
    img.plot(2, -1, 100, Rgb::gray(255));
    img.plot(2, 5, 100, Rgb::gray(255));
    assert_eq!(before, img.encode_binary());
}

#[test]
fn wrapping_plot_lands_inside() {
    let mut img = PpmBuilder::new(4, 4, 255).wrap_x(true).wrap_y(true).invert_y(false).build();
    let c = Rgb::new(1, 2, 3);
    img.plot(-1, 6, 0, c);
    // -1 wraps to 3, 6 wraps to 2
    assert_eq!(img.pixel(3, 2), Some(c));
}

#[test]
fn invert_y_flips_rows() {
    let mut img = PpmBuilder::new(3, 3, 255).invert_y(true).build();
    let c = Rgb::new(7, 7, 7);
    img.plot(0, 0, 0, c);
    // with the origin at the bottom left, row 0 is the last stored row
    let bytes = img.encode_ascii();
    let text = String::from_utf8(bytes).unwrap();
    let lines: Vec<&str> = text.lines().collect();
    assert_eq!(lines[0], "P3");
    assert_eq!(lines[1], "3 3 255");
    // stored row-major: the plotted pixel is the first of the last row
    assert_eq!(lines[2 + 6], "7 7 7");
    assert_eq!(lines[2 + 0], "0 0 0");
}

#[test]
fn clear_resets_pixels_and_depth() {
    let mut img = PpmBuilder::new(3, 3, 255).build();
    img.plot(1, 1, 50, Rgb::gray(200));
    img.clear(Rgb::gray(4));
    assert_eq!(img.pixel(1, 1), Some(Rgb::gray(4)));
    // the depth buffer was reset too: a low write lands again
    img.plot(1, 1, -1000, Rgb::gray(30));
    assert_eq!(img.pixel(1, 1), Some(Rgb::gray(30)));
}

#[test]
fn gray_and_new_build_componentwise() {
    assert_eq!(Rgb::gray(0), Rgb::new(0, 0, 0));
    assert_eq!(Rgb::gray(255), Rgb::new(255, 255, 255));
    assert_eq!(Rgb { red: 50, green: 50, blue: 50 }, Rgb::gray(50));
}
