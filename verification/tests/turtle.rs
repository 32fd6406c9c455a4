use graphics::color::Rgb;
use graphics::ppm::Ppm;
use graphics::ppm::PpmBuilder;
use graphics::turtle::SUBPIXEL;
use graphics::turtle::Turtle;

/// Move forward by `steps` pixels at the turtle's current heading: the
/// polar offset is trigonometric, so the caller computes it and hands
/// the turtle plain sub-pixel deltas.
fn forward(t: &mut Turtle<Ppm>, steps: f64) {
    let dir_deg: f64 = t.direction as f64 / 1000.0;
    let (s, c) = dir_deg.to_radians().sin_cos();
    let dx: i64 = (c * steps * SUBPIXEL as f64).round() as i64;
    let dy: i64 = (s * steps * SUBPIXEL as f64).round() as i64;
    t.forward_by(dx, dy);
}

#[test]
fn turtle_circle_returns_to_start() {
    let img = Ppm::new();
    let mut t = Turtle::new(img, 250 * SUBPIXEL, 250 * SUBPIXEL, Rgb::gray(255));
    t.direction = 0;
    let radius: f64 = 125.0;
    forward(&mut t, radius);
    t.turn_left(90_000);
    let (x0, y0) = t.position();
    t.pen_down = true;
    let circumf: f64 = radius * std::f64::consts::TAU;
    for _ in 0..360 {
        forward(&mut t, circumf / 360.0);
        t.turn_left(1_000);
    }
    let (x1, y1) = t.position();
    // back to within one pixel (one SUBPIXEL unit) of the start
    assert!((x1 - x0).abs() < SUBPIXEL);
    assert!((y1 - y0).abs() < SUBPIXEL);
    // and it drew something on the way
    let img = t.get_screen();
    assert_eq!(img.pixel(375, 250), Some(Rgb::gray(255)));
}

#[test]
fn turn_right_uses_truncating_remainder() {
    let img = PpmBuilder::new(4, 4, 255).build();
    let mut t = Turtle::new(img, 0, 0, Rgb::gray(255));
    t.direction = 350_000;
    t.turn_right(20_000);
    assert_eq!(t.direction, 10_000);
    t.direction = 0;
    t.turn_left(90_000);
    // the heading may stay negative after a left turn
    assert_eq!(t.direction, -90_000);
    t.turn_left(-450_000);
    assert_eq!(t.direction, 0);
}

#[test]
fn pen_state_controls_drawing() {
    let img = PpmBuilder::new(10, 10, 255).invert_y(false).build();
    let mut t = Turtle::new(img, 0, 0, Rgb::gray(255));
    // pen up: motion leaves the buffer untouched
    t.forward_by(5 * SUBPIXEL, 0);
    let (x, y) = t.position();
    assert_eq!((x, y), (5 * SUBPIXEL, 0));
    // pen down: moving back draws the whole segment
    t.pen_down = true;
    t.move_to(0, 0);
    let img = t.get_screen();
    for x in 0i64..6 {
        assert_eq!(img.pixel(x, 0), Some(Rgb::gray(255)));
    }
    assert_eq!(img.pixel(6, 0), Some(Rgb::gray(0)));
}
