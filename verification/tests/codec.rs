use graphics::codec::parse_ascii;
use graphics::codec::parse_binary;
use graphics::color::Rgb;
use graphics::ppm::PpmBuilder;

#[test]
fn ascii_encoding_exact_bytes() {
    let img = PpmBuilder::new(1, 1, 255).bg_color(Rgb::gray(7)).build();
    assert_eq!(img.encode_ascii(), b"P3\n1 1 255\n7 7 7\n".to_vec());
}

#[test]
fn binary_encoding_exact_bytes() {
    let img = PpmBuilder::new(1, 2, 255).bg_color(Rgb::new(1, 2, 3)).build();
    assert_eq!(img.encode_binary(), b"P6\n2 1 255\n\x01\x02\x03\x01\x02\x03".to_vec());
}

#[test]
fn wide_binary_encoding_two_bytes_per_channel() {
    let img = PpmBuilder::new(1, 1, 500).bg_color(Rgb::new(9, 10, 11)).build();
    assert_eq!(img.encode_binary(), b"P6\n1 1 500\n\x00\x09\x00\x0a\x00\x0b".to_vec());
}

#[test]
fn binary_round_trip_reproduces_everything() {
    let data: Vec<Rgb> = vec![
        Rgb::new(0, 0, 0),
        Rgb::new(255, 0, 10),
        Rgb::new(1, 2, 3),
        Rgb::new(200, 150, 100),
        Rgb::new(9, 8, 7),
        Rgb::new(65, 66, 67),
    ];
    let img = PpmBuilder::new(2, 3, 255).with_data(data).build();
    let parsed = parse_binary(&img.encode_binary()).expect("round trip must parse");
    assert_eq!(parsed.width(), img.width());
    assert_eq!(parsed.height(), img.height());
    assert_eq!(parsed.color_depth(), img.color_depth());
    assert_eq!(parsed.encode_binary(), img.encode_binary());
    for x in 0i64..3 {
        for y in 0i64..2 {
            assert_eq!(parsed.pixel(x, y), img.pixel(x, y));
        }
    }
}

#[test]
fn wide_binary_round_trip() {
    let data: Vec<Rgb> = vec![Rgb::new(4, 200, 255), Rgb::new(0, 1, 2)];
    let img = PpmBuilder::new(2, 1, 65535).with_data(data).build();
    let parsed = parse_binary(&img.encode_binary()).expect("round trip must parse");
    assert_eq!(parsed.color_depth(), 65535);
    assert_eq!(parsed.encode_binary(), img.encode_binary());
}

#[test]
fn ascii_round_trip_reproduces_everything() {
    let data: Vec<Rgb> = vec![
        Rgb::new(12, 0, 255),
        Rgb::new(3, 14, 15),
        Rgb::new(92, 65, 35),
        Rgb::new(89, 79, 32),
    ];
    let img = PpmBuilder::new(4, 1, 255).with_data(data).build();
    let parsed = parse_ascii(&img.encode_ascii()).expect("round trip must parse");
    assert_eq!(parsed.width(), img.width());
    assert_eq!(parsed.height(), img.height());
    assert_eq!(parsed.color_depth(), img.color_depth());
    assert_eq!(parsed.encode_ascii(), img.encode_ascii());
}

#[test]
fn round_trip_after_drawing() {
    let mut img = PpmBuilder::new(16, 16, 255).build();
    img.draw_line((0, 0, 0), (15, 15, 0), Rgb::gray(255));
    img.draw_line((0, 15, 0), (15, 0, 0), Rgb::new(255, 0, 0));
    let bin = parse_binary(&img.encode_binary()).expect("binary parse");
    let asc = parse_ascii(&img.encode_ascii()).expect("ascii parse");
    assert_eq!(bin.encode_binary(), img.encode_binary());
    assert_eq!(asc.encode_binary(), img.encode_binary());
}

#[test]
fn parse_rejects_malformed_streams() {
    // wrong magic
    assert!(parse_binary(&b"P3\n1 1 255\n\x01\x02\x03".to_vec()).is_none());
    assert!(parse_ascii(&b"P6\n1 1 255\n1 2 3\n".to_vec()).is_none());
    // missing header fields
    assert!(parse_binary(&b"P6\n1 255\n\x01\x02\x03".to_vec()).is_none());
    // zero dimensions
    assert!(parse_binary(&b"P6\n0 1 255\n".to_vec()).is_none());
    // color depth out of range
    assert!(parse_binary(&b"P6\n1 1 0\n\x01\x02\x03".to_vec()).is_none());
    assert!(parse_binary(&b"P6\n1 1 70000\n\x00\x01\x00\x02\x00\x03".to_vec()).is_none());
    // truncated and oversized payloads
    assert!(parse_binary(&b"P6\n1 1 255\n\x01\x02".to_vec()).is_none());
    assert!(parse_binary(&b"P6\n1 1 255\n\x01\x02\x03\x04".to_vec()).is_none());
    // an ASCII channel beyond eight bits
    assert!(parse_ascii(&b"P3\n1 1 255\n256 0 0\n".to_vec()).is_none());
    // garbage instead of a number
    assert!(parse_ascii(&b"P3\n1 1 255\nx 0 0\n".to_vec()).is_none());
}
