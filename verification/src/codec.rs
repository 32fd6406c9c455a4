//! The two PPM wire encodings and a companion decoder.
//!
//! Both formats start with a magic line (`P6` for binary, `P3` for
//! ASCII) and a header line `<width> <height> <color_depth>`. The binary
//! payload holds, for every pixel in row-major order, one byte per
//! channel when the color depth is below 256 and two big-endian bytes
//! per channel otherwise; the ASCII payload holds one `<r> <g> <b>` line
//! per pixel in decimal. The decoder accepts exactly what the encoders
//! emit and reproduces width, height, color depth and every pixel.

use vstd::prelude::*;

use crate::color::Rgb;
use crate::ppm::GridModel;
use crate::ppm::Ppm;
use crate::ppm::PpmBuilder;

verus! {

/// The decimal digits of a nonnegative number, most significant first,
/// as ASCII bytes.
pub open spec fn dec_digits(n: int) -> Seq<u8>
    recommends
        0 <= n,
    decreases n,
{
    if n < 10 {
        seq![(48 + n) as u8]
    } else {
        dec_digits(n / 10).push((48 + n % 10) as u8)
    }
}

/// An ASCII decimal digit.
pub open spec fn is_digit(b: u8) -> bool {
    48 <= b <= 57
}

/// The value of a digit string, most significant first.
pub open spec fn digits_val(s: Seq<u8>) -> int
    decreases s.len(),
{
    if s.len() == 0 {
        0
    } else {
        digits_val(s.drop_last()) * 10 + (s.last() - 48)
    }
}

/// The length of the digit run of `s` that starts at `from`.
pub open spec fn digit_run(s: Seq<u8>, from: int) -> int
    decreases s.len() - from,
{
    if from < 0 || from >= s.len() || !is_digit(s[from]) {
        0
    } else {
        1 + digit_run(s, from + 1)
    }
}

/// Read one decimal number at `from`: its value and the position just
/// past it, or nothing when no digit stands at `from`.
pub open spec fn parse_num(s: Seq<u8>, from: int) -> Option<(int, int)> {
    let k = digit_run(s, from);
    if k == 0 {
        None
    } else {
        Some((digits_val(s.subrange(from, from + k)), from + k))
    }
}

/// The shared header: the magic line, then width, height and color
/// depth in decimal on one line.
pub open spec fn header_bytes(magic: u8, width: int, height: int, color_depth: int) -> Seq<u8> {
    seq![80u8, magic, 10u8] + dec_digits(width) + seq![32u8] + dec_digits(height) + seq![32u8]
        + dec_digits(color_depth) + seq![10u8]
}

/// One pixel of binary payload: one byte per channel, or two big-endian
/// bytes per channel in the wide form (the high byte is zero, channels
/// being 8-bit).
pub open spec fn pixel_binary(c: Rgb, wide: bool) -> Seq<u8> {
    if wide {
        seq![0u8, c.red, 0u8, c.green, 0u8, c.blue]
    } else {
        seq![c.red, c.green, c.blue]
    }
}

/// The whole binary payload, row-major.
pub open spec fn payload_binary(colors: Seq<Rgb>, wide: bool) -> Seq<u8>
    decreases colors.len(),
{
    if colors.len() == 0 {
        Seq::empty()
    } else {
        pixel_binary(colors.first(), wide) + payload_binary(colors.drop_first(), wide)
    }
}

/// One pixel of ASCII payload: the three channels in decimal, space
/// separated, newline terminated.
pub open spec fn pixel_ascii(c: Rgb) -> Seq<u8> {
    dec_digits(c.red as int) + seq![32u8] + dec_digits(c.green as int) + seq![32u8] + dec_digits(
        c.blue as int,
    ) + seq![10u8]
}

/// The whole ASCII payload, row-major.
pub open spec fn payload_ascii(colors: Seq<Rgb>) -> Seq<u8>
    decreases colors.len(),
{
    if colors.len() == 0 {
        Seq::empty()
    } else {
        pixel_ascii(colors.first()) + payload_ascii(colors.drop_first())
    }
}

/// The binary (`P6`) encoding of a framebuffer model.
pub open spec fn encode_binary_model(m: GridModel) -> Seq<u8> {
    header_bytes(54, m.width, m.height, m.color_depth) + payload_binary(
        m.colors,
        m.color_depth >= 256,
    )
}

/// The ASCII (`P3`) encoding of a framebuffer model.
pub open spec fn encode_ascii_model(m: GridModel) -> Seq<u8> {
    header_bytes(51, m.width, m.height, m.color_depth) + payload_ascii(m.colors)
}

/// What a successful parse yields: the header fields and the pixels.
pub struct ImageModel {
    pub width: int,
    pub height: int,
    pub color_depth: int,
    pub colors: Seq<Rgb>,
}

/// Parse `count` pixels of binary payload; the payload must hold
/// exactly those pixels and nothing more. In the wide form the high
/// byte of each channel must be zero: channels are 8-bit here.
pub open spec fn parse_payload_binary(s: Seq<u8>, wide: bool, count: int) -> Option<Seq<Rgb>>
    decreases count,
{
    if count <= 0 {
        if s.len() == 0 {
            Some(Seq::empty())
        } else {
            None
        }
    } else if !wide {
        if s.len() < 3 {
            None
        } else {
            match parse_payload_binary(s.skip(3), wide, count - 1) {
                Some(rest) => Some(seq![Rgb { red: s[0], green: s[1], blue: s[2] }] + rest),
                None => None,
            }
        }
    } else {
        if s.len() < 6 {
            None
        } else if s[0] != 0 || s[2] != 0 || s[4] != 0 {
            None
        } else {
            match parse_payload_binary(s.skip(6), wide, count - 1) {
                Some(rest) => Some(seq![Rgb { red: s[1], green: s[3], blue: s[5] }] + rest),
                None => None,
            }
        }
    }
}

/// Parse `count` pixel lines of ASCII payload, each `<r> <g> <b>` and a
/// newline; channel values above 255 are rejected: channels are 8-bit
/// here.
pub open spec fn parse_payload_ascii(s: Seq<u8>, count: int) -> Option<Seq<Rgb>>
    decreases count,
{
    if count <= 0 {
        if s.len() == 0 {
            Some(Seq::empty())
        } else {
            None
        }
    } else {
        match parse_num(s, 0) {
            None => None,
            Some((r, q1)) => if q1 >= s.len() || s[q1] != 32 {
                None
            } else {
                match parse_num(s, q1 + 1) {
                    None => None,
                    Some((g, q2)) => if q2 >= s.len() || s[q2] != 32 {
                        None
                    } else {
                        match parse_num(s, q2 + 1) {
                            None => None,
                            Some((b, q3)) => if q3 >= s.len() || s[q3] != 10 {
                                None
                            } else if !(r < 256 && g < 256 && b < 256) {
                                None
                            } else {
                                match parse_payload_ascii(s.skip(q3 + 1), count - 1) {
                                    None => None,
                                    Some(rest) => Some(
                                        seq![Rgb { red: r as u8, green: g as u8, blue: b as u8 }]
                                            + rest,
                                    ),
                                }
                            },
                        }
                    },
                }
            },
        }
    }
}

/// Parse the header of either format: the magic line, then width,
/// height and color depth, each within the bounds a well-formed buffer
/// obeys. Yields the three fields and the payload's start position.
pub open spec fn parse_header(s: Seq<u8>, magic: u8) -> Option<(int, int, int, int)> {
    if s.len() < 3 || s[0] != 80 || s[1] != magic || s[2] != 10 {
        None
    } else {
        match parse_num(s, 3) {
            None => None,
            Some((w, p1)) => if p1 >= s.len() || s[p1] != 32 {
                None
            } else {
                match parse_num(s, p1 + 1) {
                    None => None,
                    Some((h, p2)) => if p2 >= s.len() || s[p2] != 32 {
                        None
                    } else {
                        match parse_num(s, p2 + 1) {
                            None => None,
                            Some((d, p3)) => if p3 >= s.len() || s[p3] != 10 {
                                None
                            } else if !(0 < w && 0 < h && 0 < d <= 0xffff && w * h
                                < 0x4000_0000) {
                                None
                            } else {
                                Some((w, h, d, p3 + 1))
                            },
                        }
                    },
                }
            },
        }
    }
}

/// Parse the binary (`P6`) format.
pub open spec fn parse_binary_model(s: Seq<u8>) -> Option<ImageModel> {
    match parse_header(s, 54) {
        None => None,
        Some((w, h, d, start)) => match parse_payload_binary(s.skip(start), d >= 256, w * h) {
            None => None,
            Some(colors) => Some(ImageModel { width: w, height: h, color_depth: d, colors }),
        },
    }
}

/// Parse the ASCII (`P3`) format.
pub open spec fn parse_ascii_model(s: Seq<u8>) -> Option<ImageModel> {
    match parse_header(s, 51) {
        None => None,
        Some((w, h, d, start)) => match parse_payload_ascii(s.skip(start), w * h) {
            None => None,
            Some(colors) => Some(ImageModel { width: w, height: h, color_depth: d, colors }),
        },
    }
}

/// The decimal digits of a nonnegative number are digits, at least one,
/// and their value is the number again.
proof fn lemma_dec_digits_props(n: int)
    requires
        0 <= n,
    ensures
        dec_digits(n).len() >= 1,
        forall|j: int| 0 <= j < dec_digits(n).len() ==> is_digit(#[trigger] dec_digits(n)[j]),
        digits_val(dec_digits(n)) == n,
    decreases n,
{
    if n < 10 {
        let t = dec_digits(n);
        assert(t.drop_last() =~= Seq::<u8>::empty());
        assert(digits_val(t) == digits_val(Seq::<u8>::empty()) * 10 + (t.last() - 48));
    } else {
        vstd::arithmetic::div_mod::lemma_div_pos_is_pos(n, 10);
        vstd::arithmetic::div_mod::lemma_mod_bound(n, 10);
        vstd::arithmetic::div_mod::lemma_div_decreases(n, 10);
        lemma_dec_digits_props(n / 10);
        let t = dec_digits(n / 10);
        let d = (48 + n % 10) as u8;
        assert(dec_digits(n) == t.push(d));
        assert(t.push(d).drop_last() =~= t);
        assert(digits_val(dec_digits(n)) == digits_val(t) * 10 + (d - 48));
        vstd::arithmetic::div_mod::lemma_fundamental_div_mod(n, 10);
    }
}

/// A run of exactly `k` digits from `from`, with a non-digit (or the
/// end) after it, has digit-run length `k`.
proof fn lemma_digit_run_exact(s: Seq<u8>, from: int, k: int)
    requires
        0 <= from,
        0 <= k,
        from + k <= s.len(),
        forall|j: int| from <= j < from + k ==> is_digit(#[trigger] s[j]),
        from + k == s.len() || !is_digit(s[from + k]),
    ensures
        digit_run(s, from) == k,
    decreases k,
{
    if k > 0 {
        assert(is_digit(s[from]));
        lemma_digit_run_exact(s, from + 1, k - 1);
    }
}

/// Where the digits of `n` stand embedded in a stream, followed by a
/// non-digit or the end, a number parse reads back exactly `n` and
/// stops just past the digits.
proof fn lemma_parse_num_at(s: Seq<u8>, from: int, n: int)
    requires
        0 <= n,
        0 <= from,
        from + dec_digits(n).len() <= s.len(),
        s.subrange(from, from + dec_digits(n).len() as int) == dec_digits(n),
        from + dec_digits(n).len() == s.len() || !is_digit(s[from + dec_digits(n).len()]),
    ensures
        parse_num(s, from) == Some((n, from + dec_digits(n).len() as int)),
{
    let t = dec_digits(n);
    lemma_dec_digits_props(n);
    assert forall|j: int| from <= j < from + t.len() implies is_digit(#[trigger] s[j]) by {
        assert(s[j] == s.subrange(from, from + t.len() as int)[j - from]);
    }
    lemma_digit_run_exact(s, from, t.len() as int);
}

/// Parsing the payload an encoder produced gives the pixels back.
proof fn lemma_payload_binary_round_trip(colors: Seq<Rgb>, wide: bool)
    ensures
        parse_payload_binary(payload_binary(colors, wide), wide, colors.len() as int) == Some(
            colors,
        ),
    decreases colors.len(),
{
    let s = payload_binary(colors, wide);
    if colors.len() == 0 {
        assert(colors =~= Seq::<Rgb>::empty());
    } else {
        let c0 = colors.first();
        let rest = colors.drop_first();
        let psize: int = if wide {
            6
        } else {
            3
        };
        assert(s == pixel_binary(c0, wide) + payload_binary(rest, wide));
        assert(s.skip(psize) =~= payload_binary(rest, wide));
        lemma_payload_binary_round_trip(rest, wide);
        if wide {
            assert(s[0] == 0 && s[2] == 0 && s[4] == 0);
            assert(Rgb { red: s[1], green: s[3], blue: s[5] } == c0);
        } else {
            assert(Rgb { red: s[0], green: s[1], blue: s[2] } == c0);
        }
        assert(seq![c0] + rest =~= colors);
    }
}

/// Parsing the ASCII payload an encoder produced gives the pixels back.
proof fn lemma_payload_ascii_round_trip(colors: Seq<Rgb>)
    ensures
        parse_payload_ascii(payload_ascii(colors), colors.len() as int) == Some(colors),
    decreases colors.len(),
{
    let s = payload_ascii(colors);
    if colors.len() == 0 {
        assert(colors =~= Seq::<Rgb>::empty());
    } else {
        let c0 = colors.first();
        let rest = colors.drop_first();
        let lr = dec_digits(c0.red as int).len() as int;
        let lg = dec_digits(c0.green as int).len() as int;
        let lb = dec_digits(c0.blue as int).len() as int;
        let q1 = lr;
        let q2 = q1 + 1 + lg;
        let q3 = q2 + 1 + lb;
        assert(s == pixel_ascii(c0) + payload_ascii(rest));
        assert(s.subrange(0, lr) =~= dec_digits(c0.red as int));
        assert(s[q1] == 32);
        lemma_parse_num_at(s, 0, c0.red as int);
        assert(s.subrange(q1 + 1, q1 + 1 + lg) =~= dec_digits(c0.green as int));
        assert(s[q2] == 32);
        lemma_parse_num_at(s, q1 + 1, c0.green as int);
        assert(s.subrange(q2 + 1, q2 + 1 + lb) =~= dec_digits(c0.blue as int));
        assert(s[q3] == 10);
        lemma_parse_num_at(s, q2 + 1, c0.blue as int);
        assert(s.skip(q3 + 1) =~= payload_ascii(rest));
        lemma_payload_ascii_round_trip(rest);
        assert(Rgb {
            red: (c0.red as int) as u8,
            green: (c0.green as int) as u8,
            blue: (c0.blue as int) as u8,
        } == c0);
        assert(seq![c0] + rest =~= colors);
    }
}

/// Parsing the header an encoder produced gives the three fields back
/// and stops exactly where the payload begins.
proof fn lemma_parse_header_round_trip(m: GridModel, magic: u8, payload: Seq<u8>)
    requires
        m.wf(),
    ensures
        parse_header(header_bytes(magic, m.width, m.height, m.color_depth) + payload, magic)
            == Some(
            (
                m.width,
                m.height,
                m.color_depth,
                header_bytes(magic, m.width, m.height, m.color_depth).len() as int,
            ),
        ),
        (header_bytes(magic, m.width, m.height, m.color_depth) + payload).skip(
            header_bytes(magic, m.width, m.height, m.color_depth).len() as int,
        ) == payload,
{
    let hw = dec_digits(m.width);
    let hh = dec_digits(m.height);
    let hd = dec_digits(m.color_depth);
    let hdr = header_bytes(magic, m.width, m.height, m.color_depth);
    let s = hdr + payload;
    let a1 = 3 + hw.len() as int;
    let a2 = a1 + 1 + hh.len() as int;
    let a3 = a2 + 1 + hd.len() as int;
    assert(hdr.len() == a3 + 1);
    assert(s[0] == 80 && s[1] == magic && s[2] == 10);
    assert(s.subrange(3, a1) =~= hw);
    assert(s[a1] == 32);
    lemma_parse_num_at(s, 3, m.width);
    assert(s.subrange(a1 + 1, a2) =~= hh);
    assert(s[a2] == 32);
    lemma_parse_num_at(s, a1 + 1, m.height);
    assert(s.subrange(a2 + 1, a3) =~= hd);
    assert(s[a3] == 10);
    lemma_parse_num_at(s, a2 + 1, m.color_depth);
    assert(s.skip(a3 + 1) =~= payload);
}

/// Round trip through the binary format: re-parsing what
/// `encode_binary` produced reproduces the width, the height, the color
/// depth and every pixel value.
pub proof fn lemma_binary_round_trip(m: GridModel)
    requires
        m.wf(),
    ensures
        parse_binary_model(encode_binary_model(m)) == Some(
            ImageModel {
                width: m.width,
                height: m.height,
                color_depth: m.color_depth,
                colors: m.colors,
            },
        ),
{
    let wide = m.color_depth >= 256;
    lemma_parse_header_round_trip(m, 54, payload_binary(m.colors, wide));
    lemma_payload_binary_round_trip(m.colors, wide);
}

/// Round trip through the ASCII format: re-parsing what `encode_ascii`
/// produced reproduces the width, the height, the color depth and every
/// pixel value.
pub proof fn lemma_ascii_round_trip(m: GridModel)
    requires
        m.wf(),
    ensures
        parse_ascii_model(encode_ascii_model(m)) == Some(
            ImageModel {
                width: m.width,
                height: m.height,
                color_depth: m.color_depth,
                colors: m.colors,
            },
        ),
{
    lemma_parse_header_round_trip(m, 51, payload_ascii(m.colors));
    lemma_payload_ascii_round_trip(m.colors);
}

/// Appending one color to the payload appends its pixel bytes.
proof fn lemma_payload_binary_push(colors: Seq<Rgb>, c: Rgb, wide: bool)
    ensures
        payload_binary(colors.push(c), wide) == payload_binary(colors, wide) + pixel_binary(
            c,
            wide,
        ),
    decreases colors.len(),
{
    if colors.len() == 0 {
        assert(colors.push(c).first() == c);
        assert(colors.push(c).drop_first() =~= Seq::<Rgb>::empty());
        assert(payload_binary(Seq::<Rgb>::empty(), wide) =~= Seq::<u8>::empty());
        assert(payload_binary(colors.push(c), wide) =~= payload_binary(colors, wide)
            + pixel_binary(c, wide));
    } else {
        assert(colors.push(c).first() == colors.first());
        assert(colors.push(c).drop_first() =~= colors.drop_first().push(c));
        lemma_payload_binary_push(colors.drop_first(), c, wide);
        assert(payload_binary(colors.push(c), wide) =~= payload_binary(colors, wide)
            + pixel_binary(c, wide));
    }
}

/// Appending one color to the ASCII payload appends its pixel line.
proof fn lemma_payload_ascii_push(colors: Seq<Rgb>, c: Rgb)
    ensures
        payload_ascii(colors.push(c)) == payload_ascii(colors) + pixel_ascii(c),
    decreases colors.len(),
{
    if colors.len() == 0 {
        assert(colors.push(c).first() == c);
        assert(colors.push(c).drop_first() =~= Seq::<Rgb>::empty());
        assert(payload_ascii(Seq::<Rgb>::empty()) =~= Seq::<u8>::empty());
        assert(payload_ascii(colors.push(c)) =~= payload_ascii(colors) + pixel_ascii(c));
    } else {
        assert(colors.push(c).first() == colors.first());
        assert(colors.push(c).drop_first() =~= colors.drop_first().push(c));
        lemma_payload_ascii_push(colors.drop_first(), c);
        assert(payload_ascii(colors.push(c)) =~= payload_ascii(colors) + pixel_ascii(c));
    }
}

/// A number parse in a suffix is the same parse shifted: reading at
/// `off` in `s.skip(base)` reads what stands at `base + off` in `s`.
proof fn lemma_digit_run_shift(s: Seq<u8>, base: int, off: int)
    requires
        0 <= base <= s.len(),
        0 <= off,
    ensures
        digit_run(s.skip(base), off) == digit_run(s, base + off),
    decreases s.len() - (base + off),
{
    if off < s.len() - base && is_digit(s.skip(base)[off]) {
        lemma_digit_run_shift(s, base, off + 1);
    }
}

/// See `lemma_digit_run_shift`: the parsed value and the end position
/// shift along with the suffix.
proof fn lemma_parse_num_shift(s: Seq<u8>, base: int, off: int)
    requires
        0 <= base <= s.len(),
        0 <= off,
    ensures
        parse_num(s.skip(base), off) == (match parse_num(s, base + off) {
            None => None::<(int, int)>,
            Some(q) => Some((q.0, q.1 - base)),
        }),
{
    lemma_digit_run_shift(s, base, off);
    lemma_digit_run_bounds(s, base + off);
    let k = digit_run(s, base + off);
    if k > 0 {
        assert(s.skip(base).subrange(off, off + k) =~= s.subrange(base + off, base + off + k));
    }
}

/// A digit run is never negative and never runs past the end.
proof fn lemma_digit_run_bounds(s: Seq<u8>, from: int)
    ensures
        0 <= digit_run(s, from),
        0 <= from <= s.len() ==> from + digit_run(s, from) <= s.len(),
    decreases s.len() - from,
{
    if 0 <= from && from < s.len() && is_digit(s[from]) {
        lemma_digit_run_bounds(s, from + 1);
    }
}

/// Tell whether the byte at `i` is a decimal digit.
fn digit_at(bytes: &Vec<u8>, i: usize) -> (r: bool)
    requires
        i < bytes@.len(),
    ensures
        r == is_digit(bytes@[i as int]),
{
    let b = bytes[i];
    48 <= b && b <= 57
}

/// Read one decimal number at `from`: the position just past its
/// digits, and its value, clamped once it can no longer be a valid
/// header field or channel; a clamped result is reported at least
/// 2^32, and only for a true value at least 2^32.
fn scan_num(bytes: &Vec<u8>, from: usize) -> (r: Option<(u64, usize)>)
    requires
        from <= bytes@.len(),
    ensures
        match r {
            Some(p) => {
                &&& from < p.1 <= bytes@.len()
                &&& match parse_num(bytes@, from as int) {
                    Some(q) => p.1 == q.1 && (q.0 == p.0 || (q.0 >= 0x100000000 && p.0
                        >= 0x100000000)),
                    None => false,
                }
            },
            None => parse_num(bytes@, from as int) is None,
        },
{
    let ghost s = bytes@;
    let n = bytes.len();
    let mut end = from;
    loop
        invariant
            s == bytes@,
            from <= end <= n,
            n == s.len(),
            forall|j: int| from <= j < end ==> is_digit(#[trigger] s[j]),
        ensures
            from <= end <= n,
            forall|j: int| from <= j < end ==> is_digit(#[trigger] s[j]),
            end == n || !is_digit(s[end as int]),
        decreases n - end,
    {
        if end == n {
            break;
        }
        if !digit_at(bytes, end) {
            break;
        }
        end = end + 1;
    }
    proof {
        lemma_digit_run_exact(s, from as int, end - from);
    }
    if end == from {
        return None;
    }
    let mut pos = from;
    let mut v: u64 = 0;
    while pos < end
        invariant
            s == bytes@,
            from <= pos <= end <= n,
            n == s.len(),
            forall|j: int| from <= j < end ==> is_digit(#[trigger] s[j]),
            digits_val(s.subrange(from as int, pos as int)) >= 0,
            (v == digits_val(s.subrange(from as int, pos as int)) && v < 0x100000000) || (v
                >= 0x100000000 && digits_val(s.subrange(from as int, pos as int)) >= 0x100000000),
        decreases end - pos,
    {
        let ghost val0 = digits_val(s.subrange(from as int, pos as int));
        let b = bytes[pos];
        let d = (b - 48) as u64;
        if v < 0x100000000 {
            v = v * 10 + d;
        }
        pos = pos + 1;
        proof {
            assert(s.subrange(from as int, pos as int).drop_last() =~= s.subrange(
                from as int,
                pos as int - 1,
            ));
            assert(s.subrange(from as int, pos as int).last() == s[pos as int - 1]);
            assert(digits_val(s.subrange(from as int, pos as int)) == val0 * 10 + (b - 48));
        }
    }
    Some((v, end))
}

/// Parse an image from the binary (`P6`) format, exactly as the
/// companion encoder writes it. The buffer comes back with the default
/// wrap and inversion policy and with every depth cell empty.
pub fn parse_binary(bytes: &Vec<u8>) -> (r: Option<Ppm>)
    ensures
        match r {
            Some(p) => {
                &&& p.wf()
                &&& !p@.wrap_x
                &&& !p@.wrap_y
                &&& p@.invert_y
                &&& parse_binary_model(bytes@) == Some(
                    ImageModel {
                        width: p@.width,
                        height: p@.height,
                        color_depth: p@.color_depth,
                        colors: p@.colors,
                    },
                )
                &&& p@.depths == Seq::new(p@.colors.len(), |i: int| None::<int>)
            },
            None => parse_binary_model(bytes@) is None,
        },
{
    let ghost s = bytes@;
    let n = bytes.len();
    if n < 3 || bytes[0] != 80 || bytes[1] != 54 || bytes[2] != 10 {
        return None;
    }
    let (w64, p1) = match scan_num(bytes, 3) {
        None => { return None; },
        Some(x) => x,
    };
    if p1 >= n || bytes[p1] != 32 {
        return None;
    }
    let (h64, p2) = match scan_num(bytes, p1 + 1) {
        None => { return None; },
        Some(x) => x,
    };
    if p2 >= n || bytes[p2] != 32 {
        return None;
    }
    let (d64, p3) = match scan_num(bytes, p2 + 1) {
        None => { return None; },
        Some(x) => x,
    };
    if p3 >= n || bytes[p3] != 10 {
        return None;
    }
    if w64 == 0 || h64 == 0 || d64 == 0 || d64 > 65535 {
        return None;
    }
    if w64 >= 0x40000000 || h64 >= 0x40000000 {
        proof {
            let wv = parse_num(s, 3).unwrap().0;
            let hv = parse_num(s, p1 as int + 1).unwrap().0;
            if 1 <= wv && 1 <= hv {
                assert(wv * hv >= wv && wv * hv >= hv) by (nonlinear_arith)
                    requires
                        1 <= wv,
                        1 <= hv,
                ;
            }
        }
        return None;
    }
    proof {
        assert((w64 as int) * (h64 as int) < 0x1000000000000000) by (nonlinear_arith)
            requires
                w64 < 0x40000000,
                h64 < 0x40000000,
                0 <= w64,
                0 <= h64,
        ;
    }
    let count = w64 * h64;
    if count >= 0x40000000 {
        return None;
    }
    let wide = d64 >= 256;
    let psize: usize = if wide {
        6
    } else {
        3
    };
    let start = p3 + 1;
    let ghost whole = s.skip(start as int);
    let ghost total = count as int;
    let mut acc: Vec<Rgb> = Vec::new();
    let mut pos = start;
    let mut i: u64 = 0;
    proof {
        assert(parse_header(s, 54) == Some(
            ((w64 as int), (h64 as int), (d64 as int), (start as int)),
        ));
        let r0 = parse_payload_binary(whole, wide, total);
        if r0 is Some {
            assert(Seq::<Rgb>::empty() + r0.unwrap() =~= r0.unwrap());
        }
    }
    while i < count
        invariant
            s == bytes@,
            n == s.len(),
            start <= pos <= n,
            0 <= i <= count,
            count < 0x40000000,
            acc@.len() == i,
            psize == (if wide { 6int } else { 3int }),
            whole == s.skip(start as int),
            total == count,
            parse_header(s, 54) == Some(
                ((w64 as int), (h64 as int), (d64 as int), (start as int)),
            ),
            wide == (d64 >= 256),
            total == (w64 as int) * (h64 as int),
            parse_payload_binary(whole, wide, total) == (match parse_payload_binary(
                s.skip(pos as int),
                wide,
                total - i,
            ) {
                Some(rest) => Some(acc@ + rest),
                None => None::<Seq<Rgb>>,
            }),
        decreases count - i,
    {
        let ghost suf = s.skip(pos as int);
        if n - pos < psize {
            return None;
        }
        let c: Rgb;
        if wide {
            if bytes[pos] != 0 || bytes[pos + 2] != 0 || bytes[pos + 4] != 0 {
                return None;
            }
            c = Rgb { red: bytes[pos + 1], green: bytes[pos + 3], blue: bytes[pos + 5] };
        } else {
            c = Rgb { red: bytes[pos], green: bytes[pos + 1], blue: bytes[pos + 2] };
        }
        let ghost acc0 = acc@;
        acc.push(c);
        pos = pos + psize;
        i = i + 1;
        proof {
            assert(suf.skip(psize as int) =~= s.skip(pos as int));
            let rest_opt = parse_payload_binary(s.skip(pos as int), wide, total - i);
            if rest_opt is Some {
                let rest = rest_opt.unwrap();
                assert(acc0 + (seq![c] + rest) =~= acc@ + rest);
            }
        }
    }
    if pos != n {
        return None;
    }
    proof {
        assert(s.skip(pos as int) =~= Seq::<u8>::empty());
        assert(acc@ + Seq::<Rgb>::empty() =~= acc@);
        assert(w64 * h64 >= 1 && w64 * h64 == count) by (nonlinear_arith)
            requires
                1 <= w64,
                1 <= h64,
                count == w64 * h64,
        ;
    }
    let p = PpmBuilder::new(h64 as usize, w64 as usize, d64 as u16).with_data(acc).build();
    Some(p)
}

/// Parse an image from the ASCII (`P3`) format, exactly as the
/// companion encoder writes it. The buffer comes back with the default
/// wrap and inversion policy and with every depth cell empty.
pub fn parse_ascii(bytes: &Vec<u8>) -> (r: Option<Ppm>)
    ensures
        match r {
            Some(p) => {
                &&& p.wf()
                &&& !p@.wrap_x
                &&& !p@.wrap_y
                &&& p@.invert_y
                &&& parse_ascii_model(bytes@) == Some(
                    ImageModel {
                        width: p@.width,
                        height: p@.height,
                        color_depth: p@.color_depth,
                        colors: p@.colors,
                    },
                )
                &&& p@.depths == Seq::new(p@.colors.len(), |i: int| None::<int>)
            },
            None => parse_ascii_model(bytes@) is None,
        },
{
    let ghost s = bytes@;
    let n = bytes.len();
    if n < 3 || bytes[0] != 80 || bytes[1] != 51 || bytes[2] != 10 {
        return None;
    }
    let (w64, p1) = match scan_num(bytes, 3) {
        None => { return None; },
        Some(x) => x,
    };
    if p1 >= n || bytes[p1] != 32 {
        return None;
    }
    let (h64, p2) = match scan_num(bytes, p1 + 1) {
        None => { return None; },
        Some(x) => x,
    };
    if p2 >= n || bytes[p2] != 32 {
        return None;
    }
    let (d64, p3) = match scan_num(bytes, p2 + 1) {
        None => { return None; },
        Some(x) => x,
    };
    if p3 >= n || bytes[p3] != 10 {
        return None;
    }
    if w64 == 0 || h64 == 0 || d64 == 0 || d64 > 65535 {
        return None;
    }
    if w64 >= 0x40000000 || h64 >= 0x40000000 {
        proof {
            let wv = parse_num(s, 3).unwrap().0;
            let hv = parse_num(s, p1 as int + 1).unwrap().0;
            if 1 <= wv && 1 <= hv {
                assert(wv * hv >= wv && wv * hv >= hv) by (nonlinear_arith)
                    requires
                        1 <= wv,
                        1 <= hv,
                ;
            }
        }
        return None;
    }
    proof {
        assert((w64 as int) * (h64 as int) < 0x1000000000000000) by (nonlinear_arith)
            requires
                w64 < 0x40000000,
                h64 < 0x40000000,
                0 <= w64,
                0 <= h64,
        ;
    }
    let count = w64 * h64;
    if count >= 0x40000000 {
        return None;
    }
    let start = p3 + 1;
    let ghost whole = s.skip(start as int);
    let ghost total = count as int;
    let mut acc: Vec<Rgb> = Vec::new();
    let mut pos = start;
    let mut i: u64 = 0;
    proof {
        assert(parse_header(s, 51) == Some(
            ((w64 as int), (h64 as int), (d64 as int), (start as int)),
        ));
        let r0 = parse_payload_ascii(whole, total);
        if r0 is Some {
            assert(Seq::<Rgb>::empty() + r0.unwrap() =~= r0.unwrap());
        }
    }
    while i < count
        invariant
            s == bytes@,
            n == s.len(),
            start <= pos <= n,
            0 <= i <= count,
            count < 0x40000000,
            acc@.len() == i,
            whole == s.skip(start as int),
            total == count,
            parse_header(s, 51) == Some(
                ((w64 as int), (h64 as int), (d64 as int), (start as int)),
            ),
            total == (w64 as int) * (h64 as int),
            parse_payload_ascii(whole, total) == (match parse_payload_ascii(
                s.skip(pos as int),
                total - i,
            ) {
                Some(rest) => Some(acc@ + rest),
                None => None::<Seq<Rgb>>,
            }),
        decreases count - i,
    {
        let ghost suf = s.skip(pos as int);
        let ghost pos0 = pos as int;
        proof {
            lemma_parse_num_shift(s, pos as int, 0);
        }
        let (r64, q1) = match scan_num(bytes, pos) {
            None => { return None; },
            Some(x) => x,
        };
        if q1 >= n || bytes[q1] != 32 {
            return None;
        }
        proof {
            lemma_parse_num_shift(s, pos as int, q1 - pos + 1);
        }
        let (g64, q2) = match scan_num(bytes, q1 + 1) {
            None => { return None; },
            Some(x) => x,
        };
        if q2 >= n || bytes[q2] != 32 {
            return None;
        }
        proof {
            lemma_parse_num_shift(s, pos as int, q2 - pos + 1);
        }
        let (b64, q3) = match scan_num(bytes, q2 + 1) {
            None => { return None; },
            Some(x) => x,
        };
        if q3 >= n || bytes[q3] != 10 {
            return None;
        }
        if r64 > 255 || g64 > 255 || b64 > 255 {
            return None;
        }
        let c = Rgb { red: r64 as u8, green: g64 as u8, blue: b64 as u8 };
        let ghost acc0 = acc@;
        acc.push(c);
        pos = q3 + 1;
        i = i + 1;
        proof {
            assert(suf.skip(q3 as int + 1 - pos0) =~= s.skip(pos as int));
            let rest_opt = parse_payload_ascii(s.skip(pos as int), total - i);
            if rest_opt is Some {
                let rest = rest_opt.unwrap();
                assert(acc0 + (seq![c] + rest) =~= acc@ + rest);
            }
        }
    }
    if pos != n {
        return None;
    }
    proof {
        assert(s.skip(pos as int) =~= Seq::<u8>::empty());
        assert(acc@ + Seq::<Rgb>::empty() =~= acc@);
        assert(w64 * h64 >= 1 && w64 * h64 == count) by (nonlinear_arith)
            requires
                1 <= w64,
                1 <= h64,
                count == w64 * h64,
        ;
    }
    let p = PpmBuilder::new(h64 as usize, w64 as usize, d64 as u16).with_data(acc).build();
    Some(p)
}

/// Append the decimal digits of `n` to `out`.
fn push_dec(out: &mut Vec<u8>, n: u64)
    ensures
        final(out)@ == old(out)@ + dec_digits(n as int),
    decreases n,
{
    if n < 10 {
        out.push(48 + n as u8);
        proof {
            assert(final(out)@ =~= old(out)@ + dec_digits(n as int));
        }
    } else {
        proof {
            vstd::arithmetic::div_mod::lemma_div_decreases(n as int, 10);
            vstd::arithmetic::div_mod::lemma_div_pos_is_pos(n as int, 10);
            vstd::arithmetic::div_mod::lemma_mod_bound(n as int, 10);
        }
        push_dec(out, n / 10);
        out.push(48 + (n % 10) as u8);
        proof {
            assert(final(out)@ =~= old(out)@ + dec_digits(n as int));
        }
    }
}

impl Ppm {
    /// Append the header line pair shared by both formats.
    fn push_header(&self, out: &mut Vec<u8>, magic: u8)
        requires
            self.wf(),
        ensures
            final(out)@ == old(out)@ + header_bytes(magic, self@.width, self@.height, self@.color_depth),
    {
        out.push(80);
        out.push(magic);
        out.push(10);
        push_dec(out, self.width() as u64);
        out.push(32);
        push_dec(out, self.height() as u64);
        out.push(32);
        push_dec(out, self.color_depth() as u64);
        out.push(10);
        proof {
            assert(final(out)@ =~= old(out)@ + header_bytes(
                magic,
                self@.width,
                self@.height,
                self@.color_depth,
            ));
        }
    }

    /// Encode the image in the binary (`P6`) format.
    pub fn encode_binary(&self) -> (out: Vec<u8>)
        requires
            self.wf(),
        ensures
            out@ == encode_binary_model(self@),
    {
        let mut out: Vec<u8> = Vec::new();
        self.push_header(&mut out, 54);
        let ghost hdr = out@;
        let wide = self.color_depth() >= 256;
        let n = self.width() * self.height();
        proof {
            assert(self@.colors.len() == n);
        }
        let mut i: usize = 0;
        while i < n
            invariant
                self.wf(),
                n == self@.colors.len(),
                i <= n,
                wide == (self@.color_depth >= 256),
                out@ == hdr + payload_binary(self@.colors.take(i as int), wide),
            decreases n - i,
        {
            let c = self.pixel_at(i);
            if wide {
                out.push(0);
                out.push(c.red);
                out.push(0);
                out.push(c.green);
                out.push(0);
                out.push(c.blue);
            } else {
                out.push(c.red);
                out.push(c.green);
                out.push(c.blue);
            }
            proof {
                lemma_payload_binary_push(self@.colors.take(i as int), c, wide);
                assert(self@.colors.take(i as int).push(c) =~= self@.colors.take(i as int + 1));
                assert(out@ =~= hdr + payload_binary(self@.colors.take(i as int + 1), wide));
            }
            i = i + 1;
        }
        proof {
            assert(self@.colors.take(n as int) =~= self@.colors);
        }
        out
    }

    /// Encode the image in the ASCII (`P3`) format.
    pub fn encode_ascii(&self) -> (out: Vec<u8>)
        requires
            self.wf(),
        ensures
            out@ == encode_ascii_model(self@),
    {
        let mut out: Vec<u8> = Vec::new();
        self.push_header(&mut out, 51);
        let ghost hdr = out@;
        let n = self.width() * self.height();
        proof {
            assert(self@.colors.len() == n);
        }
        let mut i: usize = 0;
        while i < n
            invariant
                self.wf(),
                n == self@.colors.len(),
                i <= n,
                out@ == hdr + payload_ascii(self@.colors.take(i as int)),
            decreases n - i,
        {
            let c = self.pixel_at(i);
            push_dec(&mut out, c.red as u64);
            out.push(32);
            push_dec(&mut out, c.green as u64);
            out.push(32);
            push_dec(&mut out, c.blue as u64);
            out.push(10);
            proof {
                lemma_payload_ascii_push(self@.colors.take(i as int), c);
                assert(self@.colors.take(i as int).push(c) =~= self@.colors.take(i as int + 1));
                assert(out@ =~= hdr + payload_ascii(self@.colors.take(i as int + 1)));
            }
            i = i + 1;
        }
        proof {
            assert(self@.colors.take(n as int) =~= self@.colors);
        }
        out
    }
}

} // verus!
