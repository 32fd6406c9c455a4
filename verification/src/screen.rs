//! The line rasterizer: octant-correct Bresenham stepping with an exact
//! closed-form specification.
//!
//! A line is first put into a canonical direction (the lexicographically
//! smaller endpoint goes first), then classified as x-major or y-major.
//! Along the dominant axis every unit step yields exactly one point; the
//! minor ordinate after `i` of `n` steps rising `m` is the nearest integer
//! to `i*m/n`, with ties rounded towards the start. Because the traversal
//! direction is canonical, drawing from `A` to `B` and from `B` to `A`
//! plots the identical point sequence.
//!
//! The depth passed to each plot is piecewise constant: each point takes
//! the depth of the endpoint nearer to it along the dominant axis (the
//! degenerate constant-depth case when both endpoints share a depth).

use vstd::prelude::*;

use crate::color::Rgb;
use crate::ppm::GridModel;
use crate::ppm::Ppm;
use crate::ppm::clear_model;
use crate::ppm::plot_model;

verus! {

/// A point with 64-bit coordinates, as the mathematical triple it stands
/// for.
pub open spec fn lift_point(p: (i64, i64, i64)) -> (int, int, int) {
    (p.0 as int, p.1 as int, p.2 as int)
}

/// A vector of such points, as the sequence of triples it stands for.
pub open spec fn lift_points(s: Seq<(i64, i64, i64)>) -> Seq<(int, int, int)> {
    Seq::new(s.len(), |i: int| lift_point(s[i]))
}

/// The coordinate range the rasterizer accepts: small enough that every
/// intermediate product of the stepping arithmetic fits in 64 bits.
pub open spec fn coord_ok(p: (i64, i64, i64)) -> bool {
    &&& -1000000000 <= p.0 <= 1000000000
    &&& -1000000000 <= p.1 <= 1000000000
    &&& -1000000000 <= p.2 <= 1000000000
}

/// Lexicographic order on point triples; the canonical traversal starts
/// at the smaller endpoint.
pub open spec fn lex_le(p: (int, int, int), q: (int, int, int)) -> bool {
    ||| p.0 < q.0
    ||| (p.0 == q.0 && p.1 < q.1)
    ||| (p.0 == q.0 && p.1 == q.1 && p.2 <= q.2)
}

/// The canonical first endpoint of the line through `p0` and `p1`.
pub open spec fn line_start(p0: (int, int, int), p1: (int, int, int)) -> (int, int, int) {
    if lex_le(p0, p1) {
        p0
    } else {
        p1
    }
}

/// The canonical last endpoint of the line through `p0` and `p1`.
pub open spec fn line_end(p0: (int, int, int), p1: (int, int, int)) -> (int, int, int) {
    if lex_le(p0, p1) {
        p1
    } else {
        p0
    }
}

/// The number of unit steps along the dominant axis.
pub open spec fn line_steps(p0: (int, int, int), p1: (int, int, int)) -> int {
    let a = line_start(p0, p1);
    let b = line_end(p0, p1);
    vstd::math::max(b.0 - a.0, vstd::math::abs(b.1 - a.1) as int)
}

/// The Bresenham minor ordinate: after `i` of `n` dominant steps that
/// rise `m` in total (`0 <= m <= n`, `n >= 1`), the minor axis has
/// advanced by the nearest integer to `i*m/n`, ties rounded down.
pub open spec fn bres_step(i: int, n: int, m: int) -> int {
    (2 * i * m + n - 1) / (2 * n)
}

/// The `i`-th point of the canonical traversal from `line_start` to
/// `line_end`: the dominant axis advances by exactly one per step, the
/// minor axis follows `bres_step`, and the depth is that of the nearer
/// endpoint along the dominant axis.
pub open spec fn line_point(p0: (int, int, int), p1: (int, int, int), i: int) -> (int, int, int) {
    let a = line_start(p0, p1);
    let b = line_end(p0, p1);
    let dx = b.0 - a.0;
    let dy = b.1 - a.1;
    let sy: int = if dy < 0 {
        -1
    } else {
        1
    };
    let ady = vstd::math::abs(dy) as int;
    let n = line_steps(p0, p1);
    let z = if 2 * i <= n {
        a.2
    } else {
        b.2
    };
    if n == 0 {
        (a.0, a.1, z)
    } else if ady <= dx {
        (a.0 + i, a.1 + sy * bres_step(i, dx, ady), z)
    } else {
        (a.0 + bres_step(i, ady, dx), a.1 + sy * i, z)
    }
}

/// The full point sequence of the line through `p0` and `p1`: one point
/// per dominant-axis step, both endpoints included.
pub open spec fn line_seq(p0: (int, int, int), p1: (int, int, int)) -> Seq<(int, int, int)> {
    Seq::new((line_steps(p0, p1) + 1) as nat, |i: int| line_point(p0, p1, i))
}

/// What plotting a sequence of points in one color does to a framebuffer
/// model: the points are plotted in order, each through the ordinary
/// depth-tested `plot`.
pub open spec fn plot_seq_model(m: GridModel, pts: Seq<(int, int, int)>, color: Rgb) -> GridModel
    decreases pts.len(),
{
    if pts.len() == 0 {
        m
    } else {
        plot_model(
            plot_seq_model(m, pts.drop_last(), color),
            pts.last().0,
            pts.last().1,
            pts.last().2,
            color,
        )
    }
}

/// Plotting one more point at the end of a sequence is one more `plot`.
pub proof fn lemma_plot_seq_push(m: GridModel, pts: Seq<(int, int, int)>, p: (int, int, int), color: Rgb)
    ensures
        plot_seq_model(m, pts.push(p), color) == plot_model(
            plot_seq_model(m, pts, color),
            p.0,
            p.1,
            p.2,
            color,
        ),
{
    assert(pts.push(p).drop_last() =~= pts);
    assert(pts.push(p).last() == p);
}

/// One `plot` keeps the configuration, the storage sizes and
/// well-formedness of the model.
pub proof fn lemma_plot_model_preserves(m: GridModel, x: int, y: int, z: int, color: Rgb)
    requires
        m.wf(),
    ensures
        plot_model(m, x, y, z, color).width == m.width,
        plot_model(m, x, y, z, color).height == m.height,
        plot_model(m, x, y, z, color).color_depth == m.color_depth,
        plot_model(m, x, y, z, color).wrap_x == m.wrap_x,
        plot_model(m, x, y, z, color).wrap_y == m.wrap_y,
        plot_model(m, x, y, z, color).invert_y == m.invert_y,
        plot_model(m, x, y, z, color).colors.len() == m.colors.len(),
        plot_model(m, x, y, z, color).depths.len() == m.depths.len(),
        plot_model(m, x, y, z, color).wf(),
{
    if m.resolve(x, y) is Some {
        crate::ppm::lemma_resolve_in_bounds(m, x, y);
    }
}

/// Plotting any sequence keeps the configuration, the storage sizes and
/// well-formedness of the model.
pub proof fn lemma_plot_seq_preserves(m: GridModel, pts: Seq<(int, int, int)>, color: Rgb)
    requires
        m.wf(),
    ensures
        plot_seq_model(m, pts, color).width == m.width,
        plot_seq_model(m, pts, color).height == m.height,
        plot_seq_model(m, pts, color).color_depth == m.color_depth,
        plot_seq_model(m, pts, color).wrap_x == m.wrap_x,
        plot_seq_model(m, pts, color).wrap_y == m.wrap_y,
        plot_seq_model(m, pts, color).invert_y == m.invert_y,
        plot_seq_model(m, pts, color).colors.len() == m.colors.len(),
        plot_seq_model(m, pts, color).depths.len() == m.depths.len(),
        plot_seq_model(m, pts, color).wf(),
    decreases pts.len(),
{
    if pts.len() > 0 {
        lemma_plot_seq_preserves(m, pts.drop_last(), color);
        lemma_plot_model_preserves(
            plot_seq_model(m, pts.drop_last(), color),
            pts.last().0,
            pts.last().1,
            pts.last().2,
            color,
        );
    }
}

/// At the start of a run no minor advance has happened yet.
proof fn lemma_bres_zero(n: int, m: int)
    requires
        1 <= n,
        0 <= m <= n,
    ensures
        bres_step(0, n, m) == 0,
{
    assert(2 * 0 * m == 0) by (nonlinear_arith);
    assert(bres_step(0, n, m) == (n - 1) / (2 * n));
    vstd::arithmetic::div_mod::lemma_basic_div(n - 1, 2 * n);
}

/// At the end of a run the whole rise has been taken.
proof fn lemma_bres_last(n: int, m: int)
    requires
        1 <= n,
        0 <= m <= n,
    ensures
        bres_step(n, n, m) == m,
{
    assert(2 * n * m + n - 1 == m * (2 * n) + (n - 1)) by (nonlinear_arith);
    vstd::arithmetic::div_mod::lemma_fundamental_div_mod_converse(
        2 * n * m + n - 1,
        2 * n,
        m,
        n - 1,
    );
}

/// The minor advance stays between nothing and the whole rise.
proof fn lemma_bres_bounds(i: int, n: int, m: int)
    requires
        1 <= n,
        0 <= m <= n,
        0 <= i <= n,
    ensures
        0 <= bres_step(i, n, m) <= m,
{
    assert(0 <= 2 * i * m && 2 * i * m <= 2 * n * m) by (nonlinear_arith)
        requires
            0 <= i <= n,
            0 <= m,
    ;
    vstd::arithmetic::div_mod::lemma_div_pos_is_pos(2 * i * m + n - 1, 2 * n);
    vstd::arithmetic::div_mod::lemma_div_is_ordered(2 * i * m + n - 1, 2 * n * m + n - 1, 2 * n);
    lemma_bres_last(n, m);
}

/// The decision-variable step: with `y` the minor advance after `i`
/// steps, the advance after `i + 1` steps grows by one exactly when the
/// full-increment decision value `2*(i+1)*m - 2*y*n - n` is positive.
proof fn lemma_bres_advance(i: int, n: int, m: int)
    requires
        1 <= n,
        0 <= m <= n,
        0 <= i < n,
    ensures
        bres_step(i + 1, n, m) == if 2 * (i + 1) * m - 2 * bres_step(i, n, m) * n - n > 0 {
            bres_step(i, n, m) + 1
        } else {
            bres_step(i, n, m)
        },
{
    let a = 2 * i * m + n - 1;
    let y = bres_step(i, n, m);
    let r = a % (2 * n);
    vstd::arithmetic::div_mod::lemma_fundamental_div_mod(a, 2 * n);
    vstd::arithmetic::div_mod::lemma_mod_bound(a, 2 * n);
    assert(a == 2 * n * y + r);
    assert(2 * (i + 1) * m - 2 * y * n - n == r + 2 * m - 2 * n + 1) by (nonlinear_arith)
        requires
            a == 2 * i * m + n - 1,
            a == 2 * n * y + r,
    ;
    if r + 2 * m >= 2 * n {
        assert(2 * (i + 1) * m + n - 1 == (y + 1) * (2 * n) + (r + 2 * m - 2 * n)) by (nonlinear_arith)
            requires
                a == 2 * i * m + n - 1,
                a == 2 * n * y + r,
        ;
        vstd::arithmetic::div_mod::lemma_fundamental_div_mod_converse(
            2 * (i + 1) * m + n - 1,
            2 * n,
            y + 1,
            r + 2 * m - 2 * n,
        );
    } else {
        assert(2 * (i + 1) * m + n - 1 == y * (2 * n) + (r + 2 * m)) by (nonlinear_arith)
            requires
                a == 2 * i * m + n - 1,
                a == 2 * n * y + r,
        ;
        vstd::arithmetic::div_mod::lemma_fundamental_div_mod_converse(
            2 * (i + 1) * m + n - 1,
            2 * n,
            y,
            r + 2 * m,
        );
    }
}

/// Drawing a line in either direction generates the identical point
/// sequence: the traversal is canonical, so the endpoints' order does not
/// matter.
pub proof fn lemma_line_symmetric(p0: (int, int, int), p1: (int, int, int))
    ensures
        line_seq(p0, p1) == line_seq(p1, p0),
{
    assert(line_start(p0, p1) == line_start(p1, p0));
    assert(line_end(p0, p1) == line_end(p1, p0));
    assert(line_seq(p0, p1) =~= line_seq(p1, p0));
}

/// The generated sequence is inclusive: it has one point per dominant
/// step, begins at the canonical start, and (for a line that is not a
/// single point) ends exactly at the canonical end.
pub proof fn lemma_line_endpoints(p0: (int, int, int), p1: (int, int, int))
    ensures
        line_seq(p0, p1).len() == line_steps(p0, p1) + 1,
        line_steps(p0, p1) >= 0,
        line_seq(p0, p1).first() == (line_start(p0, p1).0, line_start(p0, p1).1, line_start(p0, p1).2),
        line_steps(p0, p1) > 0 ==> line_seq(p0, p1).last() == line_end(p0, p1),
{
    let a = line_start(p0, p1);
    let b = line_end(p0, p1);
    let dx = b.0 - a.0;
    let dy = b.1 - a.1;
    let sy: int = if dy < 0 {
        -1
    } else {
        1
    };
    let ady = vstd::math::abs(dy) as int;
    let n = line_steps(p0, p1);
    if dy < 0 {
        assert(ady == -dy);
        assert(sy * ady == dy) by (nonlinear_arith)
            requires
                sy == -1,
                ady == -dy,
        ;
    } else {
        assert(sy * ady == dy) by (nonlinear_arith)
            requires
                sy == 1,
                ady == dy,
        ;
    }
    if n > 0 {
        if ady <= dx {
            lemma_bres_zero(dx, ady);
            lemma_bres_last(dx, ady);
            assert(sy * bres_step(0, dx, ady) == 0);
            assert(sy * bres_step(dx, dx, ady) == dy);
        } else {
            lemma_bres_zero(ady, dx);
            lemma_bres_last(ady, dx);
            assert(sy * 0 == 0);
            assert(sy * n == dy);
        }
    }
}

/// The traversal is monotonic and gapless: between consecutive points
/// the dominant axis advances by exactly one unit toward the end, and
/// the minor axis by at most one, always toward the end. No dominant
/// ordinate is skipped or repeated.
#[verifier::rlimit(100)]
#[verifier::spinoff_prover]
pub proof fn lemma_line_monotonic(p0: (int, int, int), p1: (int, int, int), i: int)
    requires
        0 <= i < line_steps(p0, p1),
    ensures
        ({
            let cur = line_seq(p0, p1)[i];
            let nxt = line_seq(p0, p1)[i + 1];
            let a = line_start(p0, p1);
            let b = line_end(p0, p1);
            if vstd::math::abs(b.1 - a.1) <= b.0 - a.0 {
                &&& nxt.0 == cur.0 + 1
                &&& (nxt.1 == cur.1 || (b.1 >= a.1 && nxt.1 == cur.1 + 1) || (b.1 < a.1 && nxt.1
                    == cur.1 - 1))
            } else {
                &&& ((b.1 >= a.1 && nxt.1 == cur.1 + 1) || (b.1 < a.1 && nxt.1 == cur.1 - 1))
                &&& (nxt.0 == cur.0 || nxt.0 == cur.0 + 1)
            }
        }),
{
    let a = line_start(p0, p1);
    let b = line_end(p0, p1);
    let dx = b.0 - a.0;
    let dy = b.1 - a.1;
    let ady = vstd::math::abs(dy) as int;
    let n = line_steps(p0, p1);
    assert(line_seq(p0, p1)[i] == line_point(p0, p1, i));
    assert(line_seq(p0, p1)[i + 1] == line_point(p0, p1, i + 1));
    if ady <= dx {
        assert(n == dx);
        lemma_bres_advance(i, dx, ady);
        let w0 = bres_step(i, dx, ady);
        let w1 = bres_step(i + 1, dx, ady);
        assert(w1 == w0 || w1 == w0 + 1);
        let u0 = line_point(p0, p1, i).1;
        let u1 = line_point(p0, p1, i + 1).1;
        if dy < 0 {
            assert(u0 == a.1 + (-1) * w0);
            assert(u1 == a.1 + (-1) * w1);
            assert(u1 == u0 || u1 == u0 - 1) by (nonlinear_arith)
                requires
                    u0 == a.1 + (-1) * w0,
                    u1 == a.1 + (-1) * w1,
                    w1 == w0 || w1 == w0 + 1,
            ;
        } else {
            assert(u0 == a.1 + 1 * w0);
            assert(u1 == a.1 + 1 * w1);
            assert(u1 == u0 || u1 == u0 + 1) by (nonlinear_arith)
                requires
                    u0 == a.1 + 1 * w0,
                    u1 == a.1 + 1 * w1,
                    w1 == w0 || w1 == w0 + 1,
            ;
        }
    } else {
        assert(n == ady);
        lemma_bres_advance(i, ady, dx);
        let w0 = bres_step(i, ady, dx);
        let w1 = bres_step(i + 1, ady, dx);
        assert(w1 == w0 || w1 == w0 + 1);
        let u0 = line_point(p0, p1, i).0;
        let u1 = line_point(p0, p1, i + 1).0;
        assert(u0 == a.0 + w0);
        assert(u1 == a.0 + w1);
        assert(u1 == u0 || u1 == u0 + 1);
        let v0 = line_point(p0, p1, i).1;
        let v1 = line_point(p0, p1, i + 1).1;
        if dy < 0 {
            assert(v0 == a.1 + (-1) * i);
            assert(v1 == a.1 + (-1) * (i + 1));
            assert(v1 == v0 - 1) by (nonlinear_arith)
                requires
                    v0 == a.1 + (-1) * i,
                    v1 == a.1 + (-1) * (i + 1),
            ;
        } else {
            assert(v0 == a.1 + 1 * i);
            assert(v1 == a.1 + 1 * (i + 1));
            assert(v1 == v0 + 1) by (nonlinear_arith)
                requires
                    v0 == a.1 + 1 * i,
                    v1 == a.1 + 1 * (i + 1),
            ;
        }
    }
}

/// Compute the Bresenham point sequence for the line through `p0` and
/// `p1`: exactly the canonical traversal `line_seq` of the two points.
pub fn line_points(p0: (i64, i64, i64), p1: (i64, i64, i64)) -> (pts: Vec<(i64, i64, i64)>)
    requires
        coord_ok(p0),
        coord_ok(p1),
    ensures
        lift_points(pts@) == line_seq(lift_point(p0), lift_point(p1)),
        pts@.len() == line_steps(lift_point(p0), lift_point(p1)) + 1,
{
    let ghost gp0 = lift_point(p0);
    let ghost gp1 = lift_point(p1);
    let le = p0.0 < p1.0 || (p0.0 == p1.0 && (p0.1 < p1.1 || (p0.1 == p1.1 && p0.2 <= p1.2)));
    let (a, b) = if le {
        (p0, p1)
    } else {
        (p1, p0)
    };
    proof {
        assert(lift_point(a) == line_start(gp0, gp1));
        assert(lift_point(b) == line_end(gp0, gp1));
    }
    let dx = b.0 - a.0;
    let dy = b.1 - a.1;
    let sy: i64 = if dy < 0 {
        -1
    } else {
        1
    };
    let ady = if dy < 0 {
        -dy
    } else {
        dy
    };
    let mut pts: Vec<(i64, i64, i64)> = Vec::new();
    if dx == 0 && ady == 0 {
        pts.push((a.0, a.1, a.2));
        proof {
            assert(line_steps(gp0, gp1) == 0);
            assert(lift_points(pts@) =~= line_seq(gp0, gp1));
        }
        return pts;
    }
    let (n, m) = if ady <= dx {
        (dx, ady)
    } else {
        (ady, dx)
    };
    let mut i: i64 = 0;
    let mut w: i64 = 0;
    let mut d: i64 = 2 * m - n;
    proof {
        lemma_bres_zero(n as int, m as int);
        assert(line_steps(gp0, gp1) == n);
        assert(-2 * (n as int) <= d && d <= 2 * (n as int)) by (nonlinear_arith)
            requires
                d == 2 * (m as int) - n,
                1 <= n,
                0 <= m <= n,
        ;
    }
    while i <= n
        invariant
            coord_ok(a),
            coord_ok(b),
            1 <= n <= 2000000000,
            0 <= m <= n,
            lift_point(a) == line_start(gp0, gp1),
            lift_point(b) == line_end(gp0, gp1),
            n == line_steps(gp0, gp1),
            dx == b.0 - a.0,
            dy == b.1 - a.1,
            sy == (if dy < 0 { -1int } else { 1int }),
            ady == vstd::math::abs(dy as int),
            (n == dx && m == ady && ady <= dx) || (n == ady && m == dx && ady > dx),
            0 <= i <= n + 1,
            i <= n ==> w == bres_step(i as int, n as int, m as int),
            i <= n ==> d == 2 * (i + 1) * m - 2 * w * n - n,
            i <= n ==> -2 * n <= d <= 2 * n,
            0 <= w <= m,
            pts@.len() == i,
            forall|j: int| 0 <= j < i ==> lift_point(pts@[j]) == line_point(gp0, gp1, j),
        decreases n + 1 - i,
    {
        let z = if 2 * i <= n {
            a.2
        } else {
            b.2
        };
        if ady <= dx {
            let yy = if dy < 0 {
                a.1 - w
            } else {
                a.1 + w
            };
            pts.push((a.0 + i, yy, z));
        } else {
            let yy = if dy < 0 {
                a.1 - i
            } else {
                a.1 + i
            };
            pts.push((a.0 + w, yy, z));
        }
        proof {
            if dy < 0 {
                assert(sy * (w as int) == -(w as int) && sy * (i as int) == -(i as int))
                    by (nonlinear_arith)
                    requires
                        sy == -1,
                ;
            } else {
                assert(sy * (w as int) == w as int && sy * (i as int) == i as int)
                    by (nonlinear_arith)
                    requires
                        sy == 1,
                ;
            }
            assert(lift_point(pts@[i as int]) == line_point(gp0, gp1, i as int));
        }
        if i < n {
            proof {
                lemma_bres_advance(i as int, n as int, m as int);
                lemma_bres_bounds(i + 1, n as int, m as int);
            }
            let ghost w0 = w as int;
            let ghost d0 = d as int;
            if d > 0 {
                w = w + 1;
                d = d + 2 * m - 2 * n;
            } else {
                d = d + 2 * m;
            }
            proof {
                assert(d == 2 * ((i + 1) + 1) * m - 2 * w * n - n) by (nonlinear_arith)
                    requires
                        d0 == 2 * (i as int + 1) * m - 2 * w0 * n - n,
                        (d0 > 0 && w == w0 + 1 && d == d0 + 2 * m - 2 * n) || (!(d0 > 0) && w == w0
                            && d == d0 + 2 * m),
                ;
            }
        }
        i = i + 1;
    }
    proof {
        assert(lift_points(pts@) =~= line_seq(gp0, gp1));
    }
    pts
}

/// The plottable-surface capability: anything with a framebuffer model
/// that supports depth-tested plotting and clearing. The rasterizer and
/// other drawing routines are written against this capability, so a
/// substitute surface (a test double, another storage layout) can stand
/// in for the in-memory buffer.
pub trait Screen: Sized {
    /// The framebuffer model this surface maintains.
    spec fn model(&self) -> GridModel;

    /// The surface's own well-formedness.
    spec fn inv(&self) -> bool;

    /// Plot a point at (`x`, `y`, `z`), depth-tested, as `plot_model`
    /// says.
    fn plot(&mut self, x: i64, y: i64, z: i64, color: Rgb)
        requires
            old(self).inv(),
        ensures
            final(self).inv(),
            final(self).model() == plot_model(
                old(self).model(),
                x as int,
                y as int,
                z as int,
                color,
            ),
    ;

    /// The width of the surface.
    fn width(&self) -> (w: usize)
        requires
            self.inv(),
        ensures
            w as int == self.model().width,
    ;

    /// The height of the surface.
    fn height(&self) -> (h: usize)
        requires
            self.inv(),
        ensures
            h as int == self.model().height,
    ;

    /// Fill every pixel with `color` and empty every depth cell, as
    /// `clear_model` says.
    fn clear(&mut self, color: Rgb)
        requires
            old(self).inv(),
        ensures
            final(self).inv(),
            final(self).model() == clear_model(old(self).model(), color),
    ;
}

impl Screen for Ppm {
    open spec fn model(&self) -> GridModel {
        self@
    }

    open spec fn inv(&self) -> bool {
        self.wf()
    }

    fn plot(&mut self, x: i64, y: i64, z: i64, color: Rgb) {
        Ppm::plot(self, x, y, z, color)
    }

    fn width(&self) -> (w: usize) {
        Ppm::width(self)
    }

    fn height(&self) -> (h: usize) {
        Ppm::height(self)
    }

    fn clear(&mut self, color: Rgb) {
        Ppm::clear(self, color)
    }
}

/// Draw a line from `p0` to `p1` in the given color on any plottable
/// surface: plot every point of the canonical Bresenham traversal,
/// depth-tested, with the color passed unchanged to every plot.
pub fn draw_line_on<T: Screen>(screen: &mut T, p0: (i64, i64, i64), p1: (i64, i64, i64), color: Rgb)
    requires
        old(screen).inv(),
        coord_ok(p0),
        coord_ok(p1),
    ensures
        final(screen).inv(),
        final(screen).model() == plot_seq_model(
            old(screen).model(),
            line_seq(lift_point(p0), lift_point(p1)),
            color,
        ),
{
    let ghost m0 = screen.model();
    let ghost full = line_seq(lift_point(p0), lift_point(p1));
    let pts = line_points(p0, p1);
    let mut k: usize = 0;
    while k < pts.len()
        invariant
            screen.inv(),
            k <= pts@.len(),
            lift_points(pts@) == full,
            screen.model() == plot_seq_model(m0, full.take(k as int), color),
        decreases pts@.len() - k,
    {
        let p = pts[k];
        proof {
            assert(lift_point(pts@[k as int]) == full[k as int]);
        }
        screen.plot(p.0, p.1, p.2, color);
        proof {
            lemma_plot_seq_push(m0, full.take(k as int), full[k as int], color);
            assert(full.take(k as int).push(full[k as int]) =~= full.take(k as int + 1));
        }
        k = k + 1;
    }
    proof {
        assert(full.take(pts@.len() as int) =~= full);
    }
}

impl Ppm {
    /// Draw a line from `p0` to `p1` in the given color: plot every point
    /// of the canonical Bresenham traversal, depth-tested, with the color
    /// passed unchanged to every plot.
    pub fn draw_line(&mut self, p0: (i64, i64, i64), p1: (i64, i64, i64), color: Rgb)
        requires
            old(self).wf(),
            coord_ok(p0),
            coord_ok(p1),
        ensures
            final(self).wf(),
            final(self)@ == plot_seq_model(
                old(self)@,
                line_seq(lift_point(p0), lift_point(p1)),
                color,
            ),
            final(self)@.width == old(self)@.width,
            final(self)@.height == old(self)@.height,
            final(self)@.color_depth == old(self)@.color_depth,
            final(self)@.wrap_x == old(self)@.wrap_x,
            final(self)@.wrap_y == old(self)@.wrap_y,
            final(self)@.invert_y == old(self)@.invert_y,
    {
        let ghost m0 = self@;
        draw_line_on(self, p0, p1, color);
        proof {
            lemma_plot_seq_preserves(m0, line_seq(lift_point(p0), lift_point(p1)), color);
        }
    }
}

} // verus!
