//! A turtle drawer on the plane z = 0.
//!
//! The turtle keeps its position in fixed-point sub-pixel units (65536
//! units per pixel) so that many small motion steps accumulate without
//! losing the fraction of a pixel each step. Its heading is kept in
//! millidegrees, counterclockwise, with 0 facing right; after a turn the
//! heading is reduced by the truncating remainder modulo a full circle,
//! so it may stay negative after left turns, exactly as a caller would
//! observe with a plain remainder.
//!
//! The turtle exclusively owns its framebuffer: constructing a turtle
//! consumes the buffer, and `get_screen` consumes the turtle and hands
//! the buffer back.

use vstd::prelude::*;

use crate::color::Rgb;
use crate::ppm::GridModel;
use crate::screen::Screen;
use crate::screen::draw_line_on;
use crate::screen::line_seq;
use crate::screen::plot_seq_model;

verus! {

/// Sub-pixel units per pixel of turtle position.
pub const SUBPIXEL: i64 = 65536;

/// The largest position magnitude, in sub-pixel units, that the turtle
/// accepts: large enough for any practical canvas, small enough that the
/// derived pixel coordinates stay within the rasterizer's range.
pub const POS_LIMIT: i64 = 65000000000000;

/// A sub-pixel position rounded to its pixel: the nearest integer, with
/// exact halves rounded up.
pub open spec fn to_pixel(p: int) -> int {
    (p + 32768) / 65536
}

/// The truncating remainder, as the `%` of the machine: the result has
/// the sign of the dividend.
pub open spec fn trunc_rem(a: int, m: int) -> int {
    if a >= 0 {
        a % m
    } else {
        -((-a) % m)
    }
}

/// Mathematical model of a turtle: its position in sub-pixel units, its
/// heading in millidegrees, the pen state, the drawing color, and the
/// model of the owned framebuffer.
pub struct TurtleModel {
    pub x: int,
    pub y: int,
    pub direction: int,
    pub pen_down: bool,
    pub fg_color: Rgb,
    pub img: GridModel,
}

/// Round a sub-pixel coordinate to its pixel coordinate.
fn pixel_of(p: i64) -> (r: i64)
    requires
        -POS_LIMIT <= p <= POS_LIMIT,
    ensures
        r == to_pixel(p as int),
        -1000000000 <= r <= 1000000000,
{
    let shifted = (p + 32768) + 65536 * 1000000000;
    let q = ((shifted as u64) / 65536u64) as i64 - 1000000000;
    proof {
        vstd::arithmetic::div_mod::lemma_hoist_over_denominator(
            p as int + 32768,
            1000000000,
            65536nat,
        );
        vstd::arithmetic::div_mod::lemma_div_is_ordered(
            -65000000000000 + 32768,
            p as int + 32768,
            65536,
        );
        vstd::arithmetic::div_mod::lemma_div_is_ordered(
            p as int + 32768,
            65000000000000int + 32768,
            65536,
        );
    }
    q
}

/// A simple turtle drawer on the plane z = 0 (no depth). It draws on
/// any plottable surface; the in-memory PPM buffer is the one this
/// crate provides.
pub struct Turtle<T: Screen> {
    x: i64,
    y: i64,
    /// Heading in millidegrees. Goes counterclockwise, and 0 is facing
    /// right.
    pub direction: i64,
    /// If true, motion draws on the owned framebuffer.
    pub pen_down: bool,
    /// The color to draw with.
    pub fg_color: Rgb,
    img: T,
}

impl<T: Screen> View for Turtle<T> {
    type V = TurtleModel;

    closed spec fn view(&self) -> TurtleModel {
        TurtleModel {
            x: self.x as int,
            y: self.y as int,
            direction: self.direction as int,
            pen_down: self.pen_down,
            fg_color: self.fg_color,
            img: self.img.model(),
        }
    }
}

impl<T: Screen> Turtle<T> {
    /// Well-formedness: the owned surface is well-formed and the
    /// position lies within the accepted range.
    pub closed spec fn wf(&self) -> bool {
        &&& self.img.inv()
        &&& -POS_LIMIT <= self@.x <= POS_LIMIT
        &&& -POS_LIMIT <= self@.y <= POS_LIMIT
    }

    /// Make a new turtle at (`x`, `y`) sub-pixel units, facing right,
    /// with the pen up, owning the given screen.
    pub fn new(screen: T, x: i64, y: i64, fg_color: Rgb) -> (t: Turtle<T>)
        requires
            screen.inv(),
            -POS_LIMIT <= x <= POS_LIMIT,
            -POS_LIMIT <= y <= POS_LIMIT,
        ensures
            t.wf(),
            t@.x == x,
            t@.y == y,
            t@.direction == 0,
            !t@.pen_down,
            t@.fg_color == fg_color,
            t@.img == screen.model(),
    {
        Turtle { x, y, direction: 0, pen_down: false, fg_color, img: screen }
    }

    /// Move by the given sub-pixel offset; when the pen is down, first
    /// rasterize the line between the old and the new position, at depth
    /// 0, in the turtle's color. The position is updated either way.
    ///
    /// The offset of a polar `forward` step is a trigonometric quantity;
    /// the caller computes it and hands it in.
    pub fn forward_by(&mut self, dx: i64, dy: i64)
        requires
            old(self).wf(),
            -POS_LIMIT <= old(self)@.x + dx <= POS_LIMIT,
            -POS_LIMIT <= old(self)@.y + dy <= POS_LIMIT,
        ensures
            final(self).wf(),
            final(self)@.x == old(self)@.x + dx,
            final(self)@.y == old(self)@.y + dy,
            final(self)@.direction == old(self)@.direction,
            final(self)@.pen_down == old(self)@.pen_down,
            final(self)@.fg_color == old(self)@.fg_color,
            final(self)@.img == if old(self)@.pen_down {
                plot_seq_model(
                    old(self)@.img,
                    line_seq(
                        (to_pixel(old(self)@.x), to_pixel(old(self)@.y), 0),
                        (to_pixel(old(self)@.x + dx), to_pixel(old(self)@.y + dy), 0),
                    ),
                    old(self)@.fg_color,
                )
            } else {
                old(self)@.img
            },
    {
        let x1 = self.x + dx;
        let y1 = self.y + dy;
        if self.pen_down {
            let px0 = pixel_of(self.x);
            let py0 = pixel_of(self.y);
            let px1 = pixel_of(x1);
            let py1 = pixel_of(y1);
            draw_line_on(&mut self.img, (px0, py0, 0), (px1, py1, 0), self.fg_color);
        }
        self.x = x1;
        self.y = y1;
    }

    /// Set the position to (`x`, `y`) sub-pixel units; when the pen is
    /// down, first rasterize the line to that point, at depth 0, in the
    /// turtle's color.
    pub fn move_to(&mut self, x: i64, y: i64)
        requires
            old(self).wf(),
            -POS_LIMIT <= x <= POS_LIMIT,
            -POS_LIMIT <= y <= POS_LIMIT,
        ensures
            final(self).wf(),
            final(self)@.x == x,
            final(self)@.y == y,
            final(self)@.direction == old(self)@.direction,
            final(self)@.pen_down == old(self)@.pen_down,
            final(self)@.fg_color == old(self)@.fg_color,
            final(self)@.img == if old(self)@.pen_down {
                plot_seq_model(
                    old(self)@.img,
                    line_seq(
                        (to_pixel(old(self)@.x), to_pixel(old(self)@.y), 0),
                        (to_pixel(x as int), to_pixel(y as int), 0),
                    ),
                    old(self)@.fg_color,
                )
            } else {
                old(self)@.img
            },
    {
        if self.pen_down {
            let px0 = pixel_of(self.x);
            let py0 = pixel_of(self.y);
            let px1 = pixel_of(x);
            let py1 = pixel_of(y);
            draw_line_on(&mut self.img, (px0, py0, 0), (px1, py1, 0), self.fg_color);
        }
        self.x = x;
        self.y = y;
    }

    /// Turn right by `mdeg` millidegrees without changing location; the
    /// heading is reduced by the truncating remainder modulo a full
    /// circle, so it keeps the sign of the sum.
    pub fn turn_right(&mut self, mdeg: i64)
        requires
            -0x7fff_ffff_ffff_ffff <= old(self)@.direction + mdeg <= 0x7fff_ffff_ffff_ffff,
        ensures
            final(self)@.direction == trunc_rem(old(self)@.direction + mdeg, 360000),
            final(self)@.x == old(self)@.x,
            final(self)@.y == old(self)@.y,
            final(self)@.pen_down == old(self)@.pen_down,
            final(self)@.fg_color == old(self)@.fg_color,
            final(self)@.img == old(self)@.img,
            old(self).wf() ==> final(self).wf(),
    {
        let s = self.direction + mdeg;
        let r = if s >= 0 {
            let r0 = s % 360000;
            proof {
                vstd::arithmetic::div_mod::lemma_mod_bound(s as int, 360000);
            }
            r0
        } else {
            let r0 = -((-s) % 360000);
            proof {
                vstd::arithmetic::div_mod::lemma_mod_bound(-s as int, 360000);
            }
            r0
        };
        self.direction = r;
    }

    /// Turn left by `mdeg` millidegrees: the negation of a right turn.
    pub fn turn_left(&mut self, mdeg: i64)
        requires
            -0x7fff_ffff_ffff_ffff <= mdeg,
            -0x7fff_ffff_ffff_ffff <= old(self)@.direction - mdeg <= 0x7fff_ffff_ffff_ffff,
        ensures
            final(self)@.direction == trunc_rem(old(self)@.direction - mdeg, 360000),
            final(self)@.x == old(self)@.x,
            final(self)@.y == old(self)@.y,
            final(self)@.pen_down == old(self)@.pen_down,
            final(self)@.fg_color == old(self)@.fg_color,
            final(self)@.img == old(self)@.img,
            old(self).wf() ==> final(self).wf(),
    {
        self.turn_right(-mdeg);
    }

    /// The position, in sub-pixel units.
    pub fn position(&self) -> (p: (i64, i64))
        ensures
            p.0 == self@.x,
            p.1 == self@.y,
    {
        (self.x, self.y)
    }

    /// Take the owned screen back; this consumes the turtle.
    pub fn get_screen(self) -> (img: T)
        ensures
            img.model() == self@.img,
            self.wf() ==> img.inv(),
    {
        self.img
    }
}

} // verus!
