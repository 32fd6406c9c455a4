//! The PPM framebuffer: a flat pixel array with a parallel depth buffer,
//! coordinate resolution under a wrap/invert policy, and depth-tested
//! plotting.
//!
//! Depth values are integers ordered as the drawing order demands: a plot
//! wins only if its `z` is strictly greater than the depth stored at the
//! target cell. A cell that has never been written holds no depth at all
//! (`None`), so any first write wins.

use vstd::prelude::*;

use crate::color::Rgb;

verus! {

/// Mathematical model of a framebuffer: its configuration, the pixel
/// colors and the per-cell depths, all as plain mathematical values.
#[verifier::ext_equal]
pub struct GridModel {
    pub width: int,
    pub height: int,
    pub color_depth: int,
    pub wrap_x: bool,
    pub wrap_y: bool,
    pub invert_y: bool,
    pub colors: Seq<Rgb>,
    pub depths: Seq<Option<int>>,
}

/// Floored (always-in-range) modulo: the result is in `[0, limit)` for any
/// `v` whenever `limit` is positive.
pub open spec fn wrap_spec(v: int, limit: int) -> int {
    v % limit
}

impl GridModel {
    /// Well-formedness: positive dimensions, a positive color depth within
    /// the PPM limit, a product of dimensions small enough for index
    /// arithmetic on any machine, and both storage sequences of exactly
    /// `width * height` cells.
    pub open spec fn wf(self) -> bool {
        &&& 0 < self.width
        &&& 0 < self.height
        &&& 0 < self.color_depth <= 0xffff
        &&& self.width * self.height < 0x4000_0000
        &&& self.colors.len() == self.width * self.height
        &&& self.depths.len() == self.width * self.height
    }

    /// Resolve a logical coordinate to a storage index, or to nothing when
    /// an axis is out of range and does not wrap:
    /// out-of-range test first, then floored wrapping of both axes, then
    /// the optional y inversion, then row-major indexing.
    pub open spec fn resolve(self, x: int, y: int) -> Option<int> {
        if (!self.wrap_x && !(0 <= x < self.width)) || (!self.wrap_y && !(0 <= y < self.height)) {
            None
        } else {
            let wx = wrap_spec(x, self.width);
            let wy = wrap_spec(y, self.height);
            let ry = if self.invert_y {
                self.height - wy - 1
            } else {
                wy
            };
            Some(ry * self.width + wx)
        }
    }
}

/// The depth test: a write at depth `z` beats an empty cell, and a filled
/// cell only when `z` is strictly greater. Ties never overwrite.
pub open spec fn depth_beats(stored: Option<int>, z: int) -> bool {
    match stored {
        None => true,
        Some(zs) => z > zs,
    }
}

/// What one `plot` call does to the model: nothing when the coordinate
/// does not resolve or loses the depth test, otherwise one color write and
/// one depth write at the resolved cell.
pub open spec fn plot_model(m: GridModel, x: int, y: int, z: int, color: Rgb) -> GridModel {
    match m.resolve(x, y) {
        None => m,
        Some(i) => if depth_beats(m.depths[i], z) {
            GridModel { colors: m.colors.update(i, color), depths: m.depths.update(i, Some(z)), ..m }
        } else {
            m
        },
    }
}

/// What `clear` does to the model: every cell takes the given color and
/// loses its depth; the configuration stays.
pub open spec fn clear_model(m: GridModel, color: Rgb) -> GridModel {
    GridModel {
        colors: Seq::new(m.colors.len(), |i: int| color),
        depths: Seq::new(m.depths.len(), |i: int| None),
        ..m
    }
}

/// A resolved index always lands inside the storage.
pub proof fn lemma_resolve_in_bounds(m: GridModel, x: int, y: int)
    requires
        m.wf(),
        m.resolve(x, y) is Some,
    ensures
        0 <= m.resolve(x, y).unwrap() < m.width * m.height,
{
    let wx = wrap_spec(x, m.width);
    let wy = wrap_spec(y, m.height);
    vstd::arithmetic::div_mod::lemma_mod_bound(x, m.width);
    vstd::arithmetic::div_mod::lemma_mod_bound(y, m.height);
    let ry = if m.invert_y { m.height - wy - 1 } else { wy };
    assert(0 <= ry < m.height);
    assert(ry * m.width + wx < m.width * m.height && 0 <= ry * m.width) by (nonlinear_arith)
        requires
            0 <= ry < m.height,
            0 <= wx < m.width,
    ;
}

/// Coordinate wrap is periodic: shifting the value by any whole number of
/// periods leaves the wrapped value unchanged.
pub proof fn lemma_wrap_periodic(v: int, limit: int, k: int)
    requires
        0 < limit,
    ensures
        wrap_spec(v + k * limit, limit) == wrap_spec(v, limit),
{
    vstd::arithmetic::div_mod::lemma_mod_multiples_vanish(k, v, limit);
    vstd::arithmetic::mul::lemma_mul_is_commutative(k, limit);
}

/// The depth test in action: after a write at depth `z1`, a second write
/// at the same spot with a depth no greater than `z1` changes nothing —
/// ties never overwrite, and neither do lower writes.
pub proof fn lemma_plot_lower_depth_keeps_pixel(
    m: GridModel,
    x: int,
    y: int,
    z1: int,
    z2: int,
    c1: Rgb,
    c2: Rgb,
)
    requires
        m.wf(),
        z2 <= z1,
    ensures
        plot_model(plot_model(m, x, y, z1, c1), x, y, z2, c2) == plot_model(m, x, y, z1, c1),
{
    if m.resolve(x, y) is Some {
        lemma_resolve_in_bounds(m, x, y);
        let m1 = plot_model(m, x, y, z1, c1);
        assert(m1.resolve(x, y) == m.resolve(x, y));
    }
}

/// Out-of-bounds plots are silent no-ops: on an axis that does not wrap, a
/// coordinate outside the range leaves the whole buffer unchanged.
pub proof fn lemma_plot_out_of_bounds_noop(m: GridModel, x: int, y: int, z: int, color: Rgb)
    requires
        (!m.wrap_x && !(0 <= x < m.width)) || (!m.wrap_y && !(0 <= y < m.height)),
    ensures
        plot_model(m, x, y, z, color) == m,
{
}

/// Wrap a coordinate into `[0, limit)` with floored modulo, correct for
/// negative inputs.
pub fn wrap_index(value: i64, limit: i64) -> (r: i64)
    requires
        0 < limit < 0x4000_0000_0000_0000,
    ensures
        r == wrap_spec(value as int, limit as int),
        0 <= r < limit,
{
    if value >= 0 {
        let r = value % limit;
        proof {
            vstd::arithmetic::div_mod::lemma_mod_bound(value as int, limit as int);
        }
        r
    } else {
        let neg: i128 = -(value as i128);
        let e128 = neg % (limit as i128);
        proof {
            vstd::arithmetic::div_mod::lemma_mod_bound(neg as int, limit as int);
        }
        let e = e128 as i64;
        let ghost v = value as int;
        let ghost l = limit as int;
        let ghost q = (neg as int) / l;
        proof {
            vstd::arithmetic::div_mod::lemma_fundamental_div_mod(neg as int, l);
        }
        if e == 0 {
            proof {
                assert(v == l * (-q) + 0) by (nonlinear_arith)
                    requires
                        v == -(neg as int),
                        neg as int == l * q + 0,
                ;
                vstd::arithmetic::div_mod::lemma_mod_multiples_vanish(-q, 0, l);
                vstd::arithmetic::div_mod::lemma_small_mod(0, l as nat);
            }
            0
        } else {
            proof {
                assert(v == l * (-q - 1) + (l - e)) by (nonlinear_arith)
                    requires
                        v == -(neg as int),
                        neg as int == l * q + e,
                ;
                vstd::arithmetic::div_mod::lemma_fundamental_div_mod_converse(
                    v,
                    l,
                    -q - 1,
                    l - e,
                );
            }
            limit - e
        }
    }
}

/// Builder for `Ppm`: dimensions and color depth are given up front, the
/// wrap/invert policy, the fill color, or ready-made pixel data may be
/// configured before `build`.
pub struct PpmBuilder {
    /// Height of the image to be built.
    pub height: usize,
    /// Width of the image to be built.
    pub width: usize,
    /// Nominal maximum channel value; at most 65535, per the PPM formats.
    pub color_depth: u16,
    /// Initial image data, set with `with_data`; empty means none.
    pub data: Vec<Rgb>,
    /// Color to fill the buffer on build; not used if data is supplied
    /// with `with_data`.
    pub bg_color: Rgb,
    /// If true, x values outside the image wrap around; if false, such
    /// points are ignored. Defaults to false.
    pub wrap_x: bool,
    /// If true, y values outside the image wrap around; if false, such
    /// points are ignored. Defaults to false.
    pub wrap_y: bool,
    /// Whether y values are inverted when plotting. Defaults to true,
    /// which puts the origin at the bottom left.
    pub invert_y: bool,
}

impl PpmBuilder {
    /// Make a new builder with the default configuration.
    pub fn new(height: usize, width: usize, color_depth: u16) -> (b: PpmBuilder)
        ensures
            b.height == height,
            b.width == width,
            b.color_depth == color_depth,
            !b.wrap_x,
            !b.wrap_y,
            b.invert_y,
            b.data@.len() == 0,
            b.bg_color == Rgb::black(),
    {
        PpmBuilder {
            height,
            width,
            color_depth,
            wrap_x: false,
            wrap_y: false,
            invert_y: true,
            data: Vec::new(),
            bg_color: Rgb { red: 0, green: 0, blue: 0 },
        }
    }

    /// Set `wrap_x`.
    pub fn wrap_x(self, to_wrap: bool) -> (b: Self)
        ensures
            b == (PpmBuilder { wrap_x: to_wrap, ..self }),
    {
        PpmBuilder { wrap_x: to_wrap, ..self }
    }

    /// Set `wrap_y`.
    pub fn wrap_y(self, to_wrap: bool) -> (b: Self)
        ensures
            b == (PpmBuilder { wrap_y: to_wrap, ..self }),
    {
        PpmBuilder { wrap_y: to_wrap, ..self }
    }

    /// Set `invert_y`.
    pub fn invert_y(self, to_invert: bool) -> (b: Self)
        ensures
            b == (PpmBuilder { invert_y: to_invert, ..self }),
    {
        PpmBuilder { invert_y: to_invert, ..self }
    }

    /// Set initial pixel data. If data is provided, `bg_color` is not
    /// used; the data must hold exactly one color per cell by build time.
    pub fn with_data(self, data: Vec<Rgb>) -> (b: Self)
        ensures
            b == (PpmBuilder { data, ..self }),
    {
        PpmBuilder { data, ..self }
    }

    /// Set the background color.
    pub fn bg_color(self, bg_color: Rgb) -> (b: Self)
        ensures
            b == (PpmBuilder { bg_color, ..self }),
    {
        PpmBuilder { bg_color, ..self }
    }

    /// Build the configured `Ppm`: the pixel array is the supplied data,
    /// or one `bg_color` per cell when none was supplied, and every depth
    /// cell starts empty.
    pub fn build(self) -> (p: Ppm)
        requires
            0 < self.width,
            0 < self.height,
            0 < self.color_depth,
            self.width * self.height < 0x4000_0000,
            self.data@.len() == 0 || self.data@.len() == self.width * self.height,
        ensures
            p.wf(),
            p@.width == self.width as int,
            p@.height == self.height as int,
            p@.color_depth == self.color_depth as int,
            p@.wrap_x == self.wrap_x,
            p@.wrap_y == self.wrap_y,
            p@.invert_y == self.invert_y,
            p@.colors == if self.data@.len() == 0 {
                Seq::new((self.width * self.height) as nat, |i: int| self.bg_color)
            } else {
                self.data@
            },
            p@.depths == Seq::new((self.width * self.height) as nat, |i: int| None::<int>),
    {
        let n = self.width * self.height;
        let mut data = self.data;
        if data.len() == 0 {
            while data.len() < n
                invariant
                    data@.len() <= n,
                    data@ =~= Seq::new(data@.len(), |i: int| self.bg_color),
                decreases n - data@.len(),
            {
                data.push(self.bg_color);
            }
            proof {
                assert(data@ =~= Seq::new(n as nat, |i: int| self.bg_color));
            }
        }
        let mut zbuf: Vec<Option<i64>> = Vec::new();
        while zbuf.len() < n
            invariant
                zbuf@.len() <= n,
                zbuf@ =~= Seq::new(zbuf@.len(), |i: int| None::<i64>),
            decreases n - zbuf@.len(),
        {
            zbuf.push(None);
        }
        let p = Ppm {
            height: self.height,
            width: self.width,
            color_depth: self.color_depth,
            wrap_x: self.wrap_x,
            wrap_y: self.wrap_y,
            invert_y: self.invert_y,
            data,
            zbuf,
        };
        proof {
            assert(p@.depths =~= Seq::new((self.width * self.height) as nat, |i: int| None::<int>));
        }
        p
    }
}

/// A PPM image: the pixel array, the parallel depth buffer, and the
/// wrap/invert configuration. The storage always holds exactly
/// `width * height` cells of each kind.
pub struct Ppm {
    height: usize,
    width: usize,
    color_depth: u16,
    /// If true, x values outside the image wrap around; if false, such
    /// points are ignored.
    pub wrap_x: bool,
    /// If true, y values outside the image wrap around; if false, such
    /// points are ignored.
    pub wrap_y: bool,
    /// Whether y values are inverted when plotting; true puts the origin
    /// at the bottom left.
    pub invert_y: bool,
    data: Vec<Rgb>,
    zbuf: Vec<Option<i64>>,
}

impl View for Ppm {
    type V = GridModel;

    closed spec fn view(&self) -> GridModel {
        GridModel {
            width: self.width as int,
            height: self.height as int,
            color_depth: self.color_depth as int,
            wrap_x: self.wrap_x,
            wrap_y: self.wrap_y,
            invert_y: self.invert_y,
            colors: self.data@,
            depths: Seq::new(self.zbuf@.len(), |i: int| match self.zbuf@[i] {
                None => None,
                Some(z) => Some(z as int),
            }),
        }
    }
}

impl Ppm {
    /// Well-formedness of the buffer, as stated on its model.
    pub open spec fn wf(&self) -> bool {
        self@.wf()
    }

    /// Make a 500 by 500 `Ppm` with a color depth of 255, the default
    /// image configuration. Use `PpmBuilder` for anything else.
    pub fn new() -> (p: Ppm)
        ensures
            p.wf(),
            p@.width == 500,
            p@.height == 500,
            p@.color_depth == 255,
            !p@.wrap_x,
            !p@.wrap_y,
            p@.invert_y,
            p@.colors == Seq::new(250000nat, |i: int| Rgb::black()),
            p@.depths == Seq::new(250000nat, |i: int| None::<int>),
    {
        PpmBuilder::new(500, 500, 255).build()
    }

    /// Resolve a coordinate to a storage index, or to `None` for a point
    /// that falls outside the visible space under the current policy.
    fn index(&self, x: i64, y: i64) -> (r: Option<usize>)
        requires
            self.wf(),
        ensures
            match r {
                Some(i) => self@.resolve(x as int, y as int) == Some(i as int) && i
                    < self.data@.len(),
                None => self@.resolve(x as int, y as int) is None,
            },
    {
        proof {
            assert(self@.width <= self@.width * self@.height && self@.height <= self@.width
                * self@.height) by (nonlinear_arith)
                requires
                    0 < self@.width,
                    0 < self@.height,
            ;
        }
        let width = self.width as i64;
        let height = self.height as i64;
        if (!self.wrap_x && (x < 0 || x >= width)) || (!self.wrap_y && (y < 0 || y >= height)) {
            return None;
        }
        let wx = wrap_index(x, width);
        let wy = wrap_index(y, height);
        let ry = if self.invert_y {
            height - wy - 1
        } else {
            wy
        };
        proof {
            lemma_resolve_in_bounds(self@, x as int, y as int);
        }
        Some((ry * width + wx) as usize)
    }

    /// Plot a point at (`x`, `y`, `z`). A coordinate that does not resolve
    /// is a silent no-op; otherwise the color is written only when `z`
    /// strictly beats the stored depth.
    pub fn plot(&mut self, x: i64, y: i64, z: i64, color: Rgb)
        requires
            old(self).wf(),
        ensures
            final(self).wf(),
            final(self)@ == plot_model(old(self)@, x as int, y as int, z as int, color),
    {
        let ghost m0 = self@;
        if let Some(i) = self.index(x, y) {
            let write = match self.zbuf[i] {
                None => true,
                Some(zs) => z > zs,
            };
            if write {
                self.data.set(i, color);
                self.zbuf.set(i, Some(z));
                proof {
                    assert(self@.colors =~= m0.colors.update(i as int, color));
                    assert(self@.depths =~= m0.depths.update(i as int, Some(z as int)));
                    assert(self@ =~= plot_model(m0, x as int, y as int, z as int, color));
                }
            } else {
                proof {
                    assert(self@ =~= plot_model(m0, x as int, y as int, z as int, color));
                }
            }
        } else {
            proof {
                assert(self@ =~= plot_model(m0, x as int, y as int, z as int, color));
            }
        }
    }

    /// Read the color at a coordinate, through the same resolution policy
    /// that `plot` uses; `None` for a point outside the visible space.
    pub fn pixel(&self, x: i64, y: i64) -> (r: Option<Rgb>)
        requires
            self.wf(),
        ensures
            r == (match self@.resolve(x as int, y as int) {
                None => None::<Rgb>,
                Some(i) => Some(self@.colors[i]),
            }),
    {
        match self.index(x, y) {
            None => None,
            Some(i) => Some(self.data[i]),
        }
    }

    /// The color at a storage index, row-major.
    pub fn pixel_at(&self, i: usize) -> (c: Rgb)
        requires
            self.wf(),
            i < self@.colors.len(),
        ensures
            c == self@.colors[i as int],
    {
        self.data[i]
    }

    /// Fill every pixel with `color` and empty every depth cell.
    pub fn clear(&mut self, color: Rgb)
        requires
            old(self).wf(),
        ensures
            final(self).wf(),
            final(self)@ == clear_model(old(self)@, color),
    {
        let ghost m0 = self@;
        let n = self.data.len();
        let mut i: usize = 0;
        while i < n
            invariant
                n == self.data@.len(),
                n == self.zbuf@.len(),
                i <= n,
                self.width == old(self).width,
                self.height == old(self).height,
                self.color_depth == old(self).color_depth,
                self.wrap_x == old(self).wrap_x,
                self.wrap_y == old(self).wrap_y,
                self.invert_y == old(self).invert_y,
                forall|j: int| 0 <= j < i ==> self.data@[j] == color,
                forall|j: int| 0 <= j < i ==> self.zbuf@[j] is None,
            decreases n - i,
        {
            self.data.set(i, color);
            self.zbuf.set(i, None);
            i = i + 1;
        }
        proof {
            assert(self@.colors =~= clear_model(m0, color).colors);
            assert(self@.depths =~= clear_model(m0, color).depths);
            assert(self@ =~= clear_model(m0, color));
        }
    }

    /// The width of the image.
    pub fn width(&self) -> (w: usize)
        ensures
            w as int == self@.width,
    {
        self.width
    }

    /// The height of the image.
    pub fn height(&self) -> (h: usize)
        ensures
            h as int == self@.height,
    {
        self.height
    }

    /// The color depth of the image.
    pub fn color_depth(&self) -> (d: u16)
        ensures
            d as int == self@.color_depth,
    {
        self.color_depth
    }
}

} // verus!
