//! A fixed-size 2D pixel buffer with toroidal (wrap-around) addressing.
//!
//! Any integer pair addresses a cell: coordinates outside the grid wrap via
//! true modulo (negative offsets included), which makes generated content
//! seamlessly tileable.

use vstd::prelude::*;
use vstd::arithmetic::div_mod::{lemma_mod_bound, lemma_mod_multiples_vanish};

verus! {

/// Error raised when a grid cannot be constructed.
#[derive(Clone, Copy, Debug, PartialEq, Eq, Structural)]
pub enum GridError {
    /// A dimension was zero (or too large for toroidal index arithmetic).
    InvalidDimension,
}

/// Largest dimension the index arithmetic supports (fits in `i64`).
pub open spec fn max_dimension() -> int {
    0x7fff_ffff_ffff_ffff
}

/// Every element of the buffer holds `c`.
pub open spec fn seq_const<P>(s: Seq<P>, c: P) -> bool {
    forall|i: int| 0 <= i < s.len() ==> s[i] == c
}

/// A dense row-major grid of `width * height` cells of type `P`.
pub struct Image<P: Copy> {
    width: usize,
    height: usize,
    pixels: Vec<P>,
}

impl<P: Copy> Image<P> {
    /// Width of the grid, as a mathematical integer.
    pub closed spec fn spec_width(self) -> int {
        self.width as int
    }

    /// Height of the grid, as a mathematical integer.
    pub closed spec fn spec_height(self) -> int {
        self.height as int
    }

    /// The cell buffer, in row-major order.
    pub closed spec fn pixels_view(self) -> Seq<P> {
        self.pixels@
    }

    /// Well-formedness: positive dimensions that fit the index arithmetic,
    /// and a buffer of exactly `width * height` cells.
    pub open spec fn wf(self) -> bool {
        &&& 1 <= self.spec_width() <= max_dimension()
        &&& 1 <= self.spec_height() <= max_dimension()
        &&& self.spec_width() * self.spec_height() <= usize::MAX
        &&& self.pixels_view().len() == self.spec_width() * self.spec_height()
    }

    /// Row-major buffer position of the toroidally wrapped coordinates.
    pub open spec fn spec_index(self, x: int, y: int) -> int {
        (x % self.spec_width()) + (y % self.spec_height()) * self.spec_width()
    }

    /// The cell value at the toroidally wrapped coordinates.
    pub open spec fn spec_get(self, x: int, y: int) -> P {
        self.pixels_view()[self.spec_index(x, y)]
    }

    /// Builds a grid with every cell set to `fill`, or reports
    /// `InvalidDimension` exactly when a dimension is unusable.
    pub fn create(width: usize, height: usize, fill: P) -> (r: Result<Self, GridError>)
        ensures
            r is Ok <==> (1 <= width <= max_dimension() && 1 <= height <= max_dimension()
                && width * height <= usize::MAX),
            r matches Ok(img) ==> {
                &&& img.wf()
                &&& img.spec_width() == width
                &&& img.spec_height() == height
                &&& forall|x: int, y: int| img.spec_get(x, y) == fill
            },
            r matches Err(e) ==> e == GridError::InvalidDimension,
    {
        if width == 0 || height == 0 {
            return Err(GridError::InvalidDimension);
        }
        if width as u64 > 0x7fff_ffff_ffff_ffffu64 || height as u64 > 0x7fff_ffff_ffff_ffffu64 {
            return Err(GridError::InvalidDimension);
        }
        if usize::MAX / width < height {
            proof {
                lemma_div_excludes_product(width as int, height as int, usize::MAX as int);
            }
            return Err(GridError::InvalidDimension);
        }
        proof {
            lemma_div_admits_product(width as int, height as int, usize::MAX as int);
        }
        Ok(Self::from_color(width, height, fill))
    }

    /// Builds a grid with every cell set to `color`. The caller guarantees
    /// usable dimensions; `create` is the checked form.
    pub fn from_color(width: usize, height: usize, color: P) -> (img: Self)
        requires
            1 <= width <= max_dimension(),
            1 <= height <= max_dimension(),
            width * height <= usize::MAX,
        ensures
            img.wf(),
            img.spec_width() == width,
            img.spec_height() == height,
            seq_const(img.pixels_view(), color),
            forall|x: int, y: int| img.spec_get(x, y) == color,
    {
        let n = width * height;
        let mut pixels: Vec<P> = Vec::with_capacity(n);
        let mut i: usize = 0;
        while i < n
            invariant
                i <= n,
                pixels@.len() == i,
                forall|k: int| 0 <= k < i ==> pixels@[k] == color,
            decreases n - i,
        {
            pixels.push(color);
            i += 1;
        }
        let img = Image { width, height, pixels };
        proof {
            assert forall|x: int, y: int| img.spec_get(x, y) == color by {
                img.lemma_index_in_range(x, y);
            }
        }
        img
    }

    /// Builds a grid with every cell set to the cell type's default value;
    /// `from_color` is the constructor for an explicit fill.
    pub fn new(width: usize, height: usize) -> (img: Self) where P: Default
        requires
            1 <= width <= max_dimension(),
            1 <= height <= max_dimension(),
            width * height <= usize::MAX,
        ensures
            img.wf(),
            img.spec_width() == width,
            img.spec_height() == height,
            seq_const(img.pixels_view(), img.spec_get(0, 0)),
            forall|x: int, y: int| #[trigger] img.spec_get(x, y) == img.spec_get(0, 0),
    {
        Self::from_color(width, height, P::default())
    }

    /// The grid's width.
    pub fn width(&self) -> (w: usize)
        ensures
            w == self.spec_width(),
    {
        self.width
    }

    /// The grid's height.
    pub fn height(&self) -> (h: usize)
        ensures
            h == self.spec_height(),
    {
        self.height
    }

    /// Reads the cell at the wrapped coordinates; total over all integers.
    pub fn get(&self, x: i64, y: i64) -> (r: P)
        requires
            self.wf(),
        ensures
            r == self.spec_get(x as int, y as int),
    {
        let index = self.pixel_index(x, y);
        self.pixels[index]
    }

    /// Overwrites the cell at the wrapped coordinates.
    pub fn set(&mut self, x: i64, y: i64, c: P)
        requires
            old(self).wf(),
        ensures
            final(self).wf(),
            final(self).spec_width() == old(self).spec_width(),
            final(self).spec_height() == old(self).spec_height(),
            final(self).pixels_view()
                == old(self).pixels_view().update(old(self).spec_index(x as int, y as int), c),
            final(self).spec_get(x as int, y as int) == c,
            forall|a: int, b: int|
                final(self).spec_index(a, b) != old(self).spec_index(x as int, y as int)
                    ==> final(self).spec_get(a, b) == old(self).spec_get(a, b),
    {
        let index = self.pixel_index(x, y);
        self.pixels[index] = c;
        proof {
            self.lemma_index_in_range(x as int, y as int);
            assert forall|a: int, b: int|
                self.spec_index(a, b) != old(self).spec_index(x as int, y as int)
                    implies self.spec_get(a, b) == old(self).spec_get(a, b) by {
                self.lemma_index_in_range(a, b);
            }
        }
    }

    /// Position of the wrapped coordinates in the buffer; always in range.
    fn pixel_index(&self, x: i64, y: i64) -> (idx: usize)
        requires
            self.wf(),
        ensures
            idx == self.spec_index(x as int, y as int),
            idx < self.pixels_view().len(),
    {
        let wx = wrap_around(x, self.width);
        let wy = wrap_around(y, self.height);
        proof {
            self.lemma_index_in_range(x as int, y as int);
            assert(wx + wy * self.spec_width() == self.spec_index(x as int, y as int));
        }
        wx + wy * self.width
    }

    /// The wrapped buffer position lies inside the buffer.
    pub proof fn lemma_index_in_range(self, x: int, y: int)
        requires
            self.wf(),
        ensures
            0 <= self.spec_index(x, y) < self.pixels_view().len(),
    {
        let w = self.spec_width();
        let h = self.spec_height();
        lemma_mod_bound(x, w);
        lemma_mod_bound(y, h);
        assert((y % h) * w <= (h - 1) * w) by (nonlinear_arith)
            requires
                y % h <= h - 1,
                w >= 1,
        ;
        assert((h - 1) * w + (w - 1) < w * h) by (nonlinear_arith)
            requires
                w >= 1,
                h >= 1,
        ;
    }
}

/// Wraps any integer into `[0, space)` by true modulo, negative values
/// included.
fn wrap_around(num: i64, space: usize) -> (r: usize)
    requires
        1 <= space <= max_dimension(),
    ensures
        r == num as int % space as int,
{
    let mut res = num;
    let space_i64 = space as i64;
    while res < 0
        invariant
            1 <= space_i64 <= max_dimension(),
            space_i64 == space,
            res as int % space_i64 as int == num as int % space as int,
        decreases (if res < 0 { -(res as int) } else { 0 }),
    {
        proof {
            lemma_mod_multiples_vanish(1, res as int, space_i64 as int);
        }
        res = res + space_i64;
    }
    proof {
        lemma_mod_bound(res as int, space_i64 as int);
    }
    let r = res % space_i64;
    r as usize
}

/// Toroidal addressing: shifting the coordinates by any whole number of
/// grid widths and heights reaches the same cell.
pub proof fn lemma_toroidal_get<P: Copy>(g: Image<P>, x: int, y: int, j: int, k: int)
    requires
        g.wf(),
    ensures
        g.spec_get(x + j * g.spec_width(), y + k * g.spec_height()) == g.spec_get(x, y),
{
    let w = g.spec_width();
    let h = g.spec_height();
    lemma_mod_multiples_vanish(j, x, w);
    lemma_mod_multiples_vanish(k, y, h);
    assert(x + j * w == w * j + x);
    assert(y + k * h == h * k + y);
}

/// A grid whose buffer is constant reads the same value at every
/// coordinate, wrapped or not.
pub proof fn lemma_const_grid_get<P: Copy>(g: Image<P>, c: P, x: int, y: int)
    requires
        g.wf(),
        seq_const(g.pixels_view(), c),
    ensures
        g.spec_get(x, y) == c,
{
    g.lemma_index_in_range(x, y);
}

/// Two in-range coordinate pairs with the same buffer position coincide.
pub proof fn lemma_index_injective<P: Copy>(g: Image<P>, x1: int, y1: int, x2: int, y2: int)
    requires
        g.wf(),
        0 <= x1 < g.spec_width(),
        0 <= x2 < g.spec_width(),
        0 <= y1 < g.spec_height(),
        0 <= y2 < g.spec_height(),
        g.spec_index(x1, y1) == g.spec_index(x2, y2),
    ensures
        x1 == x2,
        y1 == y2,
{
    let w = g.spec_width();
    let h = g.spec_height();
    vstd::arithmetic::div_mod::lemma_small_mod(x1 as nat, w as nat);
    vstd::arithmetic::div_mod::lemma_small_mod(x2 as nat, w as nat);
    vstd::arithmetic::div_mod::lemma_small_mod(y1 as nat, h as nat);
    vstd::arithmetic::div_mod::lemma_small_mod(y2 as nat, h as nat);
    assert(x1 + y1 * w == x2 + y2 * w);
    assert(y1 == y2) by (nonlinear_arith)
        requires
            x1 + y1 * w == x2 + y2 * w,
            0 <= x1 < w,
            0 <= x2 < w,
    ;
}

/// Auxiliary: if `max / a < b` (integer division) then `a * b > max`.
proof fn lemma_div_excludes_product(a: int, b: int, max: int)
    requires
        1 <= a,
        0 <= b,
        0 <= max,
        max / a < b,
    ensures
        a * b > max,
{
    vstd::arithmetic::div_mod::lemma_fundamental_div_mod(max, a);
    vstd::arithmetic::div_mod::lemma_mod_bound(max, a);
    assert(a * b >= a * (max / a + 1)) by (nonlinear_arith)
        requires
            b >= max / a + 1,
            a >= 1,
    ;
    assert(a * (max / a + 1) == a * (max / a) + a) by (nonlinear_arith);
}

/// Auxiliary: if `max / a >= b` (integer division) then `a * b <= max`.
proof fn lemma_div_admits_product(a: int, b: int, max: int)
    requires
        1 <= a,
        0 <= b,
        0 <= max,
        max / a >= b,
    ensures
        a * b <= max,
{
    vstd::arithmetic::div_mod::lemma_fundamental_div_mod(max, a);
    vstd::arithmetic::div_mod::lemma_mod_bound(max, a);
    assert(a * b <= a * (max / a)) by (nonlinear_arith)
        requires
            b <= max / a,
            a >= 1,
    ;
}

} // verus!
