//! Tileable gradient ("Perlin-style") noise, added onto a grid in place.
//!
//! A coarse lattice of `grid_size * grid_size` nodes is laid over the pixel
//! grid; the `(grid_size - 1) * (grid_size - 1)` cells between the nodes
//! tile a covered region of `cell_size` pixels each, and every covered
//! pixel receives a noise value added onto its current content. How the
//! noise value at a pixel arises — gradient vectors at the four cell
//! corners, dot products with the offset, eased interpolation — is the
//! caller's business, supplied as a per-pixel closure; so is the addition
//! itself, since the cell type is generic. The contracts pin down the rest:
//! exactly the covered pixels change, and each holds an output of `merge`
//! applied to its old value and an output of `value_at` for its own
//! coordinates.

use vstd::prelude::*;
use vstd::arithmetic::div_mod::{
    lemma_fundamental_div_mod, lemma_fundamental_div_mod_converse, lemma_mod_bound,
    lemma_small_mod,
};
use crate::image::{Image, max_dimension, lemma_const_grid_get, lemma_index_injective};

verus! {

/// The per-pixel noise closure accepts any pixel coordinates.
pub open spec fn value_total<P, F: Fn(usize, usize) -> P>(f: F) -> bool {
    forall|x: usize, y: usize| call_requires(f, (x, y))
}

/// The addition closure accepts any pair of cell values.
pub open spec fn merge_total<P, F: Fn(P, P) -> P>(f: F) -> bool {
    forall|a: P, b: P| call_requires(f, (a, b))
}

/// Pixels per lattice cell along a dimension of `dim` pixels (integer
/// division: a remainder leaves a ragged border that stays untouched).
pub open spec fn spec_cell_size(dim: int, grid_size: int) -> int {
    dim / (grid_size - 1)
}

/// Extent of the covered region along a dimension: the whole cells only.
pub open spec fn covered_extent(dim: int, grid_size: int) -> int {
    (grid_size - 1) * spec_cell_size(dim, grid_size)
}

/// The pixel at `(x, y)` received noise: some output `v` of the per-pixel
/// closure at its own coordinates was added — by the addition closure —
/// onto its value in `before`, giving its value in `after`.
pub open spec fn noise_added<P: Copy, FV: Fn(usize, usize) -> P, FA: Fn(P, P) -> P>(
    value_at: FV,
    merge: FA,
    before: Image<P>,
    after: Image<P>,
    x: usize,
    y: usize,
) -> bool {
    exists|v: P, r: P|
        call_ensures(value_at, (x, y), v) && call_ensures(
            merge,
            (before.spec_get(x as int, y as int), v),
            r,
        ) && after.spec_get(x as int, y as int) == r
}

/// As `noise_added`, for a grid that held `base` at the pixel beforehand:
/// the pixel at `(x, y)` holds an output of `merge` applied to `base` and
/// an output of `value_at` for its own coordinates.
pub open spec fn noise_added_to<P: Copy, FV: Fn(usize, usize) -> P, FA: Fn(P, P) -> P>(
    value_at: FV,
    merge: FA,
    base: P,
    after: Image<P>,
    x: usize,
    y: usize,
) -> bool {
    exists|v: P, r: P|
        call_ensures(value_at, (x, y), v) && call_ensures(merge, (base, v), r)
            && after.spec_get(x as int, y as int) == r
}

/// Adds gradient noise onto the grid: every pixel of the covered region
/// (the whole lattice cells) gets an output of `value_at` for its own
/// coordinates merged onto it; pixels outside the covered region
/// keep their values.
#[verifier::loop_isolation(false)]
pub fn add_perlin_noise<P: Copy, FV: Fn(usize, usize) -> P, FA: Fn(P, P) -> P>(
    image: &mut Image<P>,
    grid_size: usize,
    value_at: FV,
    merge: FA,
)
    requires
        old(image).wf(),
        2 <= grid_size,
        value_total(value_at),
        merge_total(merge),
    ensures
        final(image).wf(),
        final(image).spec_width() == old(image).spec_width(),
        final(image).spec_height() == old(image).spec_height(),
        forall|x: usize, y: usize|
            x < covered_extent(old(image).spec_width(), grid_size as int) && y < covered_extent(
                old(image).spec_height(),
                grid_size as int,
            ) ==> #[trigger] noise_added(value_at, merge, *old(image), *final(image), x, y),
        forall|i: int, j: int|
            0 <= i < old(image).spec_width() && 0 <= j < old(image).spec_height() && !(i
                < covered_extent(old(image).spec_width(), grid_size as int) && j < covered_extent(
                old(image).spec_height(),
                grid_size as int,
            )) ==> #[trigger] final(image).spec_get(i, j) == old(image).spec_get(i, j),
{
    let ghost g0 = *old(image);
    let width = image.width();
    let height = image.height();
    let cells = grid_size - 1;
    let cell_size_x = width / cells;
    let cell_size_y = height / cells;
    proof {
        lemma_covered_extent_bounds(width as int, grid_size as int);
        lemma_covered_extent_bounds(height as int, grid_size as int);
    }
    let covered_w = cells * cell_size_x;
    let covered_h = cells * cell_size_y;
    let mut x: usize = 0;
    while x < covered_w
        invariant
            image.wf(),
            image.spec_width() == g0.spec_width(),
            image.spec_height() == g0.spec_height(),
            x <= covered_w,
            forall|a: usize, b: usize|
                a < x && b < covered_h ==> #[trigger] noise_added(value_at, merge, g0, *image, a, b),
            forall|i: int, j: int|
                0 <= i < g0.spec_width() && 0 <= j < g0.spec_height() && !(i < x && j < covered_h)
                    ==> #[trigger] image.spec_get(i, j) == g0.spec_get(i, j),
        decreases covered_w - x,
    {
        let mut y: usize = 0;
        while y < covered_h
            invariant
                image.wf(),
                image.spec_width() == g0.spec_width(),
                image.spec_height() == g0.spec_height(),
                x < covered_w,
                y <= covered_h,
                forall|a: usize, b: usize|
                    a < x && b < covered_h ==> #[trigger] noise_added(
                        value_at,
                        merge,
                        g0,
                        *image,
                        a,
                        b,
                    ),
                forall|b: usize|
                    b < y ==> #[trigger] noise_added(value_at, merge, g0, *image, x, b),
                forall|i: int, j: int|
                    0 <= i < g0.spec_width() && 0 <= j < g0.spec_height() && !(i < x && j
                        < covered_h) && !(i == x && 0 <= j < y) ==> #[trigger] image.spec_get(i, j)
                        == g0.spec_get(i, j),
            decreases covered_h - y,
        {
            let v = value_at(x, y);
            let cur = image.get(x as i64, y as i64);
            let nv = merge(cur, v);
            let ghost pre = *image;
            image.set(x as i64, y as i64, nv);
            proof {
                lemma_small_mod(x as nat, g0.spec_width() as nat);
                lemma_small_mod(y as nat, g0.spec_height() as nat);
                assert forall|i: int, j: int|
                    0 <= i < g0.spec_width() && 0 <= j < g0.spec_height() && !(i == x && j
                        == y) implies #[trigger] image.spec_get(i, j) == pre.spec_get(i, j) by {
                    pre.lemma_index_in_range(i, j);
                    if pre.spec_index(i, j) == pre.spec_index(x as int, y as int) {
                        lemma_small_mod(i as nat, g0.spec_width() as nat);
                        lemma_small_mod(j as nat, g0.spec_height() as nat);
                        lemma_mod_bound(i, g0.spec_width());
                        lemma_mod_bound(j, g0.spec_height());
                        lemma_index_injective(
                            pre,
                            i % g0.spec_width(),
                            j % g0.spec_height(),
                            x as int,
                            y as int,
                        );
                        assert(i % g0.spec_width() == i && j % g0.spec_height() == j);
                        assert(false);
                    }
                }
                assert(noise_added(value_at, merge, g0, *image, x, y)) by {
                    assert(g0.spec_get(x as int, y as int) == pre.spec_get(x as int, y as int));
                    assert(call_ensures(value_at, (x, y), v));
                    assert(call_ensures(merge, (g0.spec_get(x as int, y as int), v), nv));
                    assert(image.spec_get(x as int, y as int) == nv);
                }
                assert forall|a: usize, b: usize|
                    (a < x && b < covered_h) || (a == x && b < y) implies #[trigger] noise_added(
                    value_at,
                    merge,
                    g0,
                    *image,
                    a,
                    b,
                ) by {
                    assert(noise_added(value_at, merge, g0, pre, a, b));
                    assert(image.spec_get(a as int, b as int) == pre.spec_get(a as int, b as int));
                }
            }
            y += 1;
        }
        x += 1;
    }
}

/// The covered region fits inside the grid: `(g - 1) * (dim / (g - 1))`
/// never exceeds `dim`.
proof fn lemma_covered_extent_bounds(dim: int, grid_size: int)
    requires
        0 <= dim,
        2 <= grid_size,
    ensures
        0 <= covered_extent(dim, grid_size) <= dim,
        covered_extent(dim, grid_size) == (grid_size - 1) * spec_cell_size(dim, grid_size),
{
    let cells = grid_size - 1;
    lemma_fundamental_div_mod(dim, cells);
    lemma_mod_bound(dim, cells);
}

/// Lattice cells cover disjoint pixel blocks: a pixel inside the block of
/// one cell lies inside no other cell's block. Noise for distinct cells
/// may therefore be computed and written in any order — concurrently
/// included — with the same outcome.
pub proof fn lemma_cell_blocks_disjoint(
    cell_w: int,
    cell_h: int,
    cx1: int,
    cy1: int,
    cx2: int,
    cy2: int,
    x: int,
    y: int,
)
    requires
        1 <= cell_w,
        1 <= cell_h,
        cx1 != cx2 || cy1 != cy2,
        cx1 * cell_w <= x < (cx1 + 1) * cell_w,
        cy1 * cell_h <= y < (cy1 + 1) * cell_h,
    ensures
        !(cx2 * cell_w <= x < (cx2 + 1) * cell_w && cy2 * cell_h <= y < (cy2 + 1) * cell_h),
{
    if cx2 * cell_w <= x < (cx2 + 1) * cell_w && cy2 * cell_h <= y < (cy2 + 1) * cell_h {
        assert((cx1 + 1) * cell_w == cx1 * cell_w + cell_w) by (nonlinear_arith);
        assert((cx2 + 1) * cell_w == cx2 * cell_w + cell_w) by (nonlinear_arith);
        assert((cy1 + 1) * cell_h == cy1 * cell_h + cell_h) by (nonlinear_arith);
        assert((cy2 + 1) * cell_h == cy2 * cell_h + cell_h) by (nonlinear_arith);
        lemma_fundamental_div_mod_converse(x, cell_w, cx1, x - cx1 * cell_w);
        lemma_fundamental_div_mod_converse(x, cell_w, cx2, x - cx2 * cell_w);
        lemma_fundamental_div_mod_converse(y, cell_h, cy1, y - cy1 * cell_h);
        lemma_fundamental_div_mod_converse(y, cell_h, cy2, y - cy2 * cell_h);
    }
}

/// Builds a `size * size` grid filled with `midpoint` and adds one layer of
/// gradient noise onto it.
pub fn generate_perlin_noise<P: Copy, FV: Fn(usize, usize) -> P, FA: Fn(P, P) -> P>(
    size: usize,
    grid_size: usize,
    midpoint: P,
    value_at: FV,
    merge: FA,
) -> (img: Image<P>)
    requires
        1 <= size <= max_dimension(),
        size * size <= usize::MAX,
        2 <= grid_size,
        value_total(value_at),
        merge_total(merge),
    ensures
        img.wf(),
        img.spec_width() == size,
        img.spec_height() == size,
        forall|x: usize, y: usize|
            x < covered_extent(size as int, grid_size as int) && y < covered_extent(
                size as int,
                grid_size as int,
            ) ==> #[trigger] noise_added_to(value_at, merge, midpoint, img, x, y),
        forall|i: int, j: int|
            0 <= i < size && 0 <= j < size && !(i < covered_extent(size as int, grid_size as int)
                && j < covered_extent(size as int, grid_size as int)) ==> #[trigger] img.spec_get(
                i,
                j,
            ) == midpoint,
{
    let mut img: Image<P> = Image::from_color(size, size, midpoint);
    let ghost g0 = img;
    add_perlin_noise(&mut img, grid_size, value_at, merge);
    proof {
        assert forall|x: usize, y: usize|
            x < covered_extent(size as int, grid_size as int) && y < covered_extent(
                size as int,
                grid_size as int,
            ) implies #[trigger] noise_added_to(value_at, merge, midpoint, img, x, y) by {
            assert(noise_added(value_at, merge, g0, img, x, y));
            lemma_const_grid_get(g0, midpoint, x as int, y as int);
            let (v, r) = choose|v: P, r: P|
                call_ensures(value_at, (x, y), v) && call_ensures(
                    merge,
                    (g0.spec_get(x as int, y as int), v),
                    r,
                ) && img.spec_get(x as int, y as int) == r;
            assert(call_ensures(value_at, (x, y), v) && call_ensures(merge, (midpoint, v), r)
                && img.spec_get(x as int, y as int) == r);
        }
        assert forall|i: int, j: int|
            0 <= i < size && 0 <= j < size && !(i < covered_extent(size as int, grid_size as int)
                && j < covered_extent(size as int, grid_size as int)) implies #[trigger] img.spec_get(
            i,
            j,
        ) == midpoint by {
            lemma_const_grid_get(g0, midpoint, i, j);
        }
    }
    img
}

} // verus!
