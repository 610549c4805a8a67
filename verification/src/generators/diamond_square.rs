//! Multi-pass midpoint-displacement ("diamond-square") fractal noise.
//!
//! The grid is square with side `2^n + 1`. Each pass tiles it into
//! `partitions * partitions` square blocks, writes each block's centre from
//! its four corners (diamond step), then each block edge midpoint from its
//! four cardinal neighbours at half a block's distance, wrapping toroidally
//! at the borders (square step). The number of blocks doubles per side each
//! pass until the blocks are single cells.
//!
//! How four neighbour values and the pass number turn into the written value
//! is the caller's business: a combining closure receives the pass number
//! and the four neighbours (classically it averages them and adds a random
//! offset whose amplitude decays with the pass number). The contracts here
//! pin down everything else: which cells can change, that every new value is
//! an output of the closure, and that a closure which maps four equal values
//! to that same value leaves a constant grid constant.

use vstd::prelude::*;
use vstd::arithmetic::power::pow;
use vstd::arithmetic::power2::{
    pow2, is_pow2, is_pow2_equiv, lemma_pow2_adds, lemma_pow2_strictly_increases, lemma_pow2_pos,
    lemma2_to64,
};
use vstd::arithmetic::div_mod::{lemma_div_by_multiple, lemma_small_mod};
use vstd::arithmetic::mul::lemma_mul_inequality;
use crate::image::{Image, max_dimension, seq_const, lemma_const_grid_get, lemma_index_injective};

verus! {

/// The combining closure accepts any pass number and neighbour values.
pub open spec fn combine_total<P, F: Fn(usize, P, P, P, P) -> P>(f: F) -> bool {
    forall|pn: usize, v1: P, v2: P, v3: P, v4: P| call_requires(f, (pn, v1, v2, v3, v4))
}

/// In every pass, four equal neighbour values `c` come back out as `c`
/// (true of plain averaging with a zero random offset).
pub open spec fn combine_fixes<P, F: Fn(usize, P, P, P, P) -> P>(f: F, c: P) -> bool {
    forall|pn: usize, v1: P, v2: P, v3: P, v4: P, r: P|
        call_ensures(f, (pn, v1, v2, v3, v4), r) && v1 == c && v2 == c && v3 == c && v4 == c
            ==> r == c
}

/// Each cell either keeps its value from `s0` or is an output of `f`.
pub open spec fn evolves<P, F: Fn(usize, P, P, P, P) -> P>(f: F, s0: Seq<P>, s1: Seq<P>) -> bool {
    &&& s1.len() == s0.len()
    &&& forall|i: int|
        0 <= i < s1.len() ==> (#[trigger] s1[i]) == s0[i] || exists|pn: usize, v1: P, v2: P, v3: P, v4: P|
            call_ensures(f, (pn, v1, v2, v3, v4), s1[i])
}

/// Whenever the combining closure maps four equal values `c` back to `c`,
/// a buffer that was constantly `c` as `s0` is still constantly `c` as `s1`.
pub open spec fn const_preserving<P, F: Fn(usize, P, P, P, P) -> P>(
    f: F,
    s0: Seq<P>,
    s1: Seq<P>,
) -> bool {
    forall|c: P| combine_fixes(f, c) && seq_const(s0, c) ==> #[trigger] seq_const(s1, c)
}

/// The four cells at the grid's extreme corners agree between `a` and `b`
/// (meaningful when the two grids share dimensions).
pub open spec fn corners_match<P: Copy>(a: Image<P>, b: Image<P>) -> bool {
    let w = b.spec_width();
    let h = b.spec_height();
    &&& a.spec_get(0, 0) == b.spec_get(0, 0)
    &&& a.spec_get(w - 1, 0) == b.spec_get(w - 1, 0)
    &&& a.spec_get(0, h - 1) == b.spec_get(0, h - 1)
    &&& a.spec_get(w - 1, h - 1) == b.spec_get(w - 1, h - 1)
}

/// The centre cell of `g` holds an output of `f` for pass `pn` applied to
/// the four extreme corner values of `base`, in the order north-west,
/// south-west, north-east, south-east.
pub open spec fn centre_from_corners<P: Copy, F: Fn(usize, P, P, P, P) -> P>(
    f: F,
    pn: usize,
    base: Image<P>,
    g: Image<P>,
) -> bool {
    let s = base.spec_width();
    call_ensures(
        f,
        (
            pn,
            base.spec_get(0, 0),
            base.spec_get(0, s - 1),
            base.spec_get(s - 1, 0),
            base.spec_get(s - 1, s - 1),
        ),
        g.spec_get((s - 1) / 2, (s - 1) / 2),
    )
}

/// Value at lattice node (i, j) of a tiling with block edge `ps`.
pub open spec fn node_get<P: Copy>(g: Image<P>, ps: int, i: int, j: int) -> P {
    g.spec_get(i * ps, j * ps)
}

/// Value at the centre of block (i, j) of a tiling with block edge `ps`.
pub open spec fn centre_get<P: Copy>(g: Image<P>, ps: int, i: int, j: int) -> P {
    g.spec_get(i * ps + ps / 2, j * ps + ps / 2)
}

/// The diamond recurrence at one scale, read off a single grid state:
/// every centre of the `parts * parts` block tiling with edge `ps` holds
/// an output of `f` for pass `q` applied to the block's own four corner
/// (lattice-node) values, in the order north-west, south-west, north-east,
/// south-east.
pub open spec fn pass_recurrence<P: Copy, F: Fn(usize, P, P, P, P) -> P>(
    f: F,
    g: Image<P>,
    q: usize,
    parts: int,
    ps: int,
) -> bool {
    forall|i: int, j: int|
        0 <= i < parts && 0 <= j < parts ==> call_ensures(
            f,
            (
                q,
                node_get(g, ps, i, j),
                node_get(g, ps, i, j + 1),
                node_get(g, ps, i + 1, j),
                node_get(g, ps, i + 1, j + 1),
            ),
            #[trigger] centre_get(g, ps, i, j),
        )
}

/// The diamond recurrence of pass `q` of a run over a `size`-sided grid:
/// `2^q` blocks per side. A pass's lattice nodes keep their values through
/// that pass and through every finer one, so the recurrence of each
/// executed pass is visible in the final grid.
pub open spec fn run_recurrence<P: Copy, F: Fn(usize, P, P, P, P) -> P>(
    f: F,
    g: Image<P>,
    size: int,
    q: nat,
) -> bool {
    pass_recurrence(f, g, q as usize, pow2(q) as int, (size - 1) / (pow2(q) as int))
}

/// The coordinates of edge midpoint `si` of block (i, j) of a tiling with
/// block edge `ps`, in the order the square step visits them: west, north,
/// south, east.
pub open spec fn side_coord(ps: int, i: int, j: int, si: int) -> (int, int) {
    if si == 0 {
        (i * ps, j * ps + ps / 2)
    } else if si == 1 {
        (i * ps + ps / 2, j * ps)
    } else if si == 2 {
        (i * ps + ps / 2, (j + 1) * ps)
    } else {
        ((i + 1) * ps, j * ps + ps / 2)
    }
}

/// The cell at `(x, y)` of `g` holds some output of `f` for pass `q`.
pub open spec fn holds_pass_output<P: Copy, F: Fn(usize, P, P, P, P) -> P>(
    f: F,
    q: usize,
    g: Image<P>,
    x: int,
    y: int,
) -> bool {
    exists|v1: P, v2: P, v3: P, v4: P| call_ensures(f, (q, v1, v2, v3, v4), g.spec_get(x, y))
}

/// Every edge midpoint of the `parts * parts` block tiling with edge `ps`
/// holds an output of `f` for pass `q`: the square step reached each one.
/// Which four neighbour values went in is not pinned here: through the
/// toroidal wrap a midpoint's cardinal reads can see midpoints written
/// earlier in the same pass, so those values depend on the visit order.
pub open spec fn pass_sides_written<P: Copy, F: Fn(usize, P, P, P, P) -> P>(
    f: F,
    g: Image<P>,
    q: usize,
    parts: int,
    ps: int,
) -> bool {
    forall|i: int, j: int, si: int|
        0 <= i < parts && 0 <= j < parts && 0 <= si < 4 ==> #[trigger] holds_pass_output(
            f,
            q,
            g,
            side_coord(ps, i, j, si).0,
            side_coord(ps, i, j, si).1,
        )
}

/// As `pass_sides_written`, for pass `q` of a run over a `size`-sided
/// grid. A pass's midpoints lie on the lattice of every finer pass, so
/// each executed pass's midpoint writes are visible in the final grid.
pub open spec fn run_sides_written<P: Copy, F: Fn(usize, P, P, P, P) -> P>(
    f: F,
    g: Image<P>,
    size: int,
    q: nat,
) -> bool {
    pass_sides_written(f, g, q as usize, pow2(q) as int, (size - 1) / (pow2(q) as int))
}

/// Whether the coordinate list holds the (mathematical) coordinate pair.
pub open spec fn coord_in(v: Seq<(i64, i64)>, c: (int, int)) -> bool {
    exists|k: int| 0 <= k < v.len() && (#[trigger] v[k]).0 as int == c.0 && v[k].1 as int == c.1
}

/// A square sub-block of the grid: extreme corner coordinates and midpoint.
pub struct Partition {
    pub min_x: i64,
    pub max_x: i64,
    pub min_y: i64,
    pub max_y: i64,
    pub mid_x: i64,
    pub mid_y: i64,
}

impl Partition {
    /// Derives the block at the given column and row of the tiling, for
    /// blocks of edge `partition_size`.
    pub fn from(partition_col: i64, partition_row: i64, partition_size: i64) -> (p: Self)
        requires
            0 <= partition_col,
            0 <= partition_row,
            1 <= partition_size,
            (partition_col + 1) * partition_size <= i64::MAX,
            (partition_row + 1) * partition_size <= i64::MAX,
        ensures
            p.min_x == partition_col * partition_size,
            p.max_x == p.min_x + partition_size,
            p.min_y == partition_row * partition_size,
            p.max_y == p.min_y + partition_size,
            p.mid_x == p.min_x + partition_size / 2,
            p.mid_y == p.min_y + partition_size / 2,
    {
        proof {
            assert(0 <= partition_col * partition_size) by (nonlinear_arith)
                requires
                    0 <= partition_col,
                    0 <= partition_size,
            ;
            assert(partition_col * partition_size + partition_size == (partition_col + 1)
                * partition_size) by (nonlinear_arith);
            assert(0 <= partition_row * partition_size) by (nonlinear_arith)
                requires
                    0 <= partition_row,
                    0 <= partition_size,
            ;
            assert(partition_row * partition_size + partition_size == (partition_row + 1)
                * partition_size) by (nonlinear_arith);
        }
        let min_x = partition_col * partition_size;
        let max_x = min_x + partition_size;
        let min_y = partition_row * partition_size;
        let max_y = min_y + partition_size;
        let mid_x = min_x + (partition_size / 2);
        let mid_y = min_y + (partition_size / 2);
        Self { min_x, max_x, min_y, max_y, mid_x, mid_y }
    }

    /// The block's four corner coordinates.
    pub fn corners(&self) -> (r: [(i64, i64); 4])
        ensures
            r@.len() == 4,
            r@[0] == (self.min_x, self.min_y),
            r@[1] == (self.min_x, self.max_y),
            r@[2] == (self.max_x, self.min_y),
            r@[3] == (self.max_x, self.max_y),
    {
        corners(self.min_x, self.max_x, self.min_y, self.max_y)
    }

    /// The block's four edge-midpoint coordinates.
    pub fn sides(&self) -> (r: [(i64, i64); 4])
        ensures
            r@.len() == 4,
            r@[0] == (self.min_x, self.mid_y),
            r@[1] == (self.mid_x, self.min_y),
            r@[2] == (self.mid_x, self.max_y),
            r@[3] == (self.max_x, self.mid_y),
    {
        [
            (self.min_x, self.mid_y),
            (self.mid_x, self.min_y),
            (self.mid_x, self.max_y),
            (self.max_x, self.mid_y),
        ]
    }
}

/// The four corner coordinates of an axis-aligned rectangle.
fn corners(min_x: i64, max_x: i64, min_y: i64, max_y: i64) -> (r: [(i64, i64); 4])
    ensures
        r@.len() == 4,
        r@[0] == (min_x, min_y),
        r@[1] == (min_x, max_y),
        r@[2] == (max_x, min_y),
        r@[3] == (max_x, max_y),
{
    [(min_x, min_y), (min_x, max_y), (max_x, min_y), (max_x, max_y)]
}

/// Whether `n` is a power of two.
fn is_power_of_two(n: usize) -> (r: bool)
    ensures
        r <==> is_pow2(n as int),
{
    if n == 0 {
        proof {
            reveal(is_pow2);
        }
        return false;
    }
    let mut m = n;
    while m > 1 && m % 2 == 0
        invariant
            1 <= m <= n,
            is_pow2(n as int) <==> is_pow2(m as int),
        decreases m,
    {
        proof {
            reveal(is_pow2);
        }
        m = m / 2;
    }
    proof {
        reveal(is_pow2);
    }
    m == 1
}

/// The dimensions a diamond-square run accepts: a square grid whose side is
/// one more than a power of two.
pub open spec fn valid_diamond_square_dims(width: int, height: int) -> bool {
    width == height && is_pow2(width - 1)
}

/// Decides, without touching any grid, whether the dimensions are valid for
/// the diamond-square algorithm: square, side a power of two plus one.
pub fn check_diamond_square_size(width: usize, height: usize) -> (r: bool)
    ensures
        r <==> valid_diamond_square_dims(width as int, height as int),
{
    if width != height || width < 2 {
        proof {
            if width < 2 {
                reveal(is_pow2);
            }
        }
        return false;
    }
    is_power_of_two(width - 1)
}

/// The sequence of per-pass partition counts a run over a `size`-sided grid
/// steps through: `1, 2, 4, ...`, one entry per pass, doubling until the
/// blocks are single cells. Its length is the exact number of passes.
pub fn partition_progression(size: usize) -> (r: Vec<i64>)
    requires
        2 <= size <= max_dimension(),
        is_pow2(size as int - 1),
    ensures
        pow2(r@.len() as nat) == size - 1,
        forall|i: int| 0 <= i < r@.len() ==> r@[i] == pow2(i as nat),
{
    proof {
        is_pow2_equiv(size as int - 1);
    }
    let ghost n: nat = choose|e: nat| pow(2, e) == size as int - 1;
    proof {
        assert(pow2(n) == size - 1) by {
            vstd::arithmetic::power2::lemma_pow2(n);
        }
    }
    let size_i: i64 = size as i64;
    let mut r: Vec<i64> = Vec::new();
    let mut partitions: i64 = 1;
    let ghost mut p: nat = 0;
    proof {
        assert(pow2(0) == 1) by {
            lemma2_to64();
        }
    }
    while partitions < size_i - 1
        invariant
            2 <= size_i <= max_dimension(),
            pow2(n) == size_i - 1,
            partitions == pow2(p),
            p <= n,
            r@.len() == p,
            forall|i: int| 0 <= i < r@.len() ==> r@[i] == pow2(i as nat),
            1 <= partitions <= size_i - 1,
        decreases size_i - 1 - partitions,
    {
        proof {
            if p >= n {
                if p > n {
                    lemma_pow2_strictly_increases(n, p);
                }
                assert(false);
            }
            lemma_pow2_strictly_increases(p, n);
            assert(pow2(p + 1) == pow2(p) * 2) by {
                lemma_pow2_adds(p, 1);
                lemma2_to64();
            }
            if p + 1 > n {
                assert(false);
            }
            if p + 1 < n {
                lemma_pow2_strictly_increases(p + 1, n);
            }
        }
        r.push(partitions);
        partitions = partitions * 2;
        proof {
            p = p + 1;
        }
    }
    proof {
        if p < n {
            lemma_pow2_strictly_increases(p, n);
        }
    }
    r
}

/// One write of a combine output at an in-range, non-corner target keeps
/// every tracked relation between the evolving grid and the snapshot `g0`.
proof fn lemma_write_step<P: Copy, F: Fn(usize, P, P, P, P) -> P>(
    f: F,
    g0: Image<P>,
    pre: Image<P>,
    post: Image<P>,
    x: int,
    y: int,
    pn: usize,
    v1: P,
    v2: P,
    v3: P,
    v4: P,
    val: P,
    rx1: int,
    ry1: int,
    rx2: int,
    ry2: int,
    rx3: int,
    ry3: int,
    rx4: int,
    ry4: int,
)
    requires
        g0.wf(),
        pre.wf(),
        post.wf(),
        pre.spec_width() == g0.spec_width(),
        pre.spec_height() == g0.spec_height(),
        post.spec_width() == g0.spec_width(),
        post.spec_height() == g0.spec_height(),
        corners_match(pre, g0),
        evolves(f, g0.pixels_view(), pre.pixels_view()),
        const_preserving(f, g0.pixels_view(), pre.pixels_view()),
        post.pixels_view() == pre.pixels_view().update(pre.spec_index(x, y), val),
        call_ensures(f, (pn, v1, v2, v3, v4), val),
        v1 == pre.spec_get(rx1, ry1),
        v2 == pre.spec_get(rx2, ry2),
        v3 == pre.spec_get(rx3, ry3),
        v4 == pre.spec_get(rx4, ry4),
        0 <= x < pre.spec_width(),
        0 <= y < pre.spec_height(),
        0 < x < pre.spec_width() - 1 || 0 < y < pre.spec_height() - 1,
    ensures
        corners_match(post, g0),
        evolves(f, g0.pixels_view(), post.pixels_view()),
        const_preserving(f, g0.pixels_view(), post.pixels_view()),
{
    let w = pre.spec_width();
    let h = pre.spec_height();
    let idx = pre.spec_index(x, y);
    pre.lemma_index_in_range(x, y);
    lemma_small_mod(x as nat, w as nat);
    lemma_small_mod(y as nat, h as nat);
    // The four extreme corners keep their values: the target differs from
    // each of them in at least one coordinate, hence in buffer position.
    assert forall|cx: int, cy: int|
        (cx == 0 || cx == w - 1) && (cy == 0 || cy == h - 1) implies post.spec_get(cx, cy)
        == pre.spec_get(cx, cy) by {
        pre.lemma_index_in_range(cx, cy);
        lemma_small_mod(cx as nat, w as nat);
        lemma_small_mod(cy as nat, h as nat);
        if pre.spec_index(cx, cy) == idx {
            lemma_index_injective(pre, cx, cy, x, y);
        }
    }
    // Every cell still either keeps its snapshot value or is an `f` output.
    assert forall|i: int| 0 <= i < post.pixels_view().len() implies (#[trigger] post.pixels_view()[i])
        == g0.pixels_view()[i] || exists|qn: usize, w1: P, w2: P, w3: P, w4: P|
        call_ensures(f, (qn, w1, w2, w3, w4), post.pixels_view()[i]) by {
        if i == idx {
            assert(post.pixels_view()[i] == val);
            assert(call_ensures(f, (pn, v1, v2, v3, v4), post.pixels_view()[i]));
        } else {
            assert(post.pixels_view()[i] == pre.pixels_view()[i]);
            assert(pre.pixels_view()[i] == g0.pixels_view()[i] || exists|qn: usize, w1: P, w2: P, w3: P, w4: P|
                call_ensures(f, (qn, w1, w2, w3, w4), pre.pixels_view()[i]));
        }
    }
    // A constant grid stays constant when `f` fixes the constant.
    assert forall|c: P| combine_fixes(f, c) && seq_const(g0.pixels_view(), c) implies #[trigger] seq_const(
        post.pixels_view(),
        c,
    ) by {
        assert(seq_const(pre.pixels_view(), c));
        lemma_const_grid_get(pre, c, rx1, ry1);
        lemma_const_grid_get(pre, c, rx2, ry2);
        lemma_const_grid_get(pre, c, rx3, ry3);
        lemma_const_grid_get(pre, c, rx4, ry4);
        assert(val == c);
        assert forall|i: int| 0 <= i < post.pixels_view().len() implies post.pixels_view()[i]
            == c by {
            if i != idx {
                assert(post.pixels_view()[i] == pre.pixels_view()[i]);
            }
        }
    }
}

/// Whether `v` holds the coordinate pair `c`.
fn contains_coord(v: &Vec<(i64, i64)>, c: (i64, i64)) -> (r: bool)
    ensures
        r == v@.contains(c),
{
    let mut i: usize = 0;
    while i < v.len()
        invariant
            i <= v@.len(),
            forall|k: int| 0 <= k < i ==> v@[k] != c,
        decreases v@.len() - i,
    {
        if v[i].0 == c.0 && v[i].1 == c.1 {
            assert(v@[i as int] == c);
            return true;
        }
        i += 1;
    }
    false
}

/// One pass: the diamond step over every block of the current tiling, then
/// the square step over every block edge midpoint not yet written this pass.
#[verifier::loop_isolation(false)]
fn one_pass<P: Copy, F: Fn(usize, P, P, P, P) -> P>(
    image: &mut Image<P>,
    partitions: i64,
    partition_size: i64,
    pass_num: usize,
    combine: &F,
)
    requires
        old(image).wf(),
        old(image).spec_width() == old(image).spec_height(),
        1 <= partitions,
        2 <= partition_size,
        partition_size % 2 == 0,
        partitions == 1 || partitions % 2 == 0,
        partitions * partition_size == old(image).spec_width() - 1,
        combine_total(*combine),
    ensures
        final(image).wf(),
        final(image).spec_width() == old(image).spec_width(),
        final(image).spec_height() == old(image).spec_height(),
        corners_match(*final(image), *old(image)),
        evolves(*combine, old(image).pixels_view(), final(image).pixels_view()),
        const_preserving(*combine, old(image).pixels_view(), final(image).pixels_view()),
        partitions == 1 ==> centre_from_corners(*combine, pass_num, *old(image), *final(image)),
        partitions >= 2 ==> final(image).spec_get(
            (old(image).spec_width() - 1) / 2,
            (old(image).spec_width() - 1) / 2,
        ) == old(image).spec_get(
            (old(image).spec_width() - 1) / 2,
            (old(image).spec_width() - 1) / 2,
        ),
        forall|x: int, y: int|
            0 <= x < old(image).spec_width() && 0 <= y < old(image).spec_width() && x % (
            partition_size as int) == 0 && y % (partition_size as int) == 0
                ==> #[trigger] final(image).spec_get(x, y) == old(image).spec_get(x, y),
        forall|x: int, y: int|
            0 <= x < old(image).spec_width() && 0 <= y < old(image).spec_width() && (x % (
            partition_size as int / 2) != 0 || y % (partition_size as int / 2) != 0)
                ==> #[trigger] final(image).spec_get(x, y) == old(image).spec_get(x, y),
        pass_recurrence(
            *combine,
            *final(image),
            pass_num,
            partitions as int,
            partition_size as int,
        ),
        pass_sides_written(
            *combine,
            *final(image),
            pass_num,
            partitions as int,
            partition_size as int,
        ),
{
    let ghost g0 = *old(image);
    let ghost s = g0.spec_width();
    let ghost m = (s - 1) / 2;
    let ghost psi = partition_size as int;
    proof {
        assert(s <= 0x1_0000_0000) by (nonlinear_arith)
            requires
                1 <= s,
                s * s <= usize::MAX,
                usize::MAX <= u64::MAX,
        ;
        assert(partition_size <= s - 1) by (nonlinear_arith)
            requires
                1 <= partitions,
                2 <= partition_size,
                partitions * partition_size == s - 1,
        ;
        assert(partitions <= s - 1) by (nonlinear_arith)
            requires
                1 <= partitions,
                2 <= partition_size,
                partitions * partition_size == s - 1,
        ;
        assert(s - 1 >= 2) by (nonlinear_arith)
            requires
                1 <= partitions,
                2 <= partition_size,
                partitions * partition_size == s - 1,
        ;
        assert(1 <= m <= s - 2);
    }
    let half = partition_size / 2;

    // Diamond step: write each block's centre from its four corners.
    let mut partition_col: i64 = 0;
    while partition_col < partitions
        invariant
            image.wf(),
            image.spec_width() == s,
            image.spec_height() == s,
            0 <= partition_col <= partitions,
            corners_match(*image, g0),
            evolves(*combine, g0.pixels_view(), image.pixels_view()),
            const_preserving(*combine, g0.pixels_view(), image.pixels_view()),
            m == (s - 1) / 2,
            psi == partition_size,
            partitions >= 2 ==> image.spec_get(m, m) == g0.spec_get(m, m),
            partitions == 1 ==> ((partition_col == 0 && image.spec_get(m, m) == g0.spec_get(m, m))
                || centre_from_corners(*combine, pass_num, g0, *image)),
            forall|x: int, y: int|
                0 <= x < s && 0 <= y < s && x % psi == 0 && y % psi == 0
                    ==> #[trigger] image.spec_get(x, y) == g0.spec_get(x, y),
            forall|x: int, y: int|
                0 <= x < s && 0 <= y < s && (x % (psi / 2) != 0 || y % (psi / 2) != 0)
                    ==> #[trigger] image.spec_get(x, y) == g0.spec_get(x, y),
            forall|i: int, j: int|
                0 <= i < partitions && 0 <= j < partitions && i < partition_col ==> call_ensures(
                    *combine,
                    (
                        pass_num,
                        node_get(g0, psi, i, j),
                        node_get(g0, psi, i, j + 1),
                        node_get(g0, psi, i + 1, j),
                        node_get(g0, psi, i + 1, j + 1),
                    ),
                    #[trigger] centre_get(*image, psi, i, j),
                ),
        decreases partitions - partition_col,
    {
        let mut partition_row: i64 = 0;
        while partition_row < partitions
            invariant
                image.wf(),
                image.spec_width() == s,
                image.spec_height() == s,
                0 <= partition_col < partitions,
                0 <= partition_row <= partitions,
                corners_match(*image, g0),
                evolves(*combine, g0.pixels_view(), image.pixels_view()),
                const_preserving(*combine, g0.pixels_view(), image.pixels_view()),
                m == (s - 1) / 2,
                psi == partition_size,
                partitions >= 2 ==> image.spec_get(m, m) == g0.spec_get(m, m),
                partitions == 1 ==> ((partition_row == 0 && image.spec_get(m, m) == g0.spec_get(
                    m,
                    m,
                )) || centre_from_corners(*combine, pass_num, g0, *image)),
                forall|x: int, y: int|
                    0 <= x < s && 0 <= y < s && x % psi == 0 && y % psi == 0
                        ==> #[trigger] image.spec_get(x, y) == g0.spec_get(x, y),
                forall|x: int, y: int|
                    0 <= x < s && 0 <= y < s && (x % (psi / 2) != 0 || y % (psi / 2) != 0)
                        ==> #[trigger] image.spec_get(x, y) == g0.spec_get(x, y),
                forall|i: int, j: int|
                    0 <= i < partitions && 0 <= j < partitions && (i < partition_col || (i
                        == partition_col && j < partition_row)) ==> call_ensures(
                        *combine,
                        (
                            pass_num,
                            node_get(g0, psi, i, j),
                            node_get(g0, psi, i, j + 1),
                            node_get(g0, psi, i + 1, j),
                            node_get(g0, psi, i + 1, j + 1),
                        ),
                        #[trigger] centre_get(*image, psi, i, j),
                    ),
            decreases partitions - partition_row,
        {
            proof {
                lemma_mul_inequality(partition_col + 1, partitions as int, partition_size as int);
                lemma_mul_inequality(partition_row + 1, partitions as int, partition_size as int);
            }
            let part = Partition::from(partition_col, partition_row, partition_size);
            let cs = part.corners();
            let v1 = image.get(cs[0].0, cs[0].1);
            let v2 = image.get(cs[1].0, cs[1].1);
            let v3 = image.get(cs[2].0, cs[2].1);
            let v4 = image.get(cs[3].0, cs[3].1);
            let val = combine(pass_num, v1, v2, v3, v4);
            let ghost pre = *image;
            proof {
                lemma_mid_interior(partition_col as int, partitions as int, partition_size as int, s);
                lemma_mid_interior(partition_row as int, partitions as int, partition_size as int, s);
            }
            image.set(part.mid_x, part.mid_y, val);
            proof {
                lemma_write_step(
                    *combine,
                    g0,
                    pre,
                    *image,
                    part.mid_x as int,
                    part.mid_y as int,
                    pass_num,
                    v1,
                    v2,
                    v3,
                    v4,
                    val,
                    cs@[0].0 as int,
                    cs@[0].1 as int,
                    cs@[1].0 as int,
                    cs@[1].1 as int,
                    cs@[2].0 as int,
                    cs@[2].1 as int,
                    cs@[3].0 as int,
                    cs@[3].1 as int,
                );
                if partitions == 1 {
                    assert(part.min_x == 0 && part.min_y == 0);
                    assert(partition_size == s - 1);
                    assert(part.mid_x == m && part.mid_y == m);
                    assert(pre.spec_get(0, 0) == g0.spec_get(0, 0));
                    assert(pre.spec_get(0, s - 1) == g0.spec_get(0, s - 1));
                    assert(pre.spec_get(s - 1, 0) == g0.spec_get(s - 1, 0));
                    assert(pre.spec_get(s - 1, s - 1) == g0.spec_get(s - 1, s - 1));
                    assert(image.spec_get(m, m) == val);
                    assert(centre_from_corners(*combine, pass_num, g0, *image));
                } else {
                    lemma_diamond_misses_centre(
                        partition_col,
                        partitions,
                        partition_size,
                        s,
                    );
                    lemma_diamond_misses_centre(
                        partition_row,
                        partitions,
                        partition_size,
                        s,
                    );
                    lemma_cell_kept(pre, *image, part.mid_x as int, part.mid_y as int, val, m, m);
                }
                // Lattice nodes keep their values: the target's column is a
                // block midpoint offset, never a multiple of the block edge.
                assert forall|x: int, y: int|
                    0 <= x < s && 0 <= y < s && x % psi == 0 && y % psi == 0
                        implies #[trigger] image.spec_get(x, y) == g0.spec_get(x, y) by {
                    assert(pre.spec_get(x, y) == g0.spec_get(x, y));
                    lemma_divisible_coord_not_midpoint(x, partition_col as int, psi);
                    lemma_cell_kept(pre, *image, part.mid_x as int, part.mid_y as int, val, x, y);
                }
                // Cells off the half-step lattice are untouched: both target
                // coordinates are multiples of half the block edge.
                assert((2 * partition_col + 1) * (psi / 2) == part.mid_x) by (nonlinear_arith)
                    requires
                        psi % 2 == 0,
                        part.mid_x == partition_col * psi + psi / 2,
                ;
                assert((2 * partition_row + 1) * (psi / 2) == part.mid_y) by (nonlinear_arith)
                    requires
                        psi % 2 == 0,
                        part.mid_y == partition_row * psi + psi / 2,
                ;
                lemma_multiple_mod(2 * partition_col + 1, psi / 2);
                lemma_multiple_mod(2 * partition_row + 1, psi / 2);
                assert forall|x: int, y: int|
                    0 <= x < s && 0 <= y < s && (x % (psi / 2) != 0 || y % (psi / 2) != 0)
                        implies #[trigger] image.spec_get(x, y) == g0.spec_get(x, y) by {
                    assert(pre.spec_get(x, y) == g0.spec_get(x, y));
                    lemma_cell_kept(pre, *image, part.mid_x as int, part.mid_y as int, val, x, y);
                }
                // The new block's centre holds the combine output of its own
                // four corner (lattice-node) values, read from the pass start.
                lemma_multiple_mod(partition_col as int, psi);
                lemma_multiple_mod(partition_col + 1, psi);
                lemma_multiple_mod(partition_row as int, psi);
                lemma_multiple_mod(partition_row + 1, psi);
                assert(v1 == node_get(g0, psi, partition_col as int, partition_row as int));
                assert(v2 == node_get(g0, psi, partition_col as int, partition_row + 1));
                assert(v3 == node_get(g0, psi, partition_col + 1, partition_row as int));
                assert(v4 == node_get(g0, psi, partition_col + 1, partition_row + 1));
                assert(centre_get(*image, psi, partition_col as int, partition_row as int) == val);
                // Centres of blocks already handled keep their values; the
                // new block's centre now satisfies the clause too.
                assert forall|i: int, j: int|
                    0 <= i < partitions && 0 <= j < partitions && (i < partition_col || (i
                        == partition_col && j <= partition_row)) implies call_ensures(
                    *combine,
                    (
                        pass_num,
                        node_get(g0, psi, i, j),
                        node_get(g0, psi, i, j + 1),
                        node_get(g0, psi, i + 1, j),
                        node_get(g0, psi, i + 1, j + 1),
                    ),
                    #[trigger] centre_get(*image, psi, i, j),
                ) by {
                    if i == partition_col && j == partition_row {
                        assert(centre_get(*image, psi, i, j) == val);
                    } else {
                        assert(call_ensures(
                            *combine,
                            (
                                pass_num,
                                node_get(g0, psi, i, j),
                                node_get(g0, psi, i, j + 1),
                                node_get(g0, psi, i + 1, j),
                                node_get(g0, psi, i + 1, j + 1),
                            ),
                            centre_get(pre, psi, i, j),
                        ));
                        lemma_mid_interior(i, partitions as int, psi, s);
                        lemma_mid_interior(j, partitions as int, psi, s);
                        if i != partition_col {
                            lemma_mul_cancel(i, partition_col as int, psi);
                        } else {
                            lemma_mul_cancel(j, partition_row as int, psi);
                        }
                        lemma_cell_kept(
                            pre,
                            *image,
                            part.mid_x as int,
                            part.mid_y as int,
                            val,
                            i * psi + psi / 2,
                            j * psi + psi / 2,
                        );
                    }
                }
            }
            partition_row = partition_row + 1;
        }
        partition_col = partition_col + 1;
    }

    // Square step: write each block edge midpoint from its four cardinal
    // neighbours at half a block's distance, skipping midpoints shared with
    // an already-processed block.
    let mut visited: Vec<(i64, i64)> = Vec::new();
    let mut partition_col: i64 = 0;
    while partition_col < partitions
        invariant
            image.wf(),
            image.spec_width() == s,
            image.spec_height() == s,
            0 <= partition_col <= partitions,
            corners_match(*image, g0),
            evolves(*combine, g0.pixels_view(), image.pixels_view()),
            const_preserving(*combine, g0.pixels_view(), image.pixels_view()),
            m == (s - 1) / 2,
            psi == partition_size,
            partitions >= 2 ==> image.spec_get(m, m) == g0.spec_get(m, m),
            partitions == 1 ==> centre_from_corners(*combine, pass_num, g0, *image),
            forall|x: int, y: int|
                0 <= x < s && 0 <= y < s && x % psi == 0 && y % psi == 0
                    ==> #[trigger] image.spec_get(x, y) == g0.spec_get(x, y),
            forall|x: int, y: int|
                0 <= x < s && 0 <= y < s && (x % (psi / 2) != 0 || y % (psi / 2) != 0)
                    ==> #[trigger] image.spec_get(x, y) == g0.spec_get(x, y),
            forall|i: int, j: int|
                0 <= i < partitions && 0 <= j < partitions ==> call_ensures(
                    *combine,
                    (
                        pass_num,
                        node_get(g0, psi, i, j),
                        node_get(g0, psi, i, j + 1),
                        node_get(g0, psi, i + 1, j),
                        node_get(g0, psi, i + 1, j + 1),
                    ),
                    #[trigger] centre_get(*image, psi, i, j),
                ),
            forall|k: int|
                0 <= k < visited@.len() ==> 0 <= (#[trigger] visited@[k]).0 as int <= s - 1 && 0
                    <= visited@[k].1 as int <= s - 1,
            forall|k: int|
                0 <= k < visited@.len() ==> holds_pass_output(
                    *combine,
                    pass_num,
                    *image,
                    (#[trigger] visited@[k]).0 as int,
                    visited@[k].1 as int,
                ),
            forall|bi: int, bj: int, bs: int|
                0 <= bi < partitions && 0 <= bj < partitions && 0 <= bs < 4 && bi < partition_col
                    ==> coord_in(visited@, #[trigger] side_coord(psi, bi, bj, bs)),
        decreases partitions - partition_col,
    {
        let mut partition_row: i64 = 0;
        while partition_row < partitions
            invariant
                image.wf(),
                image.spec_width() == s,
                image.spec_height() == s,
                0 <= partition_col < partitions,
                0 <= partition_row <= partitions,
                corners_match(*image, g0),
                evolves(*combine, g0.pixels_view(), image.pixels_view()),
                const_preserving(*combine, g0.pixels_view(), image.pixels_view()),
                m == (s - 1) / 2,
                psi == partition_size,
                partitions >= 2 ==> image.spec_get(m, m) == g0.spec_get(m, m),
                partitions == 1 ==> centre_from_corners(*combine, pass_num, g0, *image),
                forall|x: int, y: int|
                    0 <= x < s && 0 <= y < s && x % psi == 0 && y % psi == 0
                        ==> #[trigger] image.spec_get(x, y) == g0.spec_get(x, y),
                forall|x: int, y: int|
                    0 <= x < s && 0 <= y < s && (x % (psi / 2) != 0 || y % (psi / 2) != 0)
                        ==> #[trigger] image.spec_get(x, y) == g0.spec_get(x, y),
                forall|i: int, j: int|
                    0 <= i < partitions && 0 <= j < partitions ==> call_ensures(
                        *combine,
                        (
                            pass_num,
                            node_get(g0, psi, i, j),
                            node_get(g0, psi, i, j + 1),
                            node_get(g0, psi, i + 1, j),
                            node_get(g0, psi, i + 1, j + 1),
                        ),
                        #[trigger] centre_get(*image, psi, i, j),
                    ),
                forall|k: int|
                    0 <= k < visited@.len() ==> 0 <= (#[trigger] visited@[k]).0 as int <= s - 1 && 0
                        <= visited@[k].1 as int <= s - 1,
                forall|k: int|
                    0 <= k < visited@.len() ==> holds_pass_output(
                        *combine,
                        pass_num,
                        *image,
                        (#[trigger] visited@[k]).0 as int,
                        visited@[k].1 as int,
                    ),
                forall|bi: int, bj: int, bs: int|
                    0 <= bi < partitions && 0 <= bj < partitions && 0 <= bs < 4 && (bi
                        < partition_col || (bi == partition_col && bj < partition_row))
                        ==> coord_in(visited@, #[trigger] side_coord(psi, bi, bj, bs)),
            decreases partitions - partition_row,
        {
            proof {
                lemma_mul_inequality(partition_col + 1, partitions as int, partition_size as int);
                lemma_mul_inequality(partition_row + 1, partitions as int, partition_size as int);
            }
            let part = Partition::from(partition_col, partition_row, partition_size);
            let sds = part.sides();
            let mut si: usize = 0;
            while si < 4
                invariant
                    image.wf(),
                    image.spec_width() == s,
                    image.spec_height() == s,
                    si <= 4,
                    corners_match(*image, g0),
                    evolves(*combine, g0.pixels_view(), image.pixels_view()),
                    const_preserving(*combine, g0.pixels_view(), image.pixels_view()),
                    m == (s - 1) / 2,
                    psi == partition_size,
                    partitions >= 2 ==> image.spec_get(m, m) == g0.spec_get(m, m),
                    partitions == 1 ==> centre_from_corners(*combine, pass_num, g0, *image),
                    forall|x: int, y: int|
                        0 <= x < s && 0 <= y < s && x % psi == 0 && y % psi == 0
                            ==> #[trigger] image.spec_get(x, y) == g0.spec_get(x, y),
                    forall|x: int, y: int|
                        0 <= x < s && 0 <= y < s && (x % (psi / 2) != 0 || y % (psi / 2) != 0)
                            ==> #[trigger] image.spec_get(x, y) == g0.spec_get(x, y),
                    forall|i: int, j: int|
                        0 <= i < partitions && 0 <= j < partitions ==> call_ensures(
                            *combine,
                            (
                                pass_num,
                                node_get(g0, psi, i, j),
                                node_get(g0, psi, i, j + 1),
                                node_get(g0, psi, i + 1, j),
                                node_get(g0, psi, i + 1, j + 1),
                            ),
                            #[trigger] centre_get(*image, psi, i, j),
                        ),
                    forall|k: int|
                        0 <= k < visited@.len() ==> 0 <= (#[trigger] visited@[k]).0 as int <= s - 1 && 0
                            <= visited@[k].1 as int <= s - 1,
                    forall|k: int|
                        0 <= k < visited@.len() ==> holds_pass_output(
                            *combine,
                            pass_num,
                            *image,
                            (#[trigger] visited@[k]).0 as int,
                            visited@[k].1 as int,
                        ),
                    forall|bi: int, bj: int, bs: int|
                        0 <= bi < partitions && 0 <= bj < partitions && 0 <= bs < 4 && (bi
                            < partition_col || (bi == partition_col && bj < partition_row) || (bi
                            == partition_col && bj == partition_row && bs < si))
                            ==> coord_in(visited@, #[trigger] side_coord(psi, bi, bj, bs)),
                decreases 4 - si,
            {
                let coordinate = sds[si];
                if !contains_coord(&visited, coordinate) {
                    let ghost visited0 = visited@;
                    visited.push(coordinate);
                    proof {
                        lemma_mid_interior(partition_col as int, partitions as int, partition_size as int, s);
                        lemma_mid_interior(partition_row as int, partitions as int, partition_size as int, s);
                        assert(si == 0 || si == 1 || si == 2 || si == 3);
                        assert(coordinate == sds@[si as int]);
                        assert(0 <= coordinate.0 <= s - 1 && 0 <= coordinate.1 <= s - 1 && (0
                            < coordinate.0 < s - 1 || 0 < coordinate.1 < s - 1));
                    }
                    let v1 = image.get(coordinate.0 - half, coordinate.1);
                    let v2 = image.get(coordinate.0, coordinate.1 - half);
                    let v3 = image.get(coordinate.0 + half, coordinate.1);
                    let v4 = image.get(coordinate.0, coordinate.1 + half);
                    let val = combine(pass_num, v1, v2, v3, v4);
                    let ghost pre = *image;
                    image.set(coordinate.0, coordinate.1, val);
                    proof {
                        lemma_write_step(
                            *combine,
                            g0,
                            pre,
                            *image,
                            coordinate.0 as int,
                            coordinate.1 as int,
                            pass_num,
                            v1,
                            v2,
                            v3,
                            v4,
                            val,
                            coordinate.0 - half,
                            coordinate.1 as int,
                            coordinate.0 as int,
                            coordinate.1 - half,
                            coordinate.0 + half,
                            coordinate.1 as int,
                            coordinate.0 as int,
                            coordinate.1 + half,
                        );
                        if coordinate.0 == m && coordinate.1 == m {
                            if si == 0 {
                                lemma_multiple_is_not_midpoint(
                                    partition_col as int,
                                    partition_row as int,
                                    partition_size as int,
                                );
                            } else if si == 1 {
                                lemma_multiple_is_not_midpoint(
                                    partition_row as int,
                                    partition_col as int,
                                    partition_size as int,
                                );
                            } else if si == 2 {
                                lemma_multiple_is_not_midpoint(
                                    partition_row + 1,
                                    partition_col as int,
                                    partition_size as int,
                                );
                            } else {
                                lemma_multiple_is_not_midpoint(
                                    partition_col + 1,
                                    partition_row as int,
                                    partition_size as int,
                                );
                            }
                        }
                        lemma_cell_kept(
                            pre,
                            *image,
                            coordinate.0 as int,
                            coordinate.1 as int,
                            val,
                            m,
                            m,
                        );
                        // Lattice nodes keep their values: one coordinate of
                        // the target is a block midpoint offset.
                        assert forall|x: int, y: int|
                            0 <= x < s && 0 <= y < s && x % psi == 0 && y % psi == 0
                                implies #[trigger] image.spec_get(x, y) == g0.spec_get(x, y) by {
                            assert(pre.spec_get(x, y) == g0.spec_get(x, y));
                            if si == 0 || si == 3 {
                                lemma_divisible_coord_not_midpoint(y, partition_row as int, psi);
                            } else {
                                lemma_divisible_coord_not_midpoint(x, partition_col as int, psi);
                            }
                            lemma_cell_kept(
                                pre,
                                *image,
                                coordinate.0 as int,
                                coordinate.1 as int,
                                val,
                                x,
                                y,
                            );
                        }
                        // Cells off the half-step lattice are untouched: both
                        // target coordinates are multiples of half the edge.
                        assert((2 * partition_col) * (psi / 2) == partition_col * psi)
                            by (nonlinear_arith)
                            requires
                                psi % 2 == 0,
                        ;
                        assert((2 * partition_col + 2) * (psi / 2) == (partition_col + 1) * psi)
                            by (nonlinear_arith)
                            requires
                                psi % 2 == 0,
                        ;
                        assert((2 * partition_col + 1) * (psi / 2) == partition_col * psi + psi
                            / 2) by (nonlinear_arith)
                            requires
                                psi % 2 == 0,
                        ;
                        assert((2 * partition_row) * (psi / 2) == partition_row * psi)
                            by (nonlinear_arith)
                            requires
                                psi % 2 == 0,
                        ;
                        assert((2 * partition_row + 2) * (psi / 2) == (partition_row + 1) * psi)
                            by (nonlinear_arith)
                            requires
                                psi % 2 == 0,
                        ;
                        assert((2 * partition_row + 1) * (psi / 2) == partition_row * psi + psi
                            / 2) by (nonlinear_arith)
                            requires
                                psi % 2 == 0,
                        ;
                        lemma_multiple_mod(2 * partition_col, psi / 2);
                        lemma_multiple_mod(2 * partition_col + 1, psi / 2);
                        lemma_multiple_mod(2 * partition_col + 2, psi / 2);
                        lemma_multiple_mod(2 * partition_row, psi / 2);
                        lemma_multiple_mod(2 * partition_row + 1, psi / 2);
                        lemma_multiple_mod(2 * partition_row + 2, psi / 2);
                        assert(coordinate.0 as int % (psi / 2) == 0 && coordinate.1 as int % (psi
                            / 2) == 0);
                        assert forall|x: int, y: int|
                            0 <= x < s && 0 <= y < s && (x % (psi / 2) != 0 || y % (psi / 2) != 0)
                                implies #[trigger] image.spec_get(x, y) == g0.spec_get(x, y) by {
                            assert(pre.spec_get(x, y) == g0.spec_get(x, y));
                            lemma_cell_kept(
                                pre,
                                *image,
                                coordinate.0 as int,
                                coordinate.1 as int,
                                val,
                                x,
                                y,
                            );
                        }
                        // Block centres keep their values: the target's
                        // whole-multiple coordinate is never a midpoint offset.
                        lemma_multiple_mod(partition_col as int, psi);
                        lemma_multiple_mod(partition_col + 1, psi);
                        lemma_multiple_mod(partition_row as int, psi);
                        lemma_multiple_mod(partition_row + 1, psi);
                        assert forall|i: int, j: int|
                            0 <= i < partitions && 0 <= j < partitions implies call_ensures(
                            *combine,
                            (
                                pass_num,
                                node_get(g0, psi, i, j),
                                node_get(g0, psi, i, j + 1),
                                node_get(g0, psi, i + 1, j),
                                node_get(g0, psi, i + 1, j + 1),
                            ),
                            #[trigger] centre_get(*image, psi, i, j),
                        ) by {
                            assert(call_ensures(
                                *combine,
                                (
                                    pass_num,
                                    node_get(g0, psi, i, j),
                                    node_get(g0, psi, i, j + 1),
                                    node_get(g0, psi, i + 1, j),
                                    node_get(g0, psi, i + 1, j + 1),
                                ),
                                centre_get(pre, psi, i, j),
                            ));
                            lemma_mid_interior(i, partitions as int, psi, s);
                            lemma_mid_interior(j, partitions as int, psi, s);
                            if si == 0 || si == 3 {
                                lemma_divisible_coord_not_midpoint(coordinate.0 as int, i, psi);
                            } else {
                                lemma_divisible_coord_not_midpoint(coordinate.1 as int, j, psi);
                            }
                            lemma_cell_kept(
                                pre,
                                *image,
                                coordinate.0 as int,
                                coordinate.1 as int,
                                val,
                                i * psi + psi / 2,
                                j * psi + psi / 2,
                            );
                        }
                        // The visited list tracks the written midpoints: the
                        // new entry holds the fresh output, older entries keep
                        // theirs (the new coordinate was not among them), and
                        // the current event's midpoint is now recorded.
                        assert(visited@ == visited0.push(coordinate));
                        assert((coordinate.0 as int, coordinate.1 as int) == side_coord(
                            psi,
                            partition_col as int,
                            partition_row as int,
                            si as int,
                        ));
                        assert forall|k: int| 0 <= k < visited@.len() implies holds_pass_output(
                            *combine,
                            pass_num,
                            *image,
                            (#[trigger] visited@[k]).0 as int,
                            visited@[k].1 as int,
                        ) by {
                            if k < visited0.len() {
                                assert(visited@[k] == visited0[k]);
                                assert(visited0[k] != coordinate);
                                assert(holds_pass_output(
                                    *combine,
                                    pass_num,
                                    pre,
                                    visited0[k].0 as int,
                                    visited0[k].1 as int,
                                ));
                                let (w1, w2, w3, w4) = choose|w1: P, w2: P, w3: P, w4: P|
                                    call_ensures(
                                        *combine,
                                        (pass_num, w1, w2, w3, w4),
                                        pre.spec_get(
                                            visited0[k].0 as int,
                                            visited0[k].1 as int,
                                        ),
                                    );
                                lemma_cell_kept(
                                    pre,
                                    *image,
                                    coordinate.0 as int,
                                    coordinate.1 as int,
                                    val,
                                    visited0[k].0 as int,
                                    visited0[k].1 as int,
                                );
                                assert(call_ensures(
                                    *combine,
                                    (pass_num, w1, w2, w3, w4),
                                    image.spec_get(visited@[k].0 as int, visited@[k].1 as int),
                                ));
                            } else {
                                assert(visited@[k] == coordinate);
                                assert(image.spec_get(coordinate.0 as int, coordinate.1 as int)
                                    == val);
                                assert(call_ensures(
                                    *combine,
                                    (pass_num, v1, v2, v3, v4),
                                    image.spec_get(visited@[k].0 as int, visited@[k].1 as int),
                                ));
                            }
                        }
                        assert forall|bi: int, bj: int, bs: int|
                            0 <= bi < partitions && 0 <= bj < partitions && 0 <= bs < 4 && (bi
                                < partition_col || (bi == partition_col && bj < partition_row) || (
                            bi == partition_col && bj == partition_row && bs < si + 1)) implies coord_in(
                            visited@,
                            #[trigger] side_coord(psi, bi, bj, bs),
                        ) by {
                            if bi == partition_col && bj == partition_row && bs == si {
                                assert(visited@[visited0.len() as int] == coordinate);
                                assert(coord_in(visited@, side_coord(psi, bi, bj, bs)));
                            } else {
                                assert(coord_in(visited0, side_coord(psi, bi, bj, bs)));
                                let k = choose|k: int|
                                    0 <= k < visited0.len() && visited0[k].0 as int == side_coord(
                                        psi,
                                        bi,
                                        bj,
                                        bs,
                                    ).0 && visited0[k].1 as int == side_coord(psi, bi, bj, bs).1;
                                assert(visited@[k] == visited0[k]);
                                assert(coord_in(visited@, side_coord(psi, bi, bj, bs)));
                            }
                        }
                    }
                } else {
                    proof {
                        lemma_mid_interior(
                            partition_col as int,
                            partitions as int,
                            partition_size as int,
                            s,
                        );
                        lemma_mid_interior(
                            partition_row as int,
                            partitions as int,
                            partition_size as int,
                            s,
                        );
                        assert(si == 0 || si == 1 || si == 2 || si == 3);
                        assert(coordinate == sds@[si as int]);
                        assert((coordinate.0 as int, coordinate.1 as int) == side_coord(
                            psi,
                            partition_col as int,
                            partition_row as int,
                            si as int,
                        ));
                        // already written earlier this pass: it is recorded
                        let k = choose|k: int|
                            0 <= k < visited@.len() && visited@[k] == coordinate;
                        assert(coord_in(
                            visited@,
                            side_coord(psi, partition_col as int, partition_row as int, si as int),
                        ));
                    }
                }
                si = si + 1;
            }
            partition_row = partition_row + 1;
        }
        partition_col = partition_col + 1;
    }
    proof {
        // The pass recurrence read off the final state: node values were
        // preserved through the whole pass, so they equal the pass-start
        // values the centres were combined from.
        assert forall|i: int, j: int|
            0 <= i < partitions && 0 <= j < partitions implies call_ensures(
            *combine,
            (
                pass_num,
                node_get(*image, psi, i, j),
                node_get(*image, psi, i, j + 1),
                node_get(*image, psi, i + 1, j),
                node_get(*image, psi, i + 1, j + 1),
            ),
            #[trigger] centre_get(*image, psi, i, j),
        ) by {
            lemma_mid_interior(i, partitions as int, psi, s);
            lemma_mid_interior(j, partitions as int, psi, s);
            lemma_multiple_mod(i, psi);
            lemma_multiple_mod(i + 1, psi);
            lemma_multiple_mod(j, psi);
            lemma_multiple_mod(j + 1, psi);
        }
        assert(pass_recurrence(*combine, *image, pass_num, partitions as int, psi));
        // Every midpoint of the pass was recorded in the visited list, and
        // every recorded cell holds a combine output for this pass.
        assert forall|i: int, j: int, si: int|
            0 <= i < partitions && 0 <= j < partitions && 0 <= si < 4 implies #[trigger] holds_pass_output(
            *combine,
            pass_num,
            *image,
            side_coord(psi, i, j, si).0,
            side_coord(psi, i, j, si).1,
        ) by {
            assert(coord_in(visited@, side_coord(psi, i, j, si)));
            let k = choose|k: int|
                0 <= k < visited@.len() && visited@[k].0 as int == side_coord(psi, i, j, si).0
                    && visited@[k].1 as int == side_coord(psi, i, j, si).1;
            assert(holds_pass_output(
                *combine,
                pass_num,
                *image,
                visited@[k].0 as int,
                visited@[k].1 as int,
            ));
        }
        assert(pass_sides_written(*combine, *image, pass_num, partitions as int, psi));
    }
}

/// Applies diamond-square midpoint displacement to the grid in place.
///
/// The grid must be square with side `2^n + 1`. `combine` supplies the
/// written value from the pass number and the four neighbour values; it must
/// accept any input. On return:
/// - the four extreme corner cells are untouched;
/// - every other cell either keeps its prior value or holds an output of
///   `combine`;
/// - for every executed pass `q`, the diamond recurrence holds in the final
///   grid: each block centre of the `2^q` tiling is an output of `combine`
///   for pass `q` on that block's own four corner values, which later
///   passes never overwrite (`run_recurrence`);
/// - for every executed pass `q`, every block edge midpoint of that pass
///   holds an output of `combine` for pass `q` (`run_sides_written`);
/// - if `combine` maps four equal values back to that value (averaging with
///   zero offset), a constant grid comes back constant.
#[verifier::loop_isolation(false)]
pub fn apply_diamond_square<P: Copy, F: Fn(usize, P, P, P, P) -> P>(
    image: &mut Image<P>,
    combine: F,
)
    requires
        old(image).wf(),
        valid_diamond_square_dims(old(image).spec_width(), old(image).spec_height()),
        combine_total(combine),
    ensures
        final(image).wf(),
        final(image).spec_width() == old(image).spec_width(),
        final(image).spec_height() == old(image).spec_height(),
        corners_match(*final(image), *old(image)),
        evolves(combine, old(image).pixels_view(), final(image).pixels_view()),
        const_preserving(combine, old(image).pixels_view(), final(image).pixels_view()),
        old(image).spec_width() >= 3 ==> centre_from_corners(
            combine,
            0,
            *old(image),
            *final(image),
        ),
        forall|q: nat|
            pow2(q) < old(image).spec_width() - 1 ==> #[trigger] run_recurrence(
                combine,
                *final(image),
                old(image).spec_width(),
                q,
            ),
        forall|q: nat|
            pow2(q) < old(image).spec_width() - 1 ==> #[trigger] run_sides_written(
                combine,
                *final(image),
                old(image).spec_width(),
                q,
            ),
{
    let ghost g0 = *old(image);
    let size_us = image.width();
    let size: i64 = size_us as i64;
    proof {
        is_pow2_equiv(size as int - 1);
    }
    let ghost n: nat = choose|e: nat| pow(2, e) == size as int - 1;
    proof {
        assert(pow2(n) == size - 1) by {
            vstd::arithmetic::power2::lemma_pow2(n);
        }
        assert(pow2(0) == 1 && pow2(1) == 2) by {
            lemma2_to64();
        }
        lemma_pow2_pos(n);
        assert(n <= 62) by {
            if n > 62 {
                assert(pow2(63) == 0x8000000000000000) by {
                    vstd::arithmetic::power2::lemma2_to64_rest();
                }
                if n > 63 {
                    lemma_pow2_strictly_increases(63, n);
                }
            }
        }
    }
    let mut partitions: i64 = 1;
    let mut pass_num: usize = 0;
    let ghost mut p: nat = 0;
    while partitions < size - 1
        invariant
            image.wf(),
            image.spec_width() == g0.spec_width(),
            image.spec_height() == g0.spec_height(),
            pow2(n) == size - 1,
            n <= 62,
            partitions == pow2(p),
            p <= n,
            pass_num == p,
            1 <= partitions <= size - 1,
            corners_match(*image, g0),
            evolves(combine, g0.pixels_view(), image.pixels_view()),
            const_preserving(combine, g0.pixels_view(), image.pixels_view()),
            g0.spec_width() >= 3 && p >= 1 ==> centre_from_corners(combine, 0, g0, *image),
            forall|q: nat| q < p ==> #[trigger] run_recurrence(combine, *image, size as int, q),
            forall|q: nat| q < p ==> #[trigger] run_sides_written(combine, *image, size as int, q),
        decreases size - 1 - partitions,
    {
        proof {
            if p >= n {
                if p > n {
                    lemma_pow2_strictly_increases(n, p);
                }
                assert(false);
            }
            assert(pow2(n) == pow2(p) * pow2((n - p) as nat)) by {
                lemma_pow2_adds(p, (n - p) as nat);
            }
            assert(pow2((n - p) as nat) >= 2) by {
                if (n - p) as nat > 1 {
                    lemma_pow2_strictly_increases(1, (n - p) as nat);
                }
            }
            lemma_div_by_multiple(pow2((n - p) as nat) as int, pow2(p) as int);
            assert(pow2(p) * pow2((n - p) as nat) == pow2((n - p) as nat) * pow2(p))
                by (nonlinear_arith);
            // block edges are even; so is the block count after the first pass
            assert(pow2((n - p) as nat) == 2 * pow2(((n - p) as nat - 1) as nat)) by {
                lemma_pow2_adds(1, ((n - p) as nat - 1) as nat);
            }
            assert((2 * pow2(((n - p) as nat - 1) as nat)) % 2 == 0) by (nonlinear_arith);
            if p >= 1 {
                assert(pow2(p) == 2 * pow2((p - 1) as nat)) by {
                    lemma_pow2_adds(1, (p - 1) as nat);
                }
                assert((2 * pow2((p - 1) as nat)) % 2 == 0) by (nonlinear_arith);
            }
        }
        let partition_size = (size - 1) / partitions;
        assert(partition_size == pow2((n - p) as nat));
        assert(partitions * partition_size == size - 1);
        let ghost pre = *image;
        one_pass(image, partitions, partition_size, pass_num, &combine);
        proof {
            lemma_relations_chain(combine, g0, pre, *image);
            // The recurrence of each earlier pass survives this pass, and
            // this pass's own recurrence now holds of the current state.
            assert forall|q: nat| q < p + 1 implies #[trigger] run_recurrence(
                combine,
                *image,
                size as int,
                q,
            ) by {
                if q < p {
                    assert(run_recurrence(combine, pre, size as int, q));
                    lemma_recurrence_preserved(combine, pre, *image, size as int, q, p, n);
                } else {
                    assert(pass_recurrence(
                        combine,
                        *image,
                        pass_num,
                        partitions as int,
                        partition_size as int,
                    ));
                    assert(p as usize == pass_num);
                    assert((size as int - 1) / (pow2(p) as int) == partition_size);
                    assert(run_recurrence(combine, *image, size as int, p));
                }
            }
            assert forall|q: nat| q < p + 1 implies #[trigger] run_sides_written(
                combine,
                *image,
                size as int,
                q,
            ) by {
                if q < p {
                    assert(run_sides_written(combine, pre, size as int, q));
                    lemma_sides_preserved(combine, pre, *image, size as int, q, p, n);
                } else {
                    assert(pass_sides_written(
                        combine,
                        *image,
                        pass_num,
                        partitions as int,
                        partition_size as int,
                    ));
                    assert(p as usize == pass_num);
                    assert((size as int - 1) / (pow2(p) as int) == partition_size);
                    assert(run_sides_written(combine, *image, size as int, p));
                }
            }
            if p == 0 {
                assert(centre_from_corners(combine, 0, pre, *image));
                assert(pre.spec_get(0, 0) == g0.spec_get(0, 0));
                assert(pre.spec_get(0, size - 1) == g0.spec_get(0, size - 1));
                assert(pre.spec_get(size - 1, 0) == g0.spec_get(size - 1, 0));
                assert(pre.spec_get(size - 1, size - 1) == g0.spec_get(size - 1, size - 1));
                assert(centre_from_corners(combine, 0, g0, *image));
            }
            assert(pow2(p + 1) == pow2(p) * 2) by {
                lemma_pow2_adds(p, 1);
            }
            if p + 1 > n {
                assert(false);
            }
            if p + 1 < n {
                lemma_pow2_strictly_increases(p + 1, n);
            }
        }
        partitions = partitions * 2;
        pass_num = pass_num + 1;
        proof {
            p = p + 1;
        }
    }
    proof {
        assert forall|q: nat| pow2(q) < size - 1 implies #[trigger] run_recurrence(
            combine,
            *image,
            size as int,
            q,
        ) by {
            if q >= p {
                if q > p {
                    lemma_pow2_strictly_increases(p, q);
                }
                assert(false);
            }
        }
        assert forall|q: nat| pow2(q) < size - 1 implies #[trigger] run_sides_written(
            combine,
            *image,
            size as int,
            q,
        ) by {
            if q >= p {
                if q > p {
                    lemma_pow2_strictly_increases(p, q);
                }
                assert(false);
            }
        }
    }
}

/// A node coordinate `k * psq` of a coarse tiling is in range and lies on
/// the lattice of a finer tiling with edge `psp` dividing `psq`.
proof fn lemma_node_coord_facts(k: int, kmax: int, psq: int, psp: int, e: nat, size: int)
    requires
        0 <= k <= kmax,
        1 <= psp,
        0 <= psq,
        psq == pow2(e) as int * psp,
        kmax * psq == size - 1,
    ensures
        0 <= k * psq <= size - 1,
        (k * psq) % psp == 0,
{
    assert(0 <= k * psq) by (nonlinear_arith)
        requires
            0 <= k,
            0 <= psq,
    ;
    lemma_mul_inequality(k, kmax, psq);
    assert(k * (pow2(e) as int * psp) == (k * pow2(e) as int) * psp) by (nonlinear_arith);
    lemma_multiple_mod(k * pow2(e) as int, psp);
}

/// A centre coordinate `i * psq + psq / 2` of a coarse tiling is in range
/// and lies on the lattice of a finer tiling with edge `psp` dividing
/// `psq / 2`.
proof fn lemma_centre_coord_facts(i: int, parts: int, psq: int, hq: int, psp: int, e: nat, size: int)
    requires
        0 <= i < parts,
        1 <= psp,
        1 <= hq,
        psq == 2 * hq,
        hq == pow2(e) as int * psp,
        parts * psq == size - 1,
    ensures
        0 <= i * psq + hq <= size - 1,
        (i * psq + hq) % psp == 0,
{
    assert(0 <= i * psq) by (nonlinear_arith)
        requires
            0 <= i,
            0 <= psq,
    ;
    lemma_mul_inequality(i + 1, parts, psq);
    assert((i + 1) * psq == i * psq + psq) by (nonlinear_arith);
    assert(i * psq + hq == (2 * i + 1) * hq) by (nonlinear_arith)
        requires
            psq == 2 * hq,
    ;
    assert((2 * i + 1) * (pow2(e) as int * psp) == ((2 * i + 1) * pow2(e) as int) * psp)
        by (nonlinear_arith);
    lemma_multiple_mod((2 * i + 1) * pow2(e) as int, psp);
}

/// Every cell a coarser pass's recurrence mentions lies on the lattice of
/// any finer pass, so a pass that preserves its lattice nodes preserves
/// the recurrences of all coarser passes.
proof fn lemma_recurrence_preserved<P: Copy, F: Fn(usize, P, P, P, P) -> P>(
    f: F,
    pre: Image<P>,
    post: Image<P>,
    size: int,
    q: nat,
    p: nat,
    n: nat,
)
    requires
        pre.spec_width() == size,
        pre.spec_height() == size,
        post.spec_width() == size,
        post.spec_height() == size,
        pow2(n) == size - 1,
        q < p,
        p <= n,
        run_recurrence(f, pre, size, q),
        forall|x: int, y: int|
            0 <= x < size && 0 <= y < size && x % (pow2((n - p) as nat) as int) == 0 && y % (pow2(
                (n - p) as nat,
            ) as int) == 0 ==> #[trigger] post.spec_get(x, y) == pre.spec_get(x, y),
    ensures
        run_recurrence(f, post, size, q),
{
    let psp = pow2((n - p) as nat) as int;
    let psq = pow2((n - q) as nat) as int;
    let hq = pow2((n - q - 1) as nat) as int;
    let parts = pow2(q) as int;
    lemma_pow2_pos((n - p) as nat);
    lemma_pow2_pos((n - q - 1) as nat);
    lemma_pow2_pos(q);
    assert(pow2(q) * pow2((n - q) as nat) == pow2(n)) by {
        lemma_pow2_adds(q, (n - q) as nat);
    }
    assert((size - 1) / parts == psq) by {
        lemma_div_by_multiple(psq, parts);
        assert(parts * psq == psq * parts) by (nonlinear_arith);
    }
    assert(psq == 2 * hq) by {
        lemma_pow2_adds(1, (n - q - 1) as nat);
        lemma2_to64();
    }
    assert(psq == pow2((p - q) as nat) as int * psp) by {
        lemma_pow2_adds((p - q) as nat, (n - p) as nat);
    }
    assert(hq == pow2((p - q - 1) as nat) as int * psp) by {
        lemma_pow2_adds((p - q - 1) as nat, (n - p) as nat);
    }
    assert forall|i: int, j: int|
        0 <= i < parts && 0 <= j < parts implies call_ensures(
        f,
        (
            q as usize,
            node_get(post, psq, i, j),
            node_get(post, psq, i, j + 1),
            node_get(post, psq, i + 1, j),
            node_get(post, psq, i + 1, j + 1),
        ),
        #[trigger] centre_get(post, psq, i, j),
    ) by {
        assert(call_ensures(
            f,
            (
                q as usize,
                node_get(pre, psq, i, j),
                node_get(pre, psq, i, j + 1),
                node_get(pre, psq, i + 1, j),
                node_get(pre, psq, i + 1, j + 1),
            ),
            centre_get(pre, psq, i, j),
        ));
        lemma_node_coord_facts(i, parts, psq, psp, (p - q) as nat, size);
        lemma_node_coord_facts(i + 1, parts, psq, psp, (p - q) as nat, size);
        lemma_node_coord_facts(j, parts, psq, psp, (p - q) as nat, size);
        lemma_node_coord_facts(j + 1, parts, psq, psp, (p - q) as nat, size);
        lemma_centre_coord_facts(i, parts, psq, hq, psp, (p - q - 1) as nat, size);
        lemma_centre_coord_facts(j, parts, psq, hq, psp, (p - q - 1) as nat, size);
        assert(psq / 2 == hq);
    }
    assert(pass_recurrence(f, post, q as usize, parts, psq));
}

/// A pass's edge midpoints also lie on the lattice of every finer pass,
/// so a pass that preserves its lattice nodes preserves the recorded
/// midpoint writes of all coarser passes.
proof fn lemma_sides_preserved<P: Copy, F: Fn(usize, P, P, P, P) -> P>(
    f: F,
    pre: Image<P>,
    post: Image<P>,
    size: int,
    q: nat,
    p: nat,
    n: nat,
)
    requires
        pre.spec_width() == size,
        pre.spec_height() == size,
        post.spec_width() == size,
        post.spec_height() == size,
        pow2(n) == size - 1,
        q < p,
        p <= n,
        run_sides_written(f, pre, size, q),
        forall|x: int, y: int|
            0 <= x < size && 0 <= y < size && x % (pow2((n - p) as nat) as int) == 0 && y % (pow2(
                (n - p) as nat,
            ) as int) == 0 ==> #[trigger] post.spec_get(x, y) == pre.spec_get(x, y),
    ensures
        run_sides_written(f, post, size, q),
{
    let psp = pow2((n - p) as nat) as int;
    let psq = pow2((n - q) as nat) as int;
    let hq = pow2((n - q - 1) as nat) as int;
    let parts = pow2(q) as int;
    lemma_pow2_pos((n - p) as nat);
    lemma_pow2_pos((n - q - 1) as nat);
    lemma_pow2_pos(q);
    assert(pow2(q) * pow2((n - q) as nat) == pow2(n)) by {
        lemma_pow2_adds(q, (n - q) as nat);
    }
    assert((size - 1) / parts == psq) by {
        lemma_div_by_multiple(psq, parts);
        assert(parts * psq == psq * parts) by (nonlinear_arith);
    }
    assert(psq == 2 * hq) by {
        lemma_pow2_adds(1, (n - q - 1) as nat);
        lemma2_to64();
    }
    assert(psq == pow2((p - q) as nat) as int * psp) by {
        lemma_pow2_adds((p - q) as nat, (n - p) as nat);
    }
    assert(hq == pow2((p - q - 1) as nat) as int * psp) by {
        lemma_pow2_adds((p - q - 1) as nat, (n - p) as nat);
    }
    assert forall|i: int, j: int, si: int|
        0 <= i < parts && 0 <= j < parts && 0 <= si < 4 implies #[trigger] holds_pass_output(
        f,
        q as usize,
        post,
        side_coord(psq, i, j, si).0,
        side_coord(psq, i, j, si).1,
    ) by {
        assert(holds_pass_output(
            f,
            q as usize,
            pre,
            side_coord(psq, i, j, si).0,
            side_coord(psq, i, j, si).1,
        ));
        lemma_node_coord_facts(i, parts, psq, psp, (p - q) as nat, size);
        lemma_node_coord_facts(i + 1, parts, psq, psp, (p - q) as nat, size);
        lemma_node_coord_facts(j, parts, psq, psp, (p - q) as nat, size);
        lemma_node_coord_facts(j + 1, parts, psq, psp, (p - q) as nat, size);
        lemma_centre_coord_facts(i, parts, psq, hq, psp, (p - q - 1) as nat, size);
        lemma_centre_coord_facts(j, parts, psq, hq, psp, (p - q - 1) as nat, size);
        assert(psq / 2 == hq);
        let (w1, w2, w3, w4) = choose|w1: P, w2: P, w3: P, w4: P|
            #[trigger] call_ensures(
                f,
                (q as usize, w1, w2, w3, w4),
                pre.spec_get(side_coord(psq, i, j, si).0, side_coord(psq, i, j, si).1),
            );
        assert(post.spec_get(side_coord(psq, i, j, si).0, side_coord(psq, i, j, si).1)
            == pre.spec_get(side_coord(psq, i, j, si).0, side_coord(psq, i, j, si).1));
        assert(call_ensures(
            f,
            (q as usize, w1, w2, w3, w4),
            post.spec_get(side_coord(psq, i, j, si).0, side_coord(psq, i, j, si).1),
        ));
    }
    assert(pass_sides_written(f, post, q as usize, parts, psq));
}

/// The tracked relations between snapshots compose across one pass.
proof fn lemma_relations_chain<P: Copy, F: Fn(usize, P, P, P, P) -> P>(
    f: F,
    g0: Image<P>,
    mid: Image<P>,
    post: Image<P>,
)
    requires
        g0.wf(),
        mid.spec_width() == g0.spec_width(),
        mid.spec_height() == g0.spec_height(),
        post.spec_width() == g0.spec_width(),
        post.spec_height() == g0.spec_height(),
        corners_match(mid, g0),
        corners_match(post, mid),
        evolves(f, g0.pixels_view(), mid.pixels_view()),
        evolves(f, mid.pixels_view(), post.pixels_view()),
        const_preserving(f, g0.pixels_view(), mid.pixels_view()),
        const_preserving(f, mid.pixels_view(), post.pixels_view()),
    ensures
        corners_match(post, g0),
        evolves(f, g0.pixels_view(), post.pixels_view()),
        const_preserving(f, g0.pixels_view(), post.pixels_view()),
{
    let s0 = g0.pixels_view();
    let s1 = mid.pixels_view();
    let s2 = post.pixels_view();
    assert forall|i: int| 0 <= i < s2.len() implies (#[trigger] s2[i]) == s0[i] || exists|
        pn: usize,
        v1: P,
        v2: P,
        v3: P,
        v4: P,
    | call_ensures(f, (pn, v1, v2, v3, v4), s2[i]) by {
        if s2[i] == s1[i] {
            assert(s1[i] == s0[i] || exists|pn: usize, v1: P, v2: P, v3: P, v4: P|
                call_ensures(f, (pn, v1, v2, v3, v4), s1[i]));
        }
    }
    assert forall|c: P| combine_fixes(f, c) && seq_const(s0, c) implies #[trigger] seq_const(
        s2,
        c,
    ) by {
        assert(seq_const(s1, c));
    }
}

/// Builds a `size * size` grid filled with `fill` and runs diamond-square
/// over it with the given combining closure.
pub fn generate_diamond_square<P: Copy, F: Fn(usize, P, P, P, P) -> P>(
    size: usize,
    fill: P,
    combine: F,
) -> (img: Image<P>)
    requires
        2 <= size <= max_dimension(),
        size * size <= usize::MAX,
        is_pow2(size as int - 1),
        combine_total(combine),
    ensures
        img.wf(),
        img.spec_width() == size,
        img.spec_height() == size,
        img.spec_get(0, 0) == fill,
        img.spec_get(size - 1, 0) == fill,
        img.spec_get(0, size - 1) == fill,
        img.spec_get(size - 1, size - 1) == fill,
        combine_fixes(combine, fill) ==> forall|x: int, y: int| img.spec_get(x, y) == fill,
        forall|i: int|
            0 <= i < img.pixels_view().len() ==> (#[trigger] img.pixels_view()[i]) == fill
                || exists|pn: usize, v1: P, v2: P, v3: P, v4: P|
                call_ensures(combine, (pn, v1, v2, v3, v4), img.pixels_view()[i]),
        size >= 3 ==> call_ensures(
            combine,
            (0usize, fill, fill, fill, fill),
            img.spec_get((size - 1) as int / 2, (size - 1) as int / 2),
        ),
        forall|q: nat|
            pow2(q) < size - 1 ==> #[trigger] run_recurrence(combine, img, size as int, q),
        forall|q: nat|
            pow2(q) < size - 1 ==> #[trigger] run_sides_written(combine, img, size as int, q),
{
    let mut img: Image<P> = Image::from_color(size, size, fill);
    let ghost g0 = img;
    apply_diamond_square(&mut img, combine);
    proof {
        lemma_const_grid_get(g0, fill, 0, 0);
        lemma_const_grid_get(g0, fill, size - 1, 0);
        lemma_const_grid_get(g0, fill, 0, size - 1);
        lemma_const_grid_get(g0, fill, size - 1, size - 1);
        if combine_fixes(combine, fill) {
            assert(seq_const(img.pixels_view(), fill));
            assert forall|x: int, y: int| img.spec_get(x, y) == fill by {
                lemma_const_grid_get(img, fill, x, y);
            }
        }
    }
    img
}

/// A write at in-range coordinates leaves every other in-range cell's
/// value unchanged.
proof fn lemma_cell_kept<P: Copy>(
    pre: Image<P>,
    post: Image<P>,
    x: int,
    y: int,
    val: P,
    a: int,
    b: int,
)
    requires
        pre.wf(),
        post.spec_width() == pre.spec_width(),
        post.spec_height() == pre.spec_height(),
        post.pixels_view() == pre.pixels_view().update(pre.spec_index(x, y), val),
        0 <= x < pre.spec_width(),
        0 <= y < pre.spec_height(),
        0 <= a < pre.spec_width(),
        0 <= b < pre.spec_height(),
        a != x || b != y,
    ensures
        post.spec_get(a, b) == pre.spec_get(a, b),
{
    let w = pre.spec_width();
    let h = pre.spec_height();
    pre.lemma_index_in_range(a, b);
    pre.lemma_index_in_range(x, y);
    lemma_small_mod(a as nat, w as nat);
    lemma_small_mod(b as nat, h as nat);
    lemma_small_mod(x as nat, w as nat);
    lemma_small_mod(y as nat, h as nat);
    if pre.spec_index(a, b) == pre.spec_index(x, y) {
        lemma_index_injective(pre, a, b, x, y);
    }
}

/// A whole multiple of `ps` is divisible by `ps`.
proof fn lemma_multiple_mod(k: int, ps: int)
    requires
        1 <= ps,
    ensures
        (k * ps) % ps == 0,
{
    vstd::arithmetic::div_mod::lemma_mod_multiples_vanish(k, 0, ps);
    assert(ps * k + 0 == k * ps) by (nonlinear_arith);
    vstd::arithmetic::div_mod::lemma_small_mod(0, ps as nat);
}

/// A coordinate divisible by the (even) block edge is never a block
/// midpoint offset.
proof fn lemma_divisible_coord_not_midpoint(c: int, b: int, ps: int)
    requires
        2 <= ps,
        ps % 2 == 0,
        c % ps == 0,
    ensures
        c != b * ps + ps / 2,
{
    if c == b * ps + ps / 2 {
        vstd::arithmetic::div_mod::lemma_fundamental_div_mod(c, ps);
        assert(c == ps * (c / ps)) by {
            assert(c % ps == 0);
        }
        assert(ps * (c / ps) == (c / ps) * ps) by (nonlinear_arith);
        lemma_multiple_is_not_midpoint(c / ps, b, ps);
    }
}

/// Distinct multipliers of a positive block edge give distinct coordinates.
proof fn lemma_mul_cancel(i: int, j: int, ps: int)
    requires
        1 <= ps,
        i != j,
    ensures
        i * ps != j * ps,
{
    assert(i * ps != j * ps) by (nonlinear_arith)
        requires
            1 <= ps,
            i != j,
    ;
}

/// No coordinate can at once be a whole multiple of the (even) block edge
/// and a block midpoint offset: `a * ps == b * ps + ps / 2` cannot hold.
proof fn lemma_multiple_is_not_midpoint(a: int, b: int, ps: int)
    requires
        2 <= ps,
        ps % 2 == 0,
    ensures
        a * ps != b * ps + ps / 2,
{
    if a * ps == b * ps + ps / 2 {
        assert(2 * (a * ps) == 2 * (b * ps) + ps);
        assert(2 * (a * ps) == (2 * a) * ps) by (nonlinear_arith);
        assert(2 * (b * ps) == (2 * b) * ps) by (nonlinear_arith);
        assert((2 * a) * ps == (2 * b + 1) * ps) by (nonlinear_arith)
            requires
                (2 * a) * ps == (2 * b) * ps + ps,
        ;
        assert(2 * a == 2 * b + 1) by (nonlinear_arith)
            requires
                (2 * a) * ps == (2 * b + 1) * ps,
                ps >= 2,
        ;
        assert(false);
    }
}

/// In a tiling with an even number of blocks per side, no block midpoint
/// coordinate equals the grid centre coordinate.
proof fn lemma_diamond_misses_centre(col: i64, partitions: i64, ps: i64, s: int)
    requires
        0 <= col < partitions,
        2 <= ps,
        ps % 2 == 0,
        partitions % 2 == 0,
        partitions * ps == s - 1,
    ensures
        col * ps + ps / 2 != (s - 1) / 2,
{
    let m = (s - 1) / 2;
    assert(2 * m == s - 1) by {
        lemma_even_product(partitions, ps);
    }
    if col * ps + ps / 2 == m {
        assert(2 * (col * ps) + ps == partitions * ps);
        assert((2 * col) * ps + ps == (2 * col + 1) * ps) by (nonlinear_arith);
        assert(2 * (col * ps) == (2 * col) * ps) by (nonlinear_arith);
        assert(2 * col + 1 == partitions) by (nonlinear_arith)
            requires
                (2 * col + 1) * ps == partitions * ps,
                ps >= 2,
        ;
    }
}

/// The product of an even number and an even number is even, so the centre
/// coordinate `(s - 1) / 2` is exact.
proof fn lemma_even_product(partitions: i64, ps: i64)
    requires
        1 <= partitions,
        2 <= ps,
        ps % 2 == 0,
    ensures
        (partitions * ps) % 2 == 0,
        2 * ((partitions * ps) / 2) == partitions * ps,
{
    assert(partitions * ps == (partitions * (ps / 2)) * 2) by (nonlinear_arith)
        requires
            ps % 2 == 0,
    ;
    let k = partitions * (ps / 2);
    assert((k * 2) % 2 == 0 && (k * 2) / 2 == k) by (nonlinear_arith);
}

/// A block midpoint coordinate is strictly between the grid border cells.
proof fn lemma_mid_interior(col: int, partitions: int, partition_size: int, s: int)
    requires
        0 <= col < partitions,
        2 <= partition_size,
        partitions * partition_size == s - 1,
    ensures
        0 < col * partition_size + partition_size / 2 < s - 1,
        0 <= col * partition_size,
        col * partition_size + partition_size == (col + 1) * partition_size,
        (col + 1) * partition_size <= s - 1,
{
    assert(0 <= col * partition_size) by (nonlinear_arith)
        requires
            0 <= col,
            0 <= partition_size,
    ;
    lemma_mul_inequality(col + 1, partitions, partition_size);
    assert((col + 1) * partition_size == col * partition_size + partition_size) by (nonlinear_arith);
    assert(1 <= partition_size / 2 <= partition_size - 1);
}

/// Two equal powers of two have equal exponents.
pub proof fn lemma_pow2_injective(e1: nat, e2: nat)
    requires
        pow2(e1) == pow2(e2),
    ensures
        e1 == e2,
{
    if e1 < e2 {
        lemma_pow2_strictly_increases(e1, e2);
    }
    if e2 < e1 {
        lemma_pow2_strictly_increases(e2, e1);
    }
}

/// Pass count: over a grid of side `2^n + 1` the partition progression has
/// exactly `n` entries, so exactly `n` passes execute.
pub proof fn lemma_pass_count(size: int, n: nat, len: nat)
    requires
        size - 1 == pow2(n),
        pow2(len) == size - 1,
    ensures
        len == n,
{
    lemma_pow2_injective(len, n);
}

} // verus!
