use crate::qrcode::decoder::version::{
    alignment_modules, codeword_capacity, lemma_standard_version, raw_data_modules, Version,
};
use crate::qrcode::decoder::version_table::standard_centers;
use crate::qrcode::encoder::matrix_util::{
    align_one, align_row, align_rows, aligned, basic_patterns, blank, cell_at_turn, dark_dot,
    data_room, empty_in_pair, empty_in_pairs, finders_and_separators, function_patterns, overlay,
    pair_of, square, timing_at, turn_of, type_info_at, type_info_bits, TypePlace,
};
use crate::qrcode::written_and_read::lemma_cell_at_turn;
use vstd::prelude::*;

verus! {

/// The number of cells among the first `r` of the pair of columns numbered `p` of which
/// `f` holds.
pub open spec fn turns_with(f: spec_fn(int, int) -> bool, dim: int, p: int, r: nat) -> nat
    decreases r,
{
    if r == 0 {
        0
    } else {
        let (x, y) = cell_at_turn(dim, p, r - 1);
        turns_with(f, dim, p, (r - 1) as nat) + if f(x, y) {
            1nat
        } else {
            0nat
        }
    }
}

/// The number of cells in the first `p` pairs of columns of which `f` holds.
pub open spec fn cells_with(f: spec_fn(int, int) -> bool, dim: int, p: nat) -> nat
    decreases p,
{
    if p == 0 {
        0
    } else {
        cells_with(f, dim, (p - 1) as nat) + turns_with(f, dim, p - 1, (2 * dim) as nat)
    }
}

/// Whether a cell of `g` is empty.
pub open spec fn empty_cell(g: Seq<Seq<i8>>) -> spec_fn(int, int) -> bool {
    |x: int, y: int| g[y][x] == -1
}

/// Whether `(x, y)` is a cell that the walk over the pairs of columns meets: a cell of
/// the symbol outside column 6.
pub open spec fn walked(dim: int, x: int, y: int) -> bool {
    0 <= x < dim && 0 <= y < dim && x != 6
}

/// The cell `(a, b)` alone.
pub open spec fn one_cell(a: int, b: int) -> spec_fn(int, int) -> bool {
    |x: int, y: int| x == a && y == b
}

/// The cells of the rectangle of `w` by `h` cells with its top left cell at `(x0, y0)`.
pub open spec fn in_rect(x0: int, y0: int, w: int, h: int) -> spec_fn(int, int) -> bool {
    |x: int, y: int| x0 <= x < x0 + w && y0 <= y < y0 + h
}

/// The number of columns among `w` from `x0` on that are not column 6.
pub open spec fn columns_walked(x0: int, w: int) -> int {
    if x0 <= 6 < x0 + w {
        w - 1
    } else {
        w
    }
}

/// The empty cells are counted as the cells of which `empty_cell` holds.
pub proof fn lemma_empty_turns(g: Seq<Seq<i8>>, dim: int, p: int, r: nat)
    ensures
        empty_in_pair(g, dim, p, r) == turns_with(empty_cell(g), dim, p, r),
    decreases r,
{
    if r > 0 {
        lemma_empty_turns(g, dim, p, (r - 1) as nat);
    }
}

/// The empty cells are counted as the cells of which `empty_cell` holds.
pub proof fn lemma_empty_cells(g: Seq<Seq<i8>>, dim: int, p: nat)
    ensures
        empty_in_pairs(g, dim, p) == cells_with(empty_cell(g), dim, p),
    decreases p,
{
    if p > 0 {
        lemma_empty_cells(g, dim, (p - 1) as nat);
        lemma_empty_turns(g, dim, p - 1, (2 * dim) as nat);
    }
}

/// Where one of `e` and `c` holds of every cell, the cells of which `e` holds and those of
/// which `c` holds are no fewer than the cells.
pub proof fn lemma_turns_split(
    e: spec_fn(int, int) -> bool,
    c: spec_fn(int, int) -> bool,
    dim: int,
    p: int,
    r: nat,
)
    requires
        dim % 2 == 1,
        dim >= 9,
        0 <= p < (dim - 1) / 2,
        r <= 2 * dim,
        forall|x: int, y: int| walked(dim, x, y) ==> e(x, y) || c(x, y),
    ensures
        turns_with(e, dim, p, r) + turns_with(c, dim, p, r) >= r,
    decreases r,
{
    if r > 0 {
        lemma_turns_split(e, c, dim, p, (r - 1) as nat);
        lemma_cell_at_turn(dim, p, r - 1);
        let (x, y) = cell_at_turn(dim, p, r - 1);
        assert(walked(dim, x, y));
    }
}

/// Where one of `e` and `c` holds of every cell, the cells of which `e` holds and those of
/// which `c` holds are no fewer than the cells.
pub proof fn lemma_cells_split(
    e: spec_fn(int, int) -> bool,
    c: spec_fn(int, int) -> bool,
    dim: int,
    p: nat,
)
    requires
        dim % 2 == 1,
        dim >= 9,
        p <= (dim - 1) / 2,
        forall|x: int, y: int| walked(dim, x, y) ==> e(x, y) || c(x, y),
    ensures
        cells_with(e, dim, p) + cells_with(c, dim, p) >= p * (2 * dim),
    decreases p,
{
    if p > 0 {
        lemma_cells_split(e, c, dim, (p - 1) as nat);
        lemma_turns_split(e, c, dim, p - 1, (2 * dim) as nat);
        assert(p * (2 * dim) == (p - 1) * (2 * dim) + 2 * dim) by (nonlinear_arith);
    } else {
        assert(p * (2 * dim) == 0) by (nonlinear_arith)
            requires
                p == 0,
        ;
    }
}

/// Where `f` holds of a cell only if `a` or `b` does, the cells of which `f` holds are
/// no more than those of which `a` holds and those of which `b` holds.
pub proof fn lemma_turns_union(
    f: spec_fn(int, int) -> bool,
    a: spec_fn(int, int) -> bool,
    b: spec_fn(int, int) -> bool,
    dim: int,
    p: int,
    r: nat,
)
    requires
        dim % 2 == 1,
        dim >= 9,
        0 <= p < (dim - 1) / 2,
        r <= 2 * dim,
        forall|x: int, y: int| walked(dim, x, y) && f(x, y) ==> a(x, y) || b(x, y),
    ensures
        turns_with(f, dim, p, r) <= turns_with(a, dim, p, r) + turns_with(b, dim, p, r),
    decreases r,
{
    if r > 0 {
        lemma_turns_union(f, a, b, dim, p, (r - 1) as nat);
        lemma_cell_at_turn(dim, p, r - 1);
        let (x, y) = cell_at_turn(dim, p, r - 1);
        assert(walked(dim, x, y));
    }
}

/// Where `f` holds of a cell only if `a` or `b` does, the cells of which `f` holds are
/// no more than those of which `a` holds and those of which `b` holds.
pub proof fn lemma_cells_union(
    f: spec_fn(int, int) -> bool,
    a: spec_fn(int, int) -> bool,
    b: spec_fn(int, int) -> bool,
    dim: int,
    p: nat,
)
    requires
        dim % 2 == 1,
        dim >= 9,
        p <= (dim - 1) / 2,
        forall|x: int, y: int| walked(dim, x, y) && f(x, y) ==> a(x, y) || b(x, y),
    ensures
        cells_with(f, dim, p) <= cells_with(a, dim, p) + cells_with(b, dim, p),
    decreases p,
{
    if p > 0 {
        lemma_cells_union(f, a, b, dim, (p - 1) as nat);
        lemma_turns_union(f, a, b, dim, p - 1, (2 * dim) as nat);
    }
}

/// A predicate that holds of no cell that is walked holds of none of the cells counted.
pub proof fn lemma_cells_none(f: spec_fn(int, int) -> bool, dim: int, p: nat)
    requires
        dim % 2 == 1,
        dim >= 9,
        p <= (dim - 1) / 2,
        forall|x: int, y: int| walked(dim, x, y) ==> !f(x, y),
    ensures
        cells_with(f, dim, p) == 0,
    decreases p,
{
    if p > 0 {
        lemma_cells_none(f, dim, (p - 1) as nat);
        lemma_turns_none(f, dim, p - 1, (2 * dim) as nat);
    }
}

/// A predicate that holds of no cell that is walked holds of none of the cells counted.
pub proof fn lemma_turns_none(f: spec_fn(int, int) -> bool, dim: int, p: int, r: nat)
    requires
        dim % 2 == 1,
        dim >= 9,
        0 <= p < (dim - 1) / 2,
        r <= 2 * dim,
        forall|x: int, y: int| walked(dim, x, y) ==> !f(x, y),
    ensures
        turns_with(f, dim, p, r) == 0,
    decreases r,
{
    if r > 0 {
        lemma_turns_none(f, dim, p, (r - 1) as nat);
        lemma_cell_at_turn(dim, p, r - 1);
        let (x, y) = cell_at_turn(dim, p, r - 1);
        assert(walked(dim, x, y));
    }
}

/// A cell is met once in its pair of columns, at its turn, and not elsewhere.
pub proof fn lemma_turns_cell(a: int, b: int, dim: int, p: int, r: nat)
    requires
        dim % 2 == 1,
        dim >= 9,
        0 <= p < (dim - 1) / 2,
        r <= 2 * dim,
    ensures
        turns_with(one_cell(a, b), dim, p, r) <= if a != 6 && pair_of(dim, a) == p && turn_of(
            dim,
            a,
            b,
        ) < r {
            1nat
        } else {
            0nat
        },
    decreases r,
{
    if r > 0 {
        lemma_turns_cell(a, b, dim, p, (r - 1) as nat);
        lemma_cell_at_turn(dim, p, r - 1);
    }
}

/// A cell is met once in the walk over the pairs of columns, and a cell of column 6
/// never.
pub proof fn lemma_cells_cell(a: int, b: int, dim: int, p: nat)
    requires
        dim % 2 == 1,
        dim >= 9,
        p <= (dim - 1) / 2,
    ensures
        cells_with(one_cell(a, b), dim, p) <= if a != 6 && pair_of(dim, a) < p {
            1nat
        } else {
            0nat
        },
    decreases p,
{
    if p > 0 {
        lemma_cells_cell(a, b, dim, (p - 1) as nat);
        lemma_turns_cell(a, b, dim, p - 1, (2 * dim) as nat);
    }
}

/// The cells of a row of `w` cells are met once each, but those of column 6.
pub proof fn lemma_cells_row(x0: int, y0: int, w: nat, dim: int, p: nat)
    requires
        dim % 2 == 1,
        dim >= 9,
        p <= (dim - 1) / 2,
    ensures
        cells_with(in_rect(x0, y0, w as int, 1), dim, p) <= columns_walked(x0, w as int),
    decreases w,
{
    if w == 0 {
        lemma_cells_none(in_rect(x0, y0, 0, 1), dim, p);
    } else {
        lemma_cells_row(x0, y0, (w - 1) as nat, dim, p);
        lemma_cells_cell(x0 + w - 1, y0, dim, p);
        lemma_cells_union(
            in_rect(x0, y0, w as int, 1),
            in_rect(x0, y0, w - 1, 1),
            one_cell(x0 + w - 1, y0),
            dim,
            p,
        );
    }
}

/// The cells of a rectangle are met once each, but those of column 6.
pub proof fn lemma_cells_rect(x0: int, y0: int, w: nat, h: nat, dim: int, p: nat)
    requires
        dim % 2 == 1,
        dim >= 9,
        p <= (dim - 1) / 2,
    ensures
        cells_with(in_rect(x0, y0, w as int, h as int), dim, p) <= h * columns_walked(
            x0,
            w as int,
        ),
    decreases h,
{
    if h == 0 {
        lemma_cells_none(in_rect(x0, y0, w as int, 0), dim, p);
        assert(0 * columns_walked(x0, w as int) == 0) by (nonlinear_arith);
    } else {
        lemma_cells_rect(x0, y0, w, (h - 1) as nat, dim, p);
        lemma_cells_row(x0, y0 + h - 1, w, dim, p);
        lemma_cells_union(
            in_rect(x0, y0, w as int, h as int),
            in_rect(x0, y0, w as int, h - 1),
            in_rect(x0, y0 + h - 1, w as int, 1),
            dim,
            p,
        );
        let c = columns_walked(x0, w as int);
        assert(h * c == (h - 1) * c + c) by (nonlinear_arith);
    }
}

/// The cells that the patterns around the three corners, the timing row, the format
/// information and, from version 7 on, the version information take.
pub open spec fn fixed_cover(dim: int, number: int) -> spec_fn(int, int) -> bool {
    |x: int, y: int|
        (x < 9 && y < 9) || (x >= dim - 8 && y < 9) || y == 6 || (x < 9 && y >= dim - 8) || (number
            >= 7 && ((dim - 11 <= x < dim - 8 && y < 6) || (x < 6 && dim - 11 <= y < dim - 8)))
}

/// The number of cells outside column 6 that `fixed_cover` takes, at most.
pub open spec fn fixed_bound(dim: int, number: int) -> int {
    191 + dim + if number >= 7 {
        36int
    } else {
        0int
    }
}

/// The cells of the fixed patterns are no more than `fixed_bound`.
pub proof fn lemma_fixed_cells(dim: int, number: int)
    requires
        dim % 2 == 1,
        dim >= 21,
    ensures
        cells_with(fixed_cover(dim, number), dim, ((dim - 1) / 2) as nat) <= fixed_bound(
            dim,
            number,
        ),
{
    let p = ((dim - 1) / 2) as nat;
    let r1 = in_rect(0, 0, 9, 6);
    let r2 = in_rect(0, 7, 9, 2);
    let r3 = in_rect(dim - 8, 0, 8, 6);
    let r4 = in_rect(dim - 8, 7, 8, 2);
    let r5 = in_rect(0, 6, dim, 1);
    let r6 = in_rect(0, dim - 8, 9, 8);
    let r7 = in_rect(dim - 11, 0, 3, 6);
    let r8 = in_rect(0, dim - 11, 6, 3);
    lemma_cells_rect(0, 0, 9, 6, dim, p);
    lemma_cells_rect(0, 7, 9, 2, dim, p);
    lemma_cells_rect(dim - 8, 0, 8, 6, dim, p);
    lemma_cells_rect(dim - 8, 7, 8, 2, dim, p);
    lemma_cells_rect(0, 6, dim as nat, 1, dim, p);
    lemma_cells_rect(0, dim - 8, 9, 8, dim, p);
    lemma_cells_rect(dim - 11, 0, 3, 6, dim, p);
    lemma_cells_rect(0, dim - 11, 6, 3, dim, p);
    let u2 = |x: int, y: int| r1(x, y) || r2(x, y);
    let u3 = |x: int, y: int| u2(x, y) || r3(x, y);
    let u4 = |x: int, y: int| u3(x, y) || r4(x, y);
    let u5 = |x: int, y: int| u4(x, y) || r5(x, y);
    let u6 = |x: int, y: int| u5(x, y) || r6(x, y);
    let u7 = |x: int, y: int| r7(x, y) || r8(x, y);
    lemma_cells_union(u2, r1, r2, dim, p);
    lemma_cells_union(u3, u2, r3, dim, p);
    lemma_cells_union(u4, u3, r4, dim, p);
    lemma_cells_union(u5, u4, r5, dim, p);
    lemma_cells_union(u6, u5, r6, dim, p);
    if number >= 7 {
        lemma_cells_union(u7, r7, r8, dim, p);
        lemma_cells_union(fixed_cover(dim, number), u6, u7, dim, p);
    } else {
        lemma_cells_none(|x: int, y: int| false, dim, p);
        lemma_cells_union(fixed_cover(dim, number), u6, |x: int, y: int| false, dim, p);
    }
}

/// Whether the centers `i` and `j` are those of a corner that holds a position detection
/// pattern, where no position adjustment pattern is laid.
pub open spec fn corner(i: int, j: int, n: int) -> bool {
    (i == 0 && j == 0) || (i == 0 && j == n - 1) || (i == n - 1 && j == 0)
}

/// The cells of the position adjustment pattern around `(cx, cy)` outside the timing row.
pub open spec fn square_cover(cx: int, cy: int) -> spec_fn(int, int) -> bool {
    |x: int, y: int| cx - 2 <= x <= cx + 2 && cy - 2 <= y <= cy + 2 && y != 6
}

/// The cells of the position adjustment patterns around the first `kx` centers of the
/// row of centers numbered `j`.
pub open spec fn row_cover(centers: Seq<usize>, j: int, kx: int) -> spec_fn(int, int) -> bool {
    |x: int, y: int|
        exists|i: int|
            0 <= i < kx && !corner(i, j, centers.len() as int) && #[trigger] square_cover(
                centers[i] as int,
                centers[j] as int,
            )(x, y)
}

/// The cells of the position adjustment patterns of the first `ky` rows of centers.
pub open spec fn rows_cover(centers: Seq<usize>, ky: int) -> spec_fn(int, int) -> bool {
    |x: int, y: int|
        exists|j: int|
            0 <= j < ky && #[trigger] row_cover(centers, j, centers.len() as int)(x, y)
}

/// The number of cells outside column 6 and the timing row of the pattern around
/// `(cx, cy)`.
pub open spec fn square_bound(cx: int, cy: int) -> int {
    (if cy - 2 <= 6 <= cy + 2 {
        4int
    } else {
        5int
    }) * columns_walked(cx - 2, 5)
}

/// The sum of the bounds of the patterns around the first `kx` centers of row `j`.
pub open spec fn row_bound(centers: Seq<usize>, j: int, kx: nat) -> int
    decreases kx,
{
    if kx == 0 {
        0
    } else {
        row_bound(centers, j, (kx - 1) as nat) + if corner(kx - 1, j, centers.len() as int) {
            0int
        } else {
            square_bound(centers[kx - 1] as int, centers[j] as int)
        }
    }
}

/// The sum of the bounds of the patterns of the first `ky` rows of centers.
pub open spec fn rows_bound(centers: Seq<usize>, ky: nat) -> int
    decreases ky,
{
    if ky == 0 {
        0
    } else {
        rows_bound(centers, (ky - 1) as nat) + row_bound(centers, ky - 1, centers.len())
    }
}

/// The cells of one position adjustment pattern are no more than its bound.
pub proof fn lemma_square_cells(cx: int, cy: int, dim: int)
    requires
        dim % 2 == 1,
        dim >= 9,
    ensures
        cells_with(square_cover(cx, cy), dim, ((dim - 1) / 2) as nat) <= square_bound(cx, cy),
        square_bound(cx, cy) >= 0,
{
    let p = ((dim - 1) / 2) as nat;
    let c = columns_walked(cx - 2, 5);
    if cy - 2 <= 6 <= cy + 2 {
        let above = (6 - (cy - 2)) as nat;
        let below = (cy + 2 - 6) as nat;
        lemma_cells_rect(cx - 2, cy - 2, 5, above, dim, p);
        lemma_cells_rect(cx - 2, 7, 5, below, dim, p);
        lemma_cells_union(
            square_cover(cx, cy),
            in_rect(cx - 2, cy - 2, 5, above as int),
            in_rect(cx - 2, 7, 5, below as int),
            dim,
            p,
        );
        assert(above * c + below * c == 4 * c) by (nonlinear_arith)
            requires
                above + below == 4,
        ;
    } else {
        lemma_cells_rect(cx - 2, cy - 2, 5, 5, dim, p);
        lemma_cells_none(|x: int, y: int| false, dim, p);
        lemma_cells_union(
            square_cover(cx, cy),
            in_rect(cx - 2, cy - 2, 5, 5),
            |x: int, y: int| false,
            dim,
            p,
        );
    }
}

/// The cells of the patterns of a row of centers are no more than the sum of their
/// bounds.
pub proof fn lemma_row_cells(centers: Seq<usize>, j: int, kx: nat, dim: int)
    requires
        dim % 2 == 1,
        dim >= 9,
    ensures
        cells_with(row_cover(centers, j, kx as int), dim, ((dim - 1) / 2) as nat) <= row_bound(
            centers,
            j,
            kx,
        ),
        row_bound(centers, j, kx) >= 0,
    decreases kx,
{
    let p = ((dim - 1) / 2) as nat;
    if kx == 0 {
        lemma_cells_none(row_cover(centers, j, 0), dim, p);
    } else {
        lemma_row_cells(centers, j, (kx - 1) as nat, dim);
        let cx = centers[kx - 1] as int;
        let cy = centers[j] as int;
        if corner(kx - 1, j, centers.len() as int) {
            lemma_cells_none(|x: int, y: int| false, dim, p);
            lemma_cells_union(
                row_cover(centers, j, kx as int),
                row_cover(centers, j, kx - 1),
                |x: int, y: int| false,
                dim,
                p,
            );
        } else {
            lemma_square_cells(cx, cy, dim);
            lemma_cells_union(
                row_cover(centers, j, kx as int),
                row_cover(centers, j, kx - 1),
                square_cover(cx, cy),
                dim,
                p,
            );
        }
    }
}

/// The cells of the position adjustment patterns are no more than the sum of their
/// bounds.
pub proof fn lemma_rows_cells(centers: Seq<usize>, ky: nat, dim: int)
    requires
        dim % 2 == 1,
        dim >= 9,
    ensures
        cells_with(rows_cover(centers, ky as int), dim, ((dim - 1) / 2) as nat) <= rows_bound(
            centers,
            ky,
        ),
        rows_bound(centers, ky) >= 0,
    decreases ky,
{
    let p = ((dim - 1) / 2) as nat;
    if ky == 0 {
        lemma_cells_none(rows_cover(centers, 0), dim, p);
    } else {
        lemma_rows_cells(centers, (ky - 1) as nat, dim);
        lemma_row_cells(centers, ky - 1, centers.len(), dim);
        lemma_cells_union(
            rows_cover(centers, ky as int),
            rows_cover(centers, ky - 1),
            row_cover(centers, ky - 1, centers.len() as int),
            dim,
            p,
        );
    }
}

/// Whether the centers are those of a version with position adjustment patterns: at
/// least two, the first one on the timing lines and the others clear of them.
pub open spec fn spread(centers: Seq<usize>) -> bool {
    &&& centers.len() >= 2
    &&& centers[0] == 6
    &&& forall|i: int| 1 <= i < centers.len() ==> #[trigger] centers[i] >= 9
}

/// The bounds of the patterns of a row of centers: 25 cells for a pattern clear of the
/// timing lines and 20 for one on them.
pub proof fn lemma_row_bound_value(centers: Seq<usize>, j: int, kx: nat)
    requires
        spread(centers),
        0 <= j < centers.len(),
        kx <= centers.len(),
    ensures
        row_bound(centers, j, kx) == if kx == 0 {
            0
        } else if j == 0 {
            20 * ((if kx <= centers.len() - 1 {
                kx as int
            } else {
                centers.len() - 1
            }) - 1)
        } else if j == centers.len() - 1 {
            25 * (kx - 1)
        } else {
            20 + 25 * (kx - 1)
        },
    decreases kx,
{
    if kx > 0 {
        lemma_row_bound_value(centers, j, (kx - 1) as nat);
        let i = kx - 1;
        if i >= 1 {
            assert(centers[i] >= 9);
        }
        if j >= 1 {
            assert(centers[j] >= 9);
        }
    }
}

/// The bounds of the position adjustment patterns of `n` centers along a side come to
/// `25 * n * n - 10 * n - 55`.
pub proof fn lemma_rows_bound_value(centers: Seq<usize>, ky: nat)
    requires
        spread(centers),
        ky <= centers.len(),
    ensures
        rows_bound(centers, ky) == if ky == 0 {
            0
        } else if ky <= centers.len() - 1 {
            20 * (centers.len() - 2) + (ky - 1) * (25 * centers.len() - 5)
        } else {
            25 * centers.len() * centers.len() - 10 * centers.len() - 55
        },
    decreases ky,
{
    let n = centers.len() as int;
    if ky > 0 {
        lemma_rows_bound_value(centers, (ky - 1) as nat);
        lemma_row_bound_value(centers, ky - 1, centers.len());
        let k = ky as int;
        if ky == 1 {
            assert((k - 1) * (25 * n - 5) == 0) by (nonlinear_arith)
                requires
                    k == 1,
            ;
        } else if ky <= n - 1 {
            assert((k - 1) * (25 * n - 5) == (k - 2) * (25 * n - 5) + (25 * n - 5))
                by (nonlinear_arith);
        } else {
            assert(20 * (n - 2) + (n - 2) * (25 * n - 5) + 25 * (n - 1) == 25 * n * n - 10 * n
                - 55) by (nonlinear_arith);
            if n == 2 {
                assert((n - 2) * (25 * n - 5) == 0) by (nonlinear_arith)
                    requires
                        n == 2,
                ;
            }
        }
    }
}

/// Whether the filled cells of `a` are filled in `b`.
pub open spec fn keeps_filled(a: Seq<Seq<i8>>, b: Seq<Seq<i8>>, dim: int) -> bool {
    forall|x: int, y: int| 0 <= x < dim && 0 <= y < dim && a[y][x] != -1 ==> #[trigger] b[y][x] != -1
}

/// Whether no pattern around one of the first `kx` centers of the row at `cy` is laid
/// over `(x, y)`: each pattern that would take the cell has its center filled in `base`.
pub open spec fn row_clear(base: Seq<Seq<i8>>, centers: Seq<usize>, cy: int, kx: int, x: int, y: int) -> bool {
    forall|i: int|
        0 <= i < kx && (#[trigger] centers[i]) - 2 <= x <= centers[i] + 2 && cy - 2 <= y <= cy + 2
            ==> base[cy][centers[i] as int] != -1
}

/// The position adjustment patterns of a row of centers leave a cell as it is where none
/// of them is laid over it, and leave no filled cell empty.
pub proof fn lemma_align_row_keeps(
    base: Seq<Seq<i8>>,
    g: Seq<Seq<i8>>,
    centers: Seq<usize>,
    cy: int,
    kx: nat,
    dim: int,
    x: int,
    y: int,
)
    requires
        square(base, dim),
        square(g, dim),
        keeps_filled(base, g, dim),
        kx <= centers.len(),
        forall|i: int| 0 <= i < centers.len() ==> #[trigger] centers[i] < dim,
        0 <= cy < dim,
        0 <= x < dim,
        0 <= y < dim,
    ensures
        square(align_row(g, centers, cy, kx), dim),
        keeps_filled(g, align_row(g, centers, cy, kx), dim),
        keeps_filled(base, align_row(g, centers, cy, kx), dim),
        row_clear(base, centers, cy, kx as int, x, y) ==> align_row(g, centers, cy, kx)[y][x]
            == g[y][x],
    decreases kx,
{
    if kx > 0 {
        lemma_align_row_keeps(base, g, centers, cy, (kx - 1) as nat, dim, x, y);
        let g1 = align_row(g, centers, cy, (kx - 1) as nat);
        let cx = centers[kx - 1] as int;
        let g2 = align_one(g1, cx, cy);
        assert(g2 == align_row(g, centers, cy, kx));
        assert(keeps_filled(g1, g2, dim)) by {
            assert forall|a: int, b: int|
                0 <= a < dim && 0 <= b < dim && g1[b][a] != -1 implies #[trigger] g2[b][a]
                != -1 by {}
        }
        assert(keeps_filled(g, g2, dim)) by {
            assert forall|a: int, b: int|
                0 <= a < dim && 0 <= b < dim && g[b][a] != -1 implies #[trigger] g2[b][a]
                != -1 by {
                assert(g1[b][a] != -1);
            }
        }
        assert(keeps_filled(base, g2, dim)) by {
            assert forall|a: int, b: int|
                0 <= a < dim && 0 <= b < dim && base[b][a] != -1 implies #[trigger] g2[b][a]
                != -1 by {
                assert(g1[b][a] != -1);
            }
        }
        if row_clear(base, centers, cy, kx as int, x, y) {
            assert(row_clear(base, centers, cy, kx - 1, x, y));
            if cx - 2 <= x <= cx + 2 && cy - 2 <= y <= cy + 2 {
                assert(centers[kx - 1] - 2 <= x);
                assert(base[cy][cx] != -1);
                assert(g1[cy][cx] != -1);
            }
        }
    }
}

/// Whether no pattern of the first `ky` rows of centers is laid over `(x, y)`.
pub open spec fn rows_clear(base: Seq<Seq<i8>>, centers: Seq<usize>, ky: int, x: int, y: int) -> bool {
    forall|j: int|
        0 <= j < ky ==> row_clear(
            base,
            centers,
            (#[trigger] centers[j]) as int,
            centers.len() as int,
            x,
            y,
        )
}

/// The position adjustment patterns leave a cell as it is where none of them is laid
/// over it, and leave no filled cell empty.
pub proof fn lemma_align_rows_keeps(
    base: Seq<Seq<i8>>,
    centers: Seq<usize>,
    ky: nat,
    dim: int,
    x: int,
    y: int,
)
    requires
        square(base, dim),
        ky <= centers.len(),
        forall|i: int| 0 <= i < centers.len() ==> #[trigger] centers[i] < dim,
        0 <= x < dim,
        0 <= y < dim,
    ensures
        square(align_rows(base, centers, ky), dim),
        keeps_filled(base, align_rows(base, centers, ky), dim),
        rows_clear(base, centers, ky as int, x, y) ==> align_rows(base, centers, ky)[y][x]
            == base[y][x],
    decreases ky,
{
    if ky > 0 {
        lemma_align_rows_keeps(base, centers, (ky - 1) as nat, dim, x, y);
        let g = align_rows(base, centers, (ky - 1) as nat);
        let cy = centers[ky - 1] as int;
        lemma_align_row_keeps(base, g, centers, cy, centers.len(), dim, x, y);
        if rows_clear(base, centers, ky as int, x, y) {
            assert(rows_clear(base, centers, ky - 1, x, y));
            assert(row_clear(base, centers, centers[ky - 1] as int, centers.len() as int, x, y));
        }
    }
}

/// A cell that none of the patterns takes is empty before the data is laid: a cell
/// outside column 6 that neither the fixed patterns nor a position adjustment pattern
/// cover is left empty by the patterns and the information of the symbol.
pub proof fn lemma_uncovered_is_empty(
    number: int,
    centers: Seq<usize>,
    level_bits: u32,
    mask_pattern: int,
    x: int,
    y: int,
)
    requires
        1 <= number <= 40,
        forall|i: int| 0 <= i < centers.len() ==> 6 <= #[trigger] centers[i] <= 4 * number + 10,
        centers.len() > 0 ==> centers[0] == 6 && centers[centers.len() - 1] == 4 * number + 10,
        walked(4 * number + 17, x, y),
        !fixed_cover(4 * number + 17, number)(x, y),
        !rows_cover(centers, centers.len() as int)(x, y),
    ensures
        function_patterns(number, centers, level_bits, mask_pattern)[y][x] == -1,
{
    let dim = 4 * number + 17;
    let n = centers.len() as int;
    let g0 = blank(dim as nat);
    let gf = finders_and_separators(g0, dim);
    let gd = dark_dot(gf, dim);
    assert(square(gd, dim));
    assert(gd[y][x] == -1);
    let ga = aligned(gd, number, centers);
    lemma_align_rows_keeps(gd, centers, centers.len(), dim, x, y);
    assert(rows_clear(gd, centers, n, x, y)) by {
        assert forall|j: int| 0 <= j < n implies row_clear(
            gd,
            centers,
            (#[trigger] centers[j]) as int,
            n,
            x,
            y,
        ) by {
            let cy = centers[j] as int;
            assert forall|i: int|
                0 <= i < n && (#[trigger] centers[i]) - 2 <= x <= centers[i] + 2 && cy - 2 <= y
                    <= cy + 2 implies gd[cy][centers[i] as int] != -1 by {
                let cx = centers[i] as int;
                if corner(i, j, n) {
                    assert(gd[6][6] != -1);
                    assert(gd[dim - 7][6] != -1);
                    assert(gd[6][dim - 7] != -1);
                } else {
                    assert(square_cover(cx, cy)(x, y));
                    assert(row_cover(centers, j, n)(x, y));
                    assert(rows_cover(centers, n)(x, y));
                }
            }
        }
    }
    assert(ga[y][x] == -1);
    assert(square(ga, dim));
    let gb = overlay(ga, timing_at(ga, dim));
    assert(gb[y][x] == -1);
    assert(gb == basic_patterns(number, centers));
    let bits = type_info_bits(level_bits, mask_pattern);
    assert forall|i: int| 0 <= i < 15 implies !TypePlace::holds(i, dim, x, y) by {}
    let gt = overlay(gb, type_info_at(bits, dim, 15));
    assert(square(gb, dim));
    assert(gt[y][x] == -1);
    assert(square(gt, dim));
}

/// What the centers that the standard gives a version are like: none for version 1; else
/// one more than two for every seven versions, the first on the timing lines, the last
/// beside the far position detection patterns, the others between them and clear of the
/// timing lines.
pub proof fn lemma_standard_centers(number: int)
    requires
        1 <= number <= 40,
    ensures
        standard_centers(number).len() == if number == 1 {
            0
        } else {
            number / 7 + 2
        },
        forall|i: int|
            0 <= i < standard_centers(number).len() ==> 6 <= #[trigger] standard_centers(
                number,
            )[i] <= 4 * number + 10,
        number >= 2 ==> spread(standard_centers(number)) && standard_centers(
            number,
        )[standard_centers(number).len() - 1] == 4 * number + 10,
{
}

/// A symbol of every version of the standard has room for its codewords: under every
/// level and mask, the cells that the patterns and the information leave empty are no
/// fewer than the modules that the version has for data and error correction, eight for
/// each of its codewords.
pub proof fn lemma_patterns_leave_room(number: int, level_bits: u32, mask_pattern: int)
    requires
        1 <= number <= 40,
    ensures
        data_room(
            function_patterns(number, standard_centers(number), level_bits, mask_pattern),
            4 * number + 17,
        ) >= raw_data_modules(number),
        raw_data_modules(number) >= 8 * codeword_capacity(number),
{
    let dim = 4 * number + 17;
    let centers = standard_centers(number);
    let n = centers.len();
    let p = ((dim - 1) / 2) as nat;
    let g = function_patterns(number, centers, level_bits, mask_pattern);
    lemma_standard_centers(number);
    let cover = |x: int, y: int| fixed_cover(dim, number)(x, y) || rows_cover(centers, n as int)(x, y);
    assert forall|x: int, y: int| walked(dim, x, y) implies empty_cell(g)(x, y) || cover(
        x,
        y,
    ) by {
        if !cover(x, y) {
            lemma_uncovered_is_empty(number, centers, level_bits, mask_pattern, x, y);
        }
    }
    lemma_cells_split(empty_cell(g), cover, dim, p);
    lemma_empty_cells(g, dim, p);
    lemma_fixed_cells(dim, number);
    lemma_rows_cells(centers, n, dim);
    lemma_cells_union(cover, fixed_cover(dim, number), rows_cover(centers, n as int), dim, p);
    if number >= 2 {
        lemma_rows_bound_value(centers, n);
    } else {
        assert(rows_bound(centers, 0) == 0);
    }
    assert(rows_bound(centers, n) == alignment_modules(number)) by {
        if number >= 2 {
            let k = n as int;
            assert(k == number / 7 + 2);
            assert(25 * k * k - 10 * k - 55 == alignment_modules(number)) by (nonlinear_arith)
                requires
                    2 <= k <= 7,
                    k == 2 ==> alignment_modules(number) == 25,
                    k == 3 ==> alignment_modules(number) == 140,
                    k == 4 ==> alignment_modules(number) == 305,
                    k == 5 ==> alignment_modules(number) == 520,
                    k == 6 ==> alignment_modules(number) == 785,
                    k == 7 ==> alignment_modules(number) == 1100,
            ;
        }
    }
    assert(p * (2 * dim) == dim * (dim - 1)) by (nonlinear_arith)
        requires
            2 * p == dim - 1,
    ;
    assert(dim * (dim - 1) - fixed_bound(dim, number) - alignment_modules(number)
        == raw_data_modules(number)) by (nonlinear_arith)
        requires
            dim == 4 * number + 17,
            fixed_bound(dim, number) == 191 + dim + if number >= 7 {
                36int
            } else {
                0int
            },
            raw_data_modules(number) == (16 * number + 128) * number + 64 - alignment_modules(
                number,
            ) - if number < 7 {
                0int
            } else {
                36int
            },
    ;
}

/// A version of the standard has room for its codewords: under every level and mask the
/// cells that its patterns and information leave empty are at least eight for each of
/// its codewords.
pub proof fn lemma_version_has_room(v: Version, level_bits: u32, mask_pattern: int)
    requires
        v.wf(),
        v.is_standard(),
    ensures
        data_room(
            function_patterns(v.spec_number(), v.spec_centers(), level_bits, mask_pattern),
            4 * v.spec_number() + 17,
        ) >= 8 * v.spec_total_codewords(),
{
    lemma_standard_version(v, 0);
    lemma_patterns_leave_room(v.spec_number(), level_bits, mask_pattern);
}

} // verus!
