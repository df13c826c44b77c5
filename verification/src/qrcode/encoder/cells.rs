use crate::qrcode::encoder::matrix_util::{
    align_row, align_rows, aligned, basic_patterns, blank, block_at, dark_dot, data_at,
    finders_and_separators, function_patterns, overlay, square, symbol_modules, timing_at,
    type_info_at, type_info_bits, version_info_at, version_info_bits, BlockKind,
};
use crate::qrcode::encoder::room::keeps_filled;
use vstd::prelude::*;

verus! {

/// Whether `g` has `dim` rows of `dim` cells, each of them empty, white or black.
pub open spec fn tidy(g: Seq<Seq<i8>>, dim: int) -> bool {
    &&& square(g, dim)
    &&& forall|x: int, y: int| 0 <= x < dim && 0 <= y < dim ==> -1 <= #[trigger] g[y][x] <= 1
}

/// Whether `f` gives white and black only.
pub open spec fn two_valued(f: spec_fn(int, int) -> Option<i8>) -> bool {
    forall|x: int, y: int| (#[trigger] f(x, y)) matches Some(v) ==> v == 0 || v == 1
}

/// Whether every cell of `g` is white or black.
pub open spec fn all_set(g: Seq<Seq<i8>>, dim: int) -> bool {
    &&& square(g, dim)
    &&& forall|x: int, y: int|
        0 <= x < dim && 0 <= y < dim ==> (#[trigger] g[y][x] == 0 || g[y][x] == 1)
}

/// Whether column 6 of `g` is filled in the rows from `from` up to `to`.
pub open spec fn column_filled(g: Seq<Seq<i8>>, from: int, to: int) -> bool {
    forall|y: int| from <= y < to ==> (#[trigger] g[y])[6] != -1
}

/// Laying white and black over a tidy symbol leaves it tidy, and what was filled stays
/// filled.
pub proof fn lemma_overlay_tidy(g: Seq<Seq<i8>>, f: spec_fn(int, int) -> Option<i8>, dim: int)
    requires
        tidy(g, dim),
        two_valued(f),
    ensures
        tidy(overlay(g, f), dim),
        keeps_filled(g, overlay(g, f), dim),
        forall|x: int, y: int|
            0 <= x < dim && 0 <= y < dim && f(x, y) is Some ==> #[trigger] overlay(g, f)[y][x]
                != -1,
{
    let h = overlay(g, f);
    assert forall|x: int, y: int| 0 <= x < dim && 0 <= y < dim implies -1 <= #[trigger] h[y][x]
        <= 1 && (g[y][x] != -1 ==> h[y][x] != -1) && (f(x, y) is Some ==> h[y][x] != -1) by {
        assert(g[y].len() == dim);
        assert(-1 <= g[y][x] <= 1);
        assert(f(x, y) matches Some(v) ==> v == 0 || v == 1);
    }
}

/// A block holds white and black only.
pub proof fn lemma_block_two_valued(kind: BlockKind, xs: int, ys: int, w: int, h: int)
    ensures
        two_valued(block_at(kind, xs, ys, w, h)),
{
}

/// Laying a block over a tidy symbol leaves it tidy; what was filled stays filled, and
/// column 6 stays filled where it was.
pub proof fn lemma_block_tidy(
    g: Seq<Seq<i8>>,
    kind: BlockKind,
    xs: int,
    ys: int,
    w: int,
    h: int,
    dim: int,
)
    requires
        tidy(g, dim),
        dim >= 7,
    ensures
        tidy(overlay(g, block_at(kind, xs, ys, w, h)), dim),
        keeps_filled(g, overlay(g, block_at(kind, xs, ys, w, h)), dim),
        forall|from: int, to: int|
            0 <= from && to <= dim && #[trigger] column_filled(g, from, to) ==> column_filled(
                overlay(g, block_at(kind, xs, ys, w, h)),
                from,
                to,
            ),
        forall|y: int|
            0 <= y < dim && xs <= 6 < xs + w && ys <= y < ys + h ==> (#[trigger] overlay(
                g,
                block_at(kind, xs, ys, w, h),
            )[y])[6] != -1,
{
    lemma_block_two_valued(kind, xs, ys, w, h);
    lemma_overlay_tidy(g, block_at(kind, xs, ys, w, h), dim);
    let after = overlay(g, block_at(kind, xs, ys, w, h));
    assert forall|from: int, to: int|
        0 <= from && to <= dim && #[trigger] column_filled(g, from, to) implies column_filled(
        after,
        from,
        to,
    ) by {
        assert forall|y: int| from <= y < to implies (#[trigger] after[y])[6] != -1 by {
            assert(g[y][6] != -1);
        }
    }
    assert forall|y: int| 0 <= y < dim && xs <= 6 < xs + w && ys <= y < ys + h implies (
    #[trigger] after[y])[6] != -1 by {
        assert(block_at(kind, xs, ys, w, h)(6, y) is Some);
    }
}

/// The position adjustment patterns of a row leave a tidy symbol tidy, and what was
/// filled stays filled.
pub proof fn lemma_align_row_tidy(g: Seq<Seq<i8>>, centers: Seq<usize>, cy: int, kx: nat, dim: int)
    requires
        tidy(g, dim),
        dim >= 7,
    ensures
        tidy(align_row(g, centers, cy, kx), dim),
        keeps_filled(g, align_row(g, centers, cy, kx), dim),
    decreases kx,
{
    if kx > 0 {
        lemma_align_row_tidy(g, centers, cy, (kx - 1) as nat, dim);
        let before = align_row(g, centers, cy, (kx - 1) as nat);
        lemma_block_tidy(before, BlockKind::Alignment, centers[kx - 1] - 2, cy - 2, 5, 5, dim);
    }
}

/// The position adjustment patterns leave a tidy symbol tidy, and what was filled stays
/// filled.
pub proof fn lemma_align_rows_tidy(g: Seq<Seq<i8>>, centers: Seq<usize>, ky: nat, dim: int)
    requires
        tidy(g, dim),
        dim >= 7,
    ensures
        tidy(align_rows(g, centers, ky), dim),
        keeps_filled(g, align_rows(g, centers, ky), dim),
    decreases ky,
{
    if ky > 0 {
        lemma_align_rows_tidy(g, centers, (ky - 1) as nat, dim);
        lemma_align_row_tidy(
            align_rows(g, centers, (ky - 1) as nat),
            centers,
            centers[ky - 1] as int,
            centers.len(),
            dim,
        );
    }
}

/// The patterns and the information of a symbol leave no cell of column 6 empty, and
/// every cell is empty, white or black.
pub proof fn lemma_patterns_tidy(number: int, centers: Seq<usize>, level_bits: u32, mask_pattern: int)
    requires
        number >= 1,
    ensures
        tidy(function_patterns(number, centers, level_bits, mask_pattern), 4 * number + 17),
        column_filled(
            function_patterns(number, centers, level_bits, mask_pattern),
            0,
            4 * number + 17,
        ),
{
    let dim = 4 * number + 17;
    let g0 = blank(dim as nat);
    assert(tidy(g0, dim));
    let g1 = overlay(g0, block_at(BlockKind::Finder, 0, 0, 7, 7));
    lemma_block_tidy(g0, BlockKind::Finder, 0, 0, 7, 7, dim);
    let g2 = overlay(g1, block_at(BlockKind::Finder, dim - 7, 0, 7, 7));
    lemma_block_tidy(g1, BlockKind::Finder, dim - 7, 0, 7, 7, dim);
    let g3 = overlay(g2, block_at(BlockKind::Finder, 0, dim - 7, 7, 7));
    lemma_block_tidy(g2, BlockKind::Finder, 0, dim - 7, 7, 7, dim);
    let g4 = overlay(g3, block_at(BlockKind::White, 0, 7, 8, 1));
    lemma_block_tidy(g3, BlockKind::White, 0, 7, 8, 1, dim);
    let g5 = overlay(g4, block_at(BlockKind::White, dim - 8, 7, 8, 1));
    lemma_block_tidy(g4, BlockKind::White, dim - 8, 7, 8, 1, dim);
    let g6 = overlay(g5, block_at(BlockKind::White, 0, dim - 8, 8, 1));
    lemma_block_tidy(g5, BlockKind::White, 0, dim - 8, 8, 1, dim);
    let g7 = overlay(g6, block_at(BlockKind::White, 7, 0, 1, 7));
    lemma_block_tidy(g6, BlockKind::White, 7, 0, 1, 7, dim);
    let g8 = overlay(g7, block_at(BlockKind::White, dim - 8, 0, 1, 7));
    lemma_block_tidy(g7, BlockKind::White, dim - 8, 0, 1, 7, dim);
    let g9 = overlay(g8, block_at(BlockKind::White, 7, dim - 7, 1, 7));
    lemma_block_tidy(g8, BlockKind::White, 7, dim - 7, 1, 7, dim);
    assert(g9 == finders_and_separators(g0, dim));
    assert(column_filled(g1, 0, 7));
    assert(column_filled(g3, dim - 7, dim));
    assert(column_filled(g4, 7, 8));
    assert(column_filled(g6, dim - 8, dim - 7));
    assert(column_filled(g9, 0, 7) && column_filled(g9, 7, 8) && column_filled(
        g9,
        dim - 8,
        dim - 7,
    ) && column_filled(g9, dim - 7, dim)) by {
        assert(column_filled(g2, 0, 7));
        assert(column_filled(g3, 0, 7));
        assert(column_filled(g4, 0, 7) && column_filled(g4, dim - 7, dim));
        assert(column_filled(g5, 0, 7) && column_filled(g5, dim - 7, dim) && column_filled(
            g5,
            7,
            8,
        ));
        assert(column_filled(g6, 0, 7) && column_filled(g6, dim - 7, dim) && column_filled(
            g6,
            7,
            8,
        ));
        assert(column_filled(g7, 0, 7) && column_filled(g7, dim - 7, dim) && column_filled(
            g7,
            7,
            8,
        ) && column_filled(g7, dim - 8, dim - 7));
        assert(column_filled(g8, 0, 7) && column_filled(g8, dim - 7, dim) && column_filled(
            g8,
            7,
            8,
        ) && column_filled(g8, dim - 8, dim - 7));
    }
    let gd = dark_dot(g9, dim);
    lemma_block_tidy(g9, BlockKind::Dark, 8, dim - 8, 1, 1, dim);
    let ga = aligned(gd, number, centers);
    lemma_align_rows_tidy(gd, centers, centers.len(), dim);
    assert(tidy(ga, dim) && keeps_filled(gd, ga, dim));
    let timing = timing_at(ga, dim);
    assert(two_valued(timing)) by {
        assert forall|x: int, y: int| (#[trigger] timing(x, y)) matches Some(v) ==> v == 0 || v
            == 1 by {}
    }
    lemma_overlay_tidy(ga, timing, dim);
    let gb = overlay(ga, timing);
    assert(gb == basic_patterns(number, centers));
    assert forall|y: int| 0 <= y < dim implies (#[trigger] gb[y])[6] != -1 by {
        if y < 8 || y >= dim - 8 {
            assert(g9[y][6] != -1);
            assert(gd[y][6] != -1);
            assert(ga[y][6] != -1);
        } else if ga[y][6] == -1 {
            assert(timing(6, y) is Some);
        }
    }
    let kind = type_info_at(type_info_bits(level_bits, mask_pattern), dim, 15);
    assert(two_valued(kind)) by {
        assert forall|x: int, y: int| (#[trigger] kind(x, y)) matches Some(v) ==> v == 0 || v
            == 1 by {}
    }
    lemma_overlay_tidy(gb, kind, dim);
    let gt = overlay(gb, kind);
    assert forall|y: int| 0 <= y < dim implies (#[trigger] gt[y])[6] != -1 by {
        assert(gb[y][6] != -1);
    }
    if number >= 7 {
        let version = version_info_at(version_info_bits(number), dim);
        assert(two_valued(version)) by {
            assert forall|x: int, y: int| (#[trigger] version(x, y)) matches Some(v) ==> v == 0
                || v == 1 by {}
        }
        lemma_overlay_tidy(gt, version, dim);
        let gv = overlay(gt, version);
        assert forall|y: int| 0 <= y < dim implies (#[trigger] gv[y])[6] != -1 by {
            assert(gt[y][6] != -1);
        }
    }
}

/// Every module of a symbol is white or black: the data fills what the patterns and the
/// information leave empty, whatever the bits and the mask.
pub proof fn lemma_symbol_is_filled(
    number: int,
    centers: Seq<usize>,
    level_bits: u32,
    mask_pattern: int,
    bits: Seq<bool>,
)
    requires
        number >= 1,
    ensures
        all_set(symbol_modules(number, centers, level_bits, mask_pattern, bits), 4 * number + 17),
{
    let dim = 4 * number + 17;
    let g = function_patterns(number, centers, level_bits, mask_pattern);
    lemma_patterns_tidy(number, centers, level_bits, mask_pattern);
    let data = data_at(g, bits, mask_pattern, dim);
    let s = overlay(g, data);
    assert forall|x: int, y: int| 0 <= x < dim && 0 <= y < dim implies (#[trigger] s[y][x] == 0
        || s[y][x] == 1) by {
        assert(g[y].len() == dim);
        assert(-1 <= g[y][x] <= 1);
        if g[y][x] == -1 {
            assert(g[y][6] != -1);
            assert(data(x, y) is Some);
        } else {
            assert(data(x, y) is None);
        }
    }
}

/// The patterns that a symbol has whatever it holds keep its shape.
pub proof fn lemma_basic_square(number: int, centers: Seq<usize>)
    requires
        number >= 1,
    ensures
        square(basic_patterns(number, centers), 4 * number + 17),
{
    let dim = 4 * number + 17;
    let gd = dark_dot(finders_and_separators(blank(dim as nat), dim), dim);
    assert(square(gd, dim));
    crate::qrcode::written_and_read::lemma_align_rows_square(gd, centers, centers.len(), dim);
}

} // verus!
