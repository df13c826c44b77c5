use crate::barcode_format::BarcodeFormat;
use crate::binarizer::Binarizer;
use crate::common::bit_matrix::BitMatrix;
use crate::common::black_and_white::{grey_levels_of, same_cells};
use crate::common::charset::chars_up_to;
use crate::common::decoder_result::DecoderResult;
use crate::common::global_histogram_binarizer::MAX_IMAGE_PIXELS;
use crate::common::hybrid_binarizer::{HybridBinarizer, MINIMUM_DIMENSION};
use crate::encode_hint_type::EncodeHints;
use crate::error::Error;
use crate::luminance_source::{fails_with, LuminanceSource};
use crate::qrcode::decoder::version_table::standard_centers;
use crate::qrcode::encoder::matrix_util::{
    aligned, basic_patterns, blank, dark_dot, data_at, finder_value, finders_and_separators,
    function_patterns, overlay, square, symbol_modules, timing_at, type_info_at, type_info_bits,
    TypePlace,
};
use crate::qrcode::encoder::room::{lemma_align_rows_keeps, row_clear, rows_clear};
use crate::qrcode::qrcode_reader::{
    fifth_transition, layout_within, lemma_one_bottom_right, lemma_one_top_left, pure_layout,
    rounded_quotient, sample_place, PureLayout, QRCodeReader,
};
use crate::qrcode::qrcode_writer::{
    in_module, layout_of, lemma_layout, painted, renderable, QRCodeWriter,
};
use crate::qrcode::text_read_back::lemma_encoded_text_is_decoded;
use crate::qrcode::written_and_read::{lemma_patterns_square, shows_modules};
use vstd::arithmetic::div_mod::{lemma_fundamental_div_mod, lemma_mod_bound};
use vstd::prelude::*;

verus! {

/// A number lies in the `k`-th run of `m` numbers where its quotient by `m` is `k`, and
/// only there.
pub proof fn lemma_run_of(m: int, k: int, d: int)
    requires
        m >= 1,
    ensures
        (k * m <= d < k * m + m) <==> d / m == k,
{
    lemma_fundamental_div_mod(d, m);
    lemma_mod_bound(d, m);
    let q = d / m;
    assert(m * q == q * m) by (nonlinear_arith);
    if q < k {
        assert(q * m + m <= k * m) by (nonlinear_arith)
            requires
                q + 1 <= k,
                m >= 1,
        ;
    }
    if q > k {
        assert(k * m + m <= q * m) by (nonlinear_arith)
            requires
                k + 1 <= q,
                m >= 1,
        ;
    }
}

/// A number of the `d`-th run of `m` numbers lies before the `k`-th run where `d` lies
/// before `k`, and only there.
pub proof fn lemma_run_order(m: int, d: int, t: int, k: int)
    requires
        m >= 1,
        d * m <= t < d * m + m,
    ensures
        d < k <==> t < k * m,
{
    if d < k {
        assert(d * m + m <= k * m) by (nonlinear_arith)
            requires
                d + 1 <= k,
                m >= 1,
        ;
    } else {
        assert(d * m >= k * m) by (nonlinear_arith)
            requires
                d >= k,
                m >= 1,
        ;
    }
}

/// Whether `image` shows the modules of a symbol of dimension `dim`, each as a square
/// of `m` by `m` cells, the first of them with its first cell at `(left, top)`, and
/// nothing else.
pub open spec fn magnified(
    image: BitMatrix,
    modules: Seq<Seq<i8>>,
    dim: int,
    left: int,
    top: int,
    m: int,
) -> bool {
    &&& m >= 1
    &&& dim >= 1
    &&& left >= 0
    &&& top >= 0
    &&& left + dim * m <= image.spec_width()
    &&& top + dim * m <= image.spec_height()
    &&& forall|x: int, y: int|
        #![trigger image.cell(x, y)]
        image.cell(x, y) == (left <= x < left + dim * m && top <= y < top + dim * m
            && modules[(y - top) / m][(x - left) / m] == 1)
}

/// The cells of a magnified symbol: a cell of module `(ix, iy)` is set where the module
/// is black.
pub proof fn lemma_magnified_cell(
    image: BitMatrix,
    modules: Seq<Seq<i8>>,
    dim: int,
    left: int,
    top: int,
    m: int,
    ix: int,
    iy: int,
    dx: int,
    dy: int,
)
    requires
        magnified(image, modules, dim, left, top, m),
        0 <= ix < dim,
        0 <= iy < dim,
        0 <= dx < m,
        0 <= dy < m,
    ensures
        image.cell(left + ix * m + dx, top + iy * m + dy) == (modules[iy][ix] == 1),
        left <= left + ix * m + dx < left + dim * m,
        top <= top + iy * m + dy < top + dim * m,
{
    lemma_run_of(m, ix, ix * m + dx);
    lemma_run_of(m, iy, iy * m + dy);
    assert(0 <= ix * m && ix * m + m <= dim * m) by (nonlinear_arith)
        requires
            0 <= ix,
            ix + 1 <= dim,
            m >= 1,
    ;
    assert(0 <= iy * m && iy * m + m <= dim * m) by (nonlinear_arith)
        requires
            0 <= iy,
            iy + 1 <= dim,
            m >= 1,
    ;
}

/// The module of a cell of a magnified symbol.
pub proof fn lemma_module_of_cell(dim: int, start: int, m: int, at: int)
    requires
        m >= 1,
        dim >= 1,
        start <= at < start + dim * m,
    ensures
        0 <= (at - start) / m < dim,
        start + ((at - start) / m) * m <= at < start + ((at - start) / m) * m + m,
{
    let k = (at - start) / m;
    lemma_run_of(m, k, at - start);
    if k >= dim {
        assert(k * m >= dim * m) by (nonlinear_arith)
            requires
                k >= dim,
                m >= 1,
        ;
    }
    if k < 0 {
        assert(k * m + m <= 0) by (nonlinear_arith)
            requires
                k + 1 <= 0,
                m >= 1,
        ;
    }
}

/// What the writer renders is the symbol magnified: the image of the modules of a square
/// symbol shows each module as a square of as many cells as the layout says, and nothing
/// around them.
pub proof fn lemma_rendered_is_magnified(
    image: BitMatrix,
    modules: Seq<Seq<i8>>,
    dim: int,
    width: int,
    height: int,
    quiet_zone: int,
)
    requires
        dim >= 1,
        0 <= width,
        0 <= height,
        0 <= quiet_zone,
        QRCodeWriter::renders(image, modules, dim, dim, width, height, quiet_zone),
    ensures
        magnified(
            image,
            modules,
            dim,
            layout_of(dim, dim, width, height, quiet_zone).left,
            layout_of(dim, dim, width, height, quiet_zone).top,
            layout_of(dim, dim, width, height, quiet_zone).multiple,
        ),
{
    let layout = layout_of(dim, dim, width, height, quiet_zone);
    let left = layout.left;
    let top = layout.top;
    let m = layout.multiple;
    lemma_layout(dim, dim, width, height, quiet_zone);
    assert(dim * m == dim * layout.multiple);
    assert forall|x: int, y: int|
        #![trigger image.cell(x, y)]
        image.cell(x, y) == (left <= x < left + dim * m && top <= y < top + dim * m
            && modules[(y - top) / m][(x - left) / m] == 1) by {
        if image.cell(x, y) {
            image.lemma_cell_in_matrix(x, y);
            assert(painted(modules, dim, layout, dim, 0, x, y));
            let (ix, iy) = choose|ix: int, iy: int|
                0 <= ix < dim && (0 <= iy < dim || (iy == dim && ix < 0)) && 0 <= iy && in_module(
                    modules,
                    layout,
                    ix,
                    iy,
                    x,
                    y,
                );
            lemma_run_of(m, ix, x - left);
            lemma_run_of(m, iy, y - top);
            assert(0 <= ix * m && ix * m + m <= dim * m) by (nonlinear_arith)
                requires
                    0 <= ix,
                    ix + 1 <= dim,
                    m >= 1,
            ;
            assert(0 <= iy * m && iy * m + m <= dim * m) by (nonlinear_arith)
                requires
                    0 <= iy,
                    iy + 1 <= dim,
                    m >= 1,
            ;
        }
        if left <= x < left + dim * m && top <= y < top + dim * m && modules[(y - top) / m][(x
            - left) / m] == 1 {
            let ix = (x - left) / m;
            let iy = (y - top) / m;
            lemma_module_of_cell(dim, left, m, x);
            lemma_module_of_cell(dim, top, m, y);
            assert(in_module(modules, layout, ix, iy, x, y));
            assert(painted(modules, dim, layout, dim, 0, x, y));
        }
    }
}

/// The first black cell of a magnified symbol whose first module is black is the first
/// cell of that module.
pub proof fn lemma_first_black_cell(
    image: BitMatrix,
    modules: Seq<Seq<i8>>,
    dim: int,
    left: int,
    top: int,
    m: int,
)
    requires
        magnified(image, modules, dim, left, top, m),
        modules[0][0] == 1,
    ensures
        !image.all_clear(),
        image.is_top_left(left, top),
        (choose|p: (int, int)| image.is_top_left(p.0, p.1)) == (left, top),
{
    lemma_magnified_cell(image, modules, dim, left, top, m, 0, 0, 0, 0);
    assert(image.cell(left, top));
    assert(image.is_top_left(left, top));
    let here = (left, top);
    assert(image.is_top_left(here.0, here.1));
    let first = choose|p: (int, int)| image.is_top_left(p.0, p.1);
    lemma_one_top_left(image, first, here);
}

/// The last of the first `n` modules of a row that is black, or -1.
pub open spec fn last_black(row: Seq<i8>, n: int) -> int
    decreases n,
{
    if n <= 0 {
        -1
    } else if row[n - 1] == 1 {
        n - 1
    } else {
        last_black(row, n - 1)
    }
}

/// The last black module of a row with a black module is black, and no module behind it
/// is.
pub proof fn lemma_last_black(row: Seq<i8>, n: int, k: int)
    requires
        0 <= k < n,
        row[k] == 1,
    ensures
        k <= last_black(row, n) < n,
        row[last_black(row, n)] == 1,
        forall|j: int| last_black(row, n) < j < n ==> row[j] != 1,
    decreases n,
{
    if row[n - 1] != 1 {
        lemma_last_black(row, n - 1, k);
    }
}

/// The last black cell of a magnified symbol lies in its last row of cells, where the
/// last row of modules has a black module, and not before the last cell of that module.
pub proof fn lemma_last_black_cell(
    image: BitMatrix,
    modules: Seq<Seq<i8>>,
    dim: int,
    left: int,
    top: int,
    m: int,
    k: int,
)
    requires
        magnified(image, modules, dim, left, top, m),
        0 <= k < dim,
        modules[dim - 1][k] == 1,
    ensures
        (choose|p: (int, int)| image.is_bottom_right(p.0, p.1)).1 == top + dim * m - 1,
        left + k * m + m - 1 <= (choose|p: (int, int)| image.is_bottom_right(p.0, p.1)).0 < left
            + dim * m,
{
    let row = modules[dim - 1];
    let r = last_black(row, dim);
    lemma_last_black(row, dim, k);
    let bottom = top + dim * m - 1;
    let right = left + r * m + m - 1;
    lemma_magnified_cell(image, modules, dim, left, top, m, r, dim - 1, m - 1, m - 1);
    assert((dim - 1) * m + (m - 1) == dim * m - 1) by (nonlinear_arith);
    assert(image.cell(right, bottom));
    assert(k * m <= r * m) by (nonlinear_arith)
        requires
            k <= r,
            m >= 1,
    ;
    assert forall|x2: int, y2: int| #[trigger] image.cell(x2, y2) implies y2 < bottom || (y2
        == bottom && x2 <= right) by {
        if y2 == bottom && x2 > right {
            lemma_module_of_cell(dim, left, m, x2);
            lemma_module_of_cell(dim, top, m, y2);
            let ix = (x2 - left) / m;
            let iy = (y2 - top) / m;
            lemma_run_of(m, dim - 1, y2 - top);
            assert(iy == dim - 1);
            assert(row[ix] == 1);
            if ix <= r {
                assert(ix * m + m <= r * m + m) by (nonlinear_arith)
                    requires
                        ix <= r,
                        m >= 1,
                ;
            }
        }
    }
    let here = (right, bottom);
    assert(image.is_bottom_right(here.0, here.1));
    let last = choose|p: (int, int)| image.is_bottom_right(p.0, p.1);
    lemma_one_bottom_right(image, last, here);
    assert(r * m + m <= dim * m) by (nonlinear_arith)
        requires
            r + 1 <= dim,
            m >= 1,
    ;
}

/// Whether the modules have the upper left and the lower left position detection pattern
/// where the reader looks for them: the diagonal of the first, the white module behind
/// it, and the last row of the second.
pub open spec fn has_finders(modules: Seq<Seq<i8>>, dim: int) -> bool {
    &&& 21 <= dim <= 177
    &&& forall|d: int| 0 <= d < 7 ==> (#[trigger] modules[d])[d] == finder_value(d, d)
    &&& modules[7][7] == 0
    &&& forall|x: int| 0 <= x < 7 ==> #[trigger] modules[dim - 1][x] == 1
}

/// The colour before cell `t` of the diagonal of a position detection pattern whose
/// modules are `m` cells wide, and the number of changes of colour before it.
pub open spec fn walk_state(m: int, t: int) -> (bool, int) {
    if t <= m {
        (true, 0)
    } else if t <= 2 * m {
        (false, 1)
    } else if t <= 5 * m {
        (true, 2)
    } else if t <= 6 * m {
        (false, 3)
    } else {
        (true, 4)
    }
}

/// The walk down the diagonal of the upper left position detection pattern meets its
/// fifth change of colour behind the pattern, seven modules from its start.
pub proof fn lemma_walk(
    image: BitMatrix,
    modules: Seq<Seq<i8>>,
    dim: int,
    left: int,
    top: int,
    m: int,
    t: int,
)
    requires
        magnified(image, modules, dim, left, top, m),
        has_finders(modules, dim),
        0 <= t <= 7 * m,
    ensures
        fifth_transition(image, left + t, top + t, walk_state(m, t).0, walk_state(m, t).1)
            == Some(left + 7 * m),
    decreases 7 * m - t,
{
    let d = t / m;
    lemma_run_of(m, d, t);
    lemma_run_order(m, d, t, 0);
    lemma_run_order(m, d, t, 1);
    lemma_run_order(m, d, t, 2);
    lemma_run_order(m, d, t, 5);
    lemma_run_order(m, d, t, 6);
    lemma_run_order(m, d, t, 7);
    lemma_run_order(m, d, t, 8);
    assert(0 <= d <= 7);
    lemma_magnified_cell(image, modules, dim, left, top, m, d, d, t - d * m, t - d * m);
    assert(image.cell(left + t, top + t) == (modules[d][d] == 1));
    assert(0 <= left + t < image.spec_width() && 0 <= top + t < image.spec_height());
    if t < 7 * m {
        assert(d < 7);
        assert(modules[d][d] == finder_value(d, d));
        lemma_walk(image, modules, dim, left, top, m, t + 1);
    } else {
        assert(d == 7);
    }
}

/// Where the reader finds the modules of a magnified symbol: it finds as many modules
/// as the symbol has along a side, and takes its samples from the middle of each.
pub proof fn lemma_modules_are_found(
    image: BitMatrix,
    modules: Seq<Seq<i8>>,
    dim: int,
    left: int,
    top: int,
    m: int,
)
    requires
        magnified(image, modules, dim, left, top, m),
        has_finders(modules, dim),
    ensures
        pure_layout(image) == Some(
            PureLayout { left: left + m / 2, top: top + m / 2, size: dim, sevenths: 7 * m },
        ),
        forall|k: int|
            0 <= k < dim ==> #[trigger] sample_place(left + m / 2, k, 7 * m) == left + k * m + m
                / 2,
        forall|k: int|
            0 <= k < dim ==> #[trigger] sample_place(top + m / 2, k, 7 * m) == top + k * m + m / 2,
        0 <= m / 2 < m,
{
    assert(modules[0][0] == finder_value(0, 0));
    assert(modules[dim - 1][6] == 1);
    lemma_first_black_cell(image, modules, dim, left, top, m);
    lemma_last_black_cell(image, modules, dim, left, top, m, 6);
    lemma_walk(image, modules, dim, left, top, m, 0);
    let last = choose|p: (int, int)| image.is_bottom_right(p.0, p.1);
    let bottom = top + dim * m - 1;
    let sevenths = 7 * m;
    let nudge = sevenths / 14;
    assert(dim * m >= 21 * m) by (nonlinear_arith)
        requires
            dim >= 21,
            m >= 1,
    ;
    // The side of a module, halved.
    let half = m / 2;
    lemma_fundamental_div_mod(m, 2);
    lemma_run_of(14, half, 7 * m);
    assert(nudge == half);
    // The number of modules along a side.
    let span = dim * m;
    assert((2 * (7 * span) + sevenths) == dim * (2 * sevenths) + sevenths) by (nonlinear_arith)
        requires
            span == dim * m,
            sevenths == 7 * m,
    ;
    lemma_run_of(2 * sevenths, dim, 2 * (7 * span) + sevenths);
    assert(rounded_quotient(7 * span, sevenths) == dim);
    // The places of the samples.
    assert forall|k: int| 0 <= k < dim implies #[trigger] sample_place(left + half, k, sevenths)
        == left + k * m + half by {
        assert(k * sevenths == (k * m) * 7) by (nonlinear_arith)
            requires
                sevenths == 7 * m,
        ;
        lemma_run_of(7, k * m, k * sevenths);
    }
    assert forall|k: int| 0 <= k < dim implies #[trigger] sample_place(top + half, k, sevenths)
        == top + k * m + half by {
        assert(k * sevenths == (k * m) * 7) by (nonlinear_arith)
            requires
                sevenths == 7 * m,
        ;
        lemma_run_of(7, k * m, k * sevenths);
    }
    assert((dim - 1) * m == dim * m - m) by (nonlinear_arith);
    let right = left + (bottom - top);
    assert(right - left + 1 == span && bottom - top + 1 == span);
    assert(sample_place(left + nudge, dim - 1, sevenths) - right == half - m + 1);
    assert(sample_place(top + nudge, dim - 1, sevenths) - bottom == half - m + 1);
    assert(BitMatrix::fits(dim, dim)) by {
        let words = (dim + 31) / 32;
        assert(words * dim <= 6 * 177) by (nonlinear_arith)
            requires
                0 <= words <= 6,
                0 <= dim <= 177,
        ;
    }
    assert(left < last.0 && top < last.1 && sevenths > 0);
    assert(right < image.spec_width());
    assert(rounded_quotient(7 * (right - left + 1), sevenths) == dim);
    assert(rounded_quotient(7 * (bottom - top + 1), sevenths) == dim);
    assert(0 <= half && half - m + 1 <= 0);
    assert(layout_within(image.spec_width(), left, top, last.0, last.1, sevenths) == Some(
        PureLayout { left: left + half, top: top + half, size: dim, sevenths },
    ));
}

/// What is sampled from a magnified symbol shows the symbol.
pub proof fn lemma_samples_show_modules(
    image: BitMatrix,
    modules: Seq<Seq<i8>>,
    dim: int,
    left: int,
    top: int,
    m: int,
    bits: BitMatrix,
)
    requires
        magnified(image, modules, dim, left, top, m),
        has_finders(modules, dim),
        QRCodeReader::samples(bits, image, pure_layout(image)->Some_0),
    ensures
        pure_layout(image) is Some,
        shows_modules(bits, modules, dim),
{
    lemma_modules_are_found(image, modules, dim, left, top, m);
    assert forall|x: int, y: int| 0 <= x < dim && 0 <= y < dim implies #[trigger] bits.cell(x, y)
        == (modules[y][x] == 1) by {
        lemma_magnified_cell(image, modules, dim, left, top, m, x, y, m / 2, m / 2);
        assert(sample_place(left + m / 2, x, 7 * m) == left + x * m + m / 2);
        assert(sample_place(top + m / 2, y, 7 * m) == top + y * m + m / 2);
    }
}

/// The centers of the standard lie apart: each is the first, at 6, or at least 18, and
/// each is the last, beside the far position detection patterns, or at least ten
/// modules before the edge.
pub proof fn lemma_centers_lie_apart(number: int)
    requires
        1 <= number <= 40,
    ensures
        forall|i: int|
            0 <= i < standard_centers(number).len() ==> {
                let c = #[trigger] standard_centers(number)[i];
                (c == 6 || c >= 18) && (c == 4 * number + 10 || c <= 4 * number + 7) && c < 4
                    * number + 17
            },
{
}

/// The upper left and the lower left position detection pattern stand in the symbol as
/// they are laid: nothing that is laid later takes a cell of the upper left square of
/// eight by eight modules, or of the seven columns below the last separator.
pub proof fn lemma_finder_cell_stays(
    number: int,
    level_bits: u32,
    mask_pattern: int,
    bits: Seq<bool>,
    x: int,
    y: int,
)
    requires
        1 <= number <= 40,
        (0 <= x <= 7 && 0 <= y <= 7) || (0 <= x <= 6 && 4 * number + 10 <= y < 4 * number + 17),
    ensures
        symbol_modules(number, standard_centers(number), level_bits, mask_pattern, bits)[y][x]
            == finders_and_separators(blank((4 * number + 17) as nat), 4 * number + 17)[y][x],
        finders_and_separators(blank((4 * number + 17) as nat), 4 * number + 17)[y][x] == if x
            == 7 || y == 7 {
            0i8
        } else if y < 7 {
            finder_value(x, y)
        } else {
            finder_value(x, y - (4 * number + 10))
        },
{
    let dim = 4 * number + 17;
    let centers = standard_centers(number);
    let n = centers.len() as int;
    let gf = finders_and_separators(blank(dim as nat), dim);
    let gd = dark_dot(gf, dim);
    assert(square(gd, dim));
    assert(gd[y][x] == gf[y][x]);
    assert(gf[y][x] != -1);
    lemma_centers_lie_apart(number);
    let ga = aligned(gd, number, centers);
    lemma_align_rows_keeps(gd, centers, centers.len(), dim, x, y);
    assert(rows_clear(gd, centers, n, x, y)) by {
        assert forall|j: int| 0 <= j < n implies row_clear(
            gd,
            centers,
            (#[trigger] centers[j]) as int,
            n,
            x,
            y,
        ) by {
            let cy = centers[j] as int;
            assert forall|i: int|
                0 <= i < n && (#[trigger] centers[i]) - 2 <= x <= centers[i] + 2 && cy - 2 <= y
                    <= cy + 2 implies gd[cy][centers[i] as int] != -1 by {
                let cx = centers[i] as int;
                assert(cx == 6);
                assert(cy == 6 || cy == dim - 7);
                assert(gd[6][6] != -1);
                assert(gd[dim - 7][6] != -1);
            }
        }
    }
    assert(ga[y][x] == gd[y][x]);
    assert(square(ga, dim));
    let gb = overlay(ga, timing_at(ga, dim));
    assert(gb[y][x] == ga[y][x]);
    assert(gb == basic_patterns(number, centers));
    assert(square(gb, dim));
    let kind = type_info_at(type_info_bits(level_bits, mask_pattern), dim, 15);
    assert forall|i: int| 0 <= i < 15 implies !TypePlace::holds(i, dim, x, y) by {}
    let gt = overlay(gb, kind);
    assert(gt[y][x] == gb[y][x]);
    assert(square(gt, dim));
    let g = function_patterns(number, centers, level_bits, mask_pattern);
    assert(g[y][x] == gt[y][x]);
    lemma_patterns_square(number, centers, level_bits, mask_pattern);
    let data = data_at(g, bits, mask_pattern, dim);
    assert(data(x, y) is None);
}

/// A symbol of the standard has its position detection patterns where the reader looks
/// for them.
pub proof fn lemma_symbol_has_finders(number: int, level_bits: u32, mask_pattern: int, bits: Seq<bool>)
    requires
        1 <= number <= 40,
    ensures
        has_finders(
            symbol_modules(number, standard_centers(number), level_bits, mask_pattern, bits),
            4 * number + 17,
        ),
{
    let dim = 4 * number + 17;
    let s = symbol_modules(number, standard_centers(number), level_bits, mask_pattern, bits);
    assert forall|d: int| 0 <= d < 7 implies (#[trigger] s[d])[d] == finder_value(d, d) by {
        lemma_finder_cell_stays(number, level_bits, mask_pattern, bits, d, d);
    }
    lemma_finder_cell_stays(number, level_bits, mask_pattern, bits, 7, 7);
    assert forall|x: int| 0 <= x < 7 implies #[trigger] s[dim - 1][x] == 1 by {
        lemma_finder_cell_stays(number, level_bits, mask_pattern, bits, x, dim - 1);
    }
}

/// What is written is read: where the writer gives an image for a text of characters up
/// to U+007F, under no hint for the character set and not in the GS1 format, the reader
/// finds the symbol in a matrix with the cells of this image and gives the text.
pub proof fn lemma_written_text_is_read(
    writer: QRCodeWriter,
    reader: QRCodeReader,
    contents: &str,
    width: usize,
    height: usize,
    hints: EncodeHints,
    image: BitMatrix,
    seen: BitMatrix,
    read: Result<DecoderResult, Error>,
)
    requires
        writer.spec_encoder().wf(),
        reader.spec_decoder().spec_versions().wf(),
        !hints.gs1_format,
        hints.character_set is None,
        chars_up_to(contents@, 0x7F),
        writer.writes(contents, BarcodeFormat::QRCode, width, height, hints, Ok(image)),
        same_cells(seen, image),
        reader.reads(seen, None, read),
    ensures
        read matches Ok(result) && result.spec_text() == contents@,
{
    let encoder = writer.spec_encoder();
    let decoder = reader.spec_decoder();
    let level = QRCodeWriter::spec_level(hints);
    let written: Result<BitMatrix, Error> = Ok(image);
    assert(written is Ok);
    assert(contents@.len() > 0 && width > 0 && height > 0);
    let s = encoder.spec_encode(contents, level, hints)->Some_0;
    let dim = 4 * s.number + 17;
    let quiet_zone = QRCodeWriter::spec_quiet_zone(hints);
    assert(QRCodeWriter::renders(image, s.modules, dim, dim, width as int, height as int, quiet_zone));
    encoder.lemma_symbol_is_laid(contents, level, hints);
    let laid = choose|laid: Seq<bool>|
        s.modules == #[trigger] symbol_modules(
            s.number,
            standard_centers(s.number),
            level.spec_bits(),
            s.mask,
            laid,
        );
    lemma_symbol_has_finders(s.number, level.spec_bits(), s.mask, laid);
    lemma_rendered_is_magnified(image, s.modules, dim, width as int, height as int, quiet_zone);
    let layout = layout_of(dim, dim, width as int, height as int, quiet_zone);
    assert(magnified(seen, s.modules, dim, layout.left, layout.top, layout.multiple)) by {
        assert forall|x: int, y: int|
            #![trigger seen.cell(x, y)]
            seen.cell(x, y) == (layout.left <= x < layout.left + dim * layout.multiple
                && layout.top <= y < layout.top + dim * layout.multiple && s.modules[(y
                - layout.top) / layout.multiple][(x - layout.left) / layout.multiple] == 1) by {
            assert(seen.cell(x, y) == image.cell(x, y));
        }
    }
    lemma_modules_are_found(seen, s.modules, dim, layout.left, layout.top, layout.multiple);
    let found = pure_layout(seen)->Some_0;
    let bits = choose|bits: BitMatrix|
        QRCodeReader::samples(bits, seen, found) && #[trigger] decoder.gives(bits, None, read);
    lemma_samples_show_modules(
        seen,
        s.modules,
        dim,
        layout.left,
        layout.top,
        layout.multiple,
        bits,
    );
    lemma_encoded_text_is_decoded(encoder, decoder, contents, level, hints, bits);
}

/// What is written is read from its image in black and white: where the binarizer of an
/// image gives nothing but matrices with the cells of what the writer gave for a text of
/// characters up to U+007F, the reader gives the text.
pub proof fn lemma_written_text_is_read_from_image<B: Binarizer<S>, S: LuminanceSource>(
    writer: QRCodeWriter,
    reader: QRCodeReader,
    contents: &str,
    width: usize,
    height: usize,
    hints: EncodeHints,
    image: BitMatrix,
    binarizer: B,
    read: Result<DecoderResult, Error>,
)
    requires
        writer.spec_encoder().wf(),
        reader.spec_decoder().spec_versions().wf(),
        !hints.gs1_format,
        hints.character_set is None,
        chars_up_to(contents@, 0x7F),
        writer.writes(contents, BarcodeFormat::QRCode, width, height, hints, Ok(image)),
        forall|given: Result<BitMatrix, Error>| #[trigger]
            binarizer.makes_matrix(given) ==> given is Ok && same_cells(given->Ok_0, image),
        reader.reads_image(binarizer, None, read),
    ensures
        read matches Ok(result) && result.spec_text() == contents@,
{
    let given = choose|given: Result<BitMatrix, Error>| #[trigger]
        binarizer.makes_matrix(given) && match given {
            Ok(matrix) => matrix.wf() && reader.reads(matrix, None, read),
            Err(e) => fails_with(read, e),
        };
    lemma_written_text_is_read(
        writer,
        reader,
        contents,
        width,
        height,
        hints,
        image,
        given->Ok_0,
        read,
    );
}

/// What is written is read from its grey levels: where the writer gives an image of at
/// least 40 cells along both sides for a text of characters up to U+007F, and the grey
/// levels of this image are turned into black and white block by block, the reader
/// finds the symbol in what comes of it and gives the text.
pub proof fn lemma_written_text_is_read_from_grey_levels<S>(
    writer: QRCodeWriter,
    reader: QRCodeReader,
    contents: &str,
    width: usize,
    height: usize,
    hints: EncodeHints,
    image: BitMatrix,
    luminances: Seq<u8>,
    image_width: usize,
    image_height: usize,
    turned: Result<BitMatrix, Error>,
    read: Result<DecoderResult, Error>,
)
    requires
        writer.spec_encoder().wf(),
        reader.spec_decoder().spec_versions().wf(),
        !hints.gs1_format,
        hints.character_set is None,
        chars_up_to(contents@, 0x7F),
        writer.writes(contents, BarcodeFormat::QRCode, width, height, hints, Ok(image)),
        image.wf(),
        image.spec_width() == image_width,
        image.spec_height() == image_height,
        image_width >= MINIMUM_DIMENSION,
        image_height >= MINIMUM_DIMENSION,
        image_width * image_height <= MAX_IMAGE_PIXELS,
        grey_levels_of(luminances, image),
        HybridBinarizer::<S>::matrix_made(luminances, image_width, image_height, turned),
        turned matches Ok(seen) ==> reader.reads(seen, None, read),
    ensures
        turned is Ok,
        read matches Ok(result) && result.spec_text() == contents@,
{
    HybridBinarizer::<S>::lemma_black_and_white_comes_back(
        luminances,
        image,
        image_width,
        image_height,
        turned,
    );
    lemma_written_text_is_read(
        writer,
        reader,
        contents,
        width,
        height,
        hints,
        image,
        turned->Ok_0,
        read,
    );
}

} // verus!
