use crate::qrcode::encoder::byte_matrix::ByteMatrix;
use vstd::arithmetic::div_mod::{lemma_add_mod_noop, lemma_mul_mod_noop};
use vstd::prelude::*;

verus! {

/// The eight masks of a symbol and the four penalty rules by which one of them is chosen.
pub struct MaskUtil;

/// The length of the run of equal cells that ends with the `j`-th cell of `line`.
pub open spec fn run_len(line: Seq<i8>, j: nat) -> nat
    decreases j,
{
    if j == 0 {
        0
    } else if j == 1 {
        1
    } else if line[j - 1] == line[j - 2] {
        run_len(line, (j - 1) as nat) + 1
    } else {
        1
    }
}

/// The penalty of a run of `n` equal cells: none below five cells, three for five, and one
/// more for each further cell.
pub open spec fn run_penalty(n: nat) -> nat {
    if n >= 5 {
        (n - 2) as nat
    } else {
        0
    }
}

/// The penalties of the runs that have ended within the first `j` cells of `line`.
pub open spec fn ended_runs_penalty(line: Seq<i8>, j: nat) -> nat
    decreases j,
{
    if j <= 1 {
        0
    } else {
        ended_runs_penalty(line, (j - 1) as nat) + if line[j - 1] != line[j - 2] {
            run_penalty(run_len(line, (j - 1) as nat))
        } else {
            0
        }
    }
}

/// The penalty of the runs of one line.
pub open spec fn line_penalty(line: Seq<i8>) -> nat {
    ended_runs_penalty(line, line.len()) + run_penalty(run_len(line, line.len()))
}

/// Column `x` of the rows `m`, top to bottom.
pub open spec fn column(m: Seq<Seq<i8>>, x: int) -> Seq<i8> {
    Seq::new(m.len(), |y: int| m[y][x])
}

/// The penalties of the runs in the first `n` rows.
pub open spec fn rows_penalty(m: Seq<Seq<i8>>, n: nat) -> nat
    decreases n,
{
    if n == 0 {
        0
    } else {
        rows_penalty(m, (n - 1) as nat) + line_penalty(m[n - 1])
    }
}

/// The penalties of the runs in the first `n` columns.
pub open spec fn columns_penalty(m: Seq<Seq<i8>>, n: nat) -> nat
    decreases n,
{
    if n == 0 {
        0
    } else {
        columns_penalty(m, (n - 1) as nat) + line_penalty(column(m, n - 1))
    }
}

/// All rows of `m` have `w` cells, and there are `h` of them.
pub open spec fn rectangular(m: Seq<Seq<i8>>, w: int, h: int) -> bool {
    &&& m.len() == h
    &&& forall|y: int| 0 <= y < h ==> (#[trigger] m[y]).len() == w
}

/// The first penalty: runs of five and more equal cells, along the rows and along the
/// columns.
pub open spec fn rule1_penalty(m: Seq<Seq<i8>>, w: nat) -> nat {
    rows_penalty(m, m.len()) + columns_penalty(m, w)
}

/// Whether the four cells whose top left one is `(x, y)` are equal.
pub open spec fn uniform_block(m: Seq<Seq<i8>>, x: int, y: int) -> bool {
    m[y][x] == m[y][x + 1] && m[y][x] == m[y + 1][x] && m[y][x] == m[y + 1][x + 1]
}

/// The number of `x` below `n` for which `f` holds.
pub open spec fn count_below(f: spec_fn(int) -> bool, n: nat) -> nat
    decreases n,
{
    if n == 0 {
        0
    } else {
        count_below(f, (n - 1) as nat) + if f(n - 1) {
            1nat
        } else {
            0nat
        }
    }
}

/// The sum of `f(y)` for `y` below `n`.
pub open spec fn sum_below(f: spec_fn(int) -> nat, n: nat) -> nat
    decreases n,
{
    if n == 0 {
        0
    } else {
        sum_below(f, (n - 1) as nat) + f(n - 1)
    }
}

/// One less than `n`, and zero for zero.
pub open spec fn before(n: nat) -> nat {
    if n == 0 {
        0
    } else {
        (n - 1) as nat
    }
}

/// The number of uniform blocks of four cells in `m`, whose rows have `w` cells.
pub open spec fn uniform_blocks(m: Seq<Seq<i8>>, w: nat) -> nat {
    sum_below(|y: int| count_below(|x: int| uniform_block(m, x, y), before(w)), before(m.len()))
}

/// The second penalty: three for each block of four equal cells.
pub open spec fn rule2_penalty(m: Seq<Seq<i8>>, w: nat) -> nat {
    3 * uniform_blocks(m, w)
}

/// Whether no cell of `row` from `from` up to but without `to` is black, places outside
/// the row not counting.
pub open spec fn white_run(row: Seq<i8>, from: int, to: int) -> bool {
    forall|i: int| from <= i < to && 0 <= i < row.len() ==> #[trigger] row[i] != 1
}

/// Whether the cells of `row` from `x` on show black, white, three black, white, black,
/// with four cells free of black before or behind.
pub open spec fn finder_like(row: Seq<i8>, x: int) -> bool {
    &&& x + 6 < row.len()
    &&& row[x] == 1
    &&& row[x + 1] == 0
    &&& row[x + 2] == 1
    &&& row[x + 3] == 1
    &&& row[x + 4] == 1
    &&& row[x + 5] == 0
    &&& row[x + 6] == 1
    &&& (white_run(row, x - 4, x) || white_run(row, x + 7, x + 11))
}

/// The number of places in the rows of `m` where a finder-like run starts.
pub open spec fn finder_likes(m: Seq<Seq<i8>>, w: nat) -> nat {
    sum_below(|y: int| count_below(|x: int| finder_like(m[y], x), w), m.len())
}

/// The third penalty: forty for each finder-like run.
pub open spec fn rule3_penalty(m: Seq<Seq<i8>>, w: nat) -> nat {
    40 * finder_likes(m, w)
}

/// The number of black cells in `m`.
pub open spec fn dark_cells(m: Seq<Seq<i8>>, w: nat) -> nat {
    sum_below(|y: int| count_below(|x: int| m[y][x] == 1, w), m.len())
}

/// The fourth penalty: ten for each full twentieth by which the share of black cells is
/// away from one half.
pub open spec fn rule4_penalty(m: Seq<Seq<i8>>, w: nat) -> nat {
    let total = (m.len() * w) as int;
    let dark = dark_cells(m, w) as int;
    let away = if 2 * dark >= total {
        2 * dark - total
    } else {
        total - 2 * dark
    };
    (away * 10 / total * 10) as nat
}

/// Whether the mask of the given number turns the cell at column `x` of row `y`.
pub open spec fn data_mask_bit(mask_pattern: int, x: int, y: int) -> bool {
    let intermediate = if mask_pattern == 0 {
        (y + x) % 2
    } else if mask_pattern == 1 {
        y % 2
    } else if mask_pattern == 2 {
        x % 3
    } else if mask_pattern == 3 {
        (y + x) % 3
    } else if mask_pattern == 4 {
        (y / 2 + x / 3) % 2
    } else if mask_pattern == 5 {
        (y * x) % 2 + (y * x) % 3
    } else if mask_pattern == 6 {
        ((y * x) % 2 + (y * x) % 3) % 2
    } else {
        ((y * x) % 3 + (y + x) % 2) % 2
    };
    intermediate == 0
}

/// A count is at most the number of places counted over.
pub proof fn lemma_count_below_bound(f: spec_fn(int) -> bool, n: nat)
    ensures
        count_below(f, n) <= n,
    decreases n,
{
    if n > 0 {
        lemma_count_below_bound(f, (n - 1) as nat);
    }
}

/// The runs of a line are no longer than the line, and cost no more than their cells.
pub proof fn lemma_line_penalty_bound(line: Seq<i8>, j: nat)
    ensures
        run_len(line, j) <= j,
        j >= 1 ==> run_len(line, j) >= 1,
        ended_runs_penalty(line, j) + run_len(line, j) <= j,
    decreases j,
{
    if j > 1 {
        lemma_line_penalty_bound(line, (j - 1) as nat);
    }
}

impl MaskUtil {
    /// The largest width and height of a matrix whose penalties are formed.
    pub const MAX_DIMENSION: usize = 0x1000;

    /// The dimensions of `matrix` are such that its penalties can be formed.
    pub open spec fn measurable(matrix: &ByteMatrix) -> bool {
        &&& matrix.wf()
        &&& matrix.spec_width() <= MaskUtil::MAX_DIMENSION
        &&& matrix.spec_height() <= MaskUtil::MAX_DIMENSION
    }

    /// The first penalty: runs of five and more equal cells, along the rows and along the
    /// columns.
    pub fn apply_mask_penalty_rule1(matrix: &ByteMatrix) -> (penalty: usize)
        requires
            MaskUtil::measurable(matrix),
        ensures
            penalty == rule1_penalty(matrix@, matrix.spec_width() as nat),
            penalty <= 2 * 0x100_0000,
    {
        MaskUtil::apply_mask_penalty_rule1_internal(matrix, true)
            + MaskUtil::apply_mask_penalty_rule1_internal(matrix, false)
    }

    /// The second penalty: three for each block of four equal cells.
    pub fn apply_mask_penalty_rule2(matrix: &ByteMatrix) -> (penalty: usize)
        requires
            MaskUtil::measurable(matrix),
        ensures
            penalty == rule2_penalty(matrix@, matrix.spec_width() as nat),
            penalty <= 3 * 0x100_0000,
    {
        let mut penalty: usize = 0;
        let array = matrix.get_array();
        let width = matrix.get_width();
        let height = matrix.get_height();
        let ghost m = matrix@;
        let ghost rowf = |y: int| count_below(|x: int| uniform_block(m, x, y), before(width as nat));
        let mut y: usize = 0;
        while y + 1 < height
            invariant
                MaskUtil::measurable(matrix),
                m == matrix@,
                rowf == |y: int| count_below(|x: int| uniform_block(m, x, y), before(width as nat)),
                width == matrix.spec_width(),
                height == matrix.spec_height(),
                array@.len() == height,
                forall|r: int| 0 <= r < height ==> (#[trigger] array@[r])@.len() == width,
                forall|c: int, r: int|
                    0 <= r < height && 0 <= c < width ==> array@[r]@[c] == #[trigger] matrix.at(c, r),
                y <= before(height as nat),
                penalty == sum_below(rowf, y as nat),
                penalty <= y * width,
            decreases height - y,
        {
            let ghost cellf = |x: int| uniform_block(m, x, y as int);
            let mut count: usize = 0;
            let mut x: usize = 0;
            while x + 1 < width
                invariant
                    MaskUtil::measurable(matrix),
                    m == matrix@,
                    cellf == |x: int| uniform_block(m, x, y as int),
                    width == matrix.spec_width(),
                    height == matrix.spec_height(),
                    array@.len() == height,
                    forall|r: int| 0 <= r < height ==> (#[trigger] array@[r])@.len() == width,
                    forall|c: int, r: int|
                        0 <= r < height && 0 <= c < width ==> array@[r]@[c] == #[trigger] matrix.at(
                            c,
                            r,
                        ),
                    y + 1 < height,
                    x <= before(width as nat),
                    count == count_below(cellf, x as nat),
                    count <= x,
                decreases width - x,
            {
                let value = array[y][x];
                proof {
                    assert(matrix.at(x as int, y as int) == array@[y as int]@[x as int]);
                    assert(matrix.at(x + 1, y as int) == array@[y as int]@[x + 1]);
                    assert(matrix.at(x as int, y + 1) == array@[y + 1]@[x as int]);
                    assert(matrix.at(x + 1, y + 1) == array@[y + 1]@[x + 1]);
                }
                if value == array[y][x + 1] && value == array[y + 1][x] && value == array[y + 1][x
                    + 1] {
                    count += 1;
                }
                x += 1;
            }
            proof {
                assert(rowf(y as int) == count_below(cellf, before(width as nat)));
                assert((y + 1) * width == y * width + width) by (nonlinear_arith);
            }
            assert(y * width <= 0x1000 * 0x1000) by (nonlinear_arith)
                requires
                    y <= 0x1000,
                    width <= 0x1000,
            ;
            penalty += count;
            y += 1;
        }
        assert(penalty <= 0x1000 * 0x1000) by (nonlinear_arith)
            requires
                penalty <= y * width,
                y <= 0x1000,
                width <= 0x1000,
        ;
        3 * penalty
    }

    /// The third penalty: forty for each place where a row shows black, white, three
    /// black, white, black with four cells free of black before or behind.
    pub fn apply_mask_penalty_rule3(matrix: &ByteMatrix) -> (penalty: usize)
        requires
            MaskUtil::measurable(matrix),
        ensures
            penalty == rule3_penalty(matrix@, matrix.spec_width() as nat),
            penalty <= 40 * 0x100_0000,
    {
        let mut num_penalties: usize = 0;
        let array = matrix.get_array();
        let width = matrix.get_width();
        let height = matrix.get_height();
        let ghost m = matrix@;
        let ghost rowf = |y: int| count_below(|x: int| finder_like(m[y], x), width as nat);
        let mut y: usize = 0;
        while y < height
            invariant
                MaskUtil::measurable(matrix),
                m == matrix@,
                rowf == |y: int| count_below(|x: int| finder_like(m[y], x), width as nat),
                width == matrix.spec_width(),
                height == matrix.spec_height(),
                array@.len() == height,
                forall|r: int| 0 <= r < height ==> (#[trigger] array@[r])@.len() == width,
                forall|c: int, r: int|
                    0 <= r < height && 0 <= c < width ==> array@[r]@[c] == #[trigger] matrix.at(c, r),
                y <= height,
                num_penalties == sum_below(rowf, y as nat),
                num_penalties <= y * width,
            decreases height - y,
        {
            let array_y = &array[y];
            let ghost row = m[y as int];
            let ghost cellf = |x: int| finder_like(row, x);
            proof {
                assert(array_y@ =~= row) by {
                    assert forall|c: int| 0 <= c < width implies array_y@[c] == row[c] by {
                        assert(array@[y as int]@[c] == matrix.at(c, y as int));
                    }
                }
            }
            let mut count: usize = 0;
            let mut x: usize = 0;
            while x < width
                invariant
                    row == array_y@,
                    cellf == |x: int| finder_like(row, x),
                    array_y@.len() == width,
                    width <= MaskUtil::MAX_DIMENSION,
                    x <= width,
                    count == count_below(cellf, x as nat),
                    count <= x,
                decreases width - x,
            {
                if x + 6 < width && array_y[x] == 1 && array_y[x + 1] == 0 && array_y[x + 2] == 1
                    && array_y[x + 3] == 1 && array_y[x + 4] == 1 && array_y[x + 5] == 0
                    && array_y[x + 6] == 1 && (MaskUtil::is_white_horizontal(
                    array_y,
                    x as isize - 4,
                    x as isize,
                ) || MaskUtil::is_white_horizontal(array_y, x as isize + 7, x as isize + 11)) {
                    count += 1;
                }
                x += 1;
            }
            proof {
                assert(rowf(y as int) == count_below(|x: int| finder_like(m[y as int], x), width as nat));
                assert((|x: int| finder_like(m[y as int], x)) =~= cellf);
                assert((y + 1) * width == y * width + width) by (nonlinear_arith);
            }
            assert(y * width <= 0x1000 * 0x1000) by (nonlinear_arith)
                requires
                    y <= 0x1000,
                    width <= 0x1000,
            ;
            num_penalties += count;
            y += 1;
        }
        assert(num_penalties <= 0x1000 * 0x1000) by (nonlinear_arith)
            requires
                num_penalties <= y * width,
                y <= 0x1000,
                width <= 0x1000,
        ;
        num_penalties * 40
    }

    /// Whether no cell of the row from `from` up to but without `to` is black; places
    /// outside the row do not count.
    pub fn is_white_horizontal(row_array: &Vec<i8>, from: isize, to: isize) -> (b: bool)
        requires
            row_array@.len() <= MaskUtil::MAX_DIMENSION,
        ensures
            b == white_run(row_array@, from as int, to as int),
    {
        let len = row_array.len();
        let lo: usize = if from < 0 {
            0
        } else {
            from as usize
        };
        let hi: usize = if to < 0 {
            0
        } else if to as usize > len {
            len
        } else {
            to as usize
        };
        let mut i: usize = lo;
        while i < hi
            invariant
                hi <= row_array@.len(),
                lo <= i,
                from <= lo,
                hi <= to || hi == 0,
                forall|k: int| lo <= k < i ==> #[trigger] row_array@[k] != 1,
            decreases hi - i,
        {
            if row_array[i] == 1 {
                assert(from <= i < to && row_array@[i as int] == 1);
                return false;
            }
            i += 1;
        }
        true
    }

    /// Whether no cell of column `col` from row `from` up to but without row `to` is
    /// black; rows outside the matrix do not count.
    pub fn is_white_vertical(array: &Vec<Vec<i8>>, col: usize, from: isize, to: isize) -> (b: bool)
        requires
            array@.len() <= MaskUtil::MAX_DIMENSION,
            forall|r: int| 0 <= r < array@.len() ==> col < (#[trigger] array@[r])@.len(),
        ensures
            b == (forall|i: int|
                from <= i < to && 0 <= i < array@.len() ==> (#[trigger] array@[i])@[col as int] != 1),
    {
        let len = array.len();
        let lo: usize = if from < 0 {
            0
        } else {
            from as usize
        };
        let hi: usize = if to < 0 {
            0
        } else if to as usize > len {
            len
        } else {
            to as usize
        };
        let mut i: usize = lo;
        while i < hi
            invariant
                hi <= array@.len(),
                lo <= i,
                from <= lo,
                hi <= to || hi == 0,
                forall|r: int| 0 <= r < array@.len() ==> col < (#[trigger] array@[r])@.len(),
                forall|k: int| lo <= k < i ==> (#[trigger] array@[k])@[col as int] != 1,
            decreases hi - i,
        {
            if array[i][col] == 1 {
                assert(from <= i < to && array@[i as int]@[col as int] == 1);
                return false;
            }
            i += 1;
        }
        true
    }

    /// The fourth penalty: ten for each full twentieth by which the share of black cells
    /// is away from one half. The matrix has cells.
    pub fn apply_mask_penalty_rule4(matrix: &ByteMatrix) -> (penalty: usize)
        requires
            MaskUtil::measurable(matrix),
            matrix.spec_width() >= 1,
            matrix.spec_height() >= 1,
        ensures
            penalty == rule4_penalty(matrix@, matrix.spec_width() as nat),
            penalty <= 10 * 0x1000_0000,
    {
        let mut num_dark_cells: usize = 0;
        let array = matrix.get_array();
        let width = matrix.get_width();
        let height = matrix.get_height();
        let ghost m = matrix@;
        let ghost rowf = |y: int| count_below(|x: int| m[y][x] == 1, width as nat);
        let mut y: usize = 0;
        while y < height
            invariant
                MaskUtil::measurable(matrix),
                m == matrix@,
                rowf == |y: int| count_below(|x: int| m[y][x] == 1, width as nat),
                width == matrix.spec_width(),
                height == matrix.spec_height(),
                array@.len() == height,
                forall|r: int| 0 <= r < height ==> (#[trigger] array@[r])@.len() == width,
                forall|c: int, r: int|
                    0 <= r < height && 0 <= c < width ==> array@[r]@[c] == #[trigger] matrix.at(c, r),
                y <= height,
                num_dark_cells == sum_below(rowf, y as nat),
                num_dark_cells <= y * width,
            decreases height - y,
        {
            let array_y = &array[y];
            let ghost cellf = |x: int| m[y as int][x] == 1;
            let mut count: usize = 0;
            let mut x: usize = 0;
            while x < width
                invariant
                    MaskUtil::measurable(matrix),
                    m == matrix@,
                    cellf == |x: int| m[y as int][x] == 1,
                    width == matrix.spec_width(),
                    height == matrix.spec_height(),
                    y < height,
                    array_y@ == array@[y as int]@,
                    array_y@.len() == width,
                    forall|c: int| 0 <= c < width ==> array_y@[c] == #[trigger] matrix.at(c, y as int),
                    x <= width,
                    count == count_below(cellf, x as nat),
                    count <= x,
                decreases width - x,
            {
                proof {
                    assert(array_y@[x as int] == matrix.at(x as int, y as int));
                }
                if array_y[x] == 1 {
                    count += 1;
                }
                x += 1;
            }
            proof {
                assert(rowf(y as int) == count_below(cellf, width as nat));
                assert((y + 1) * width == y * width + width) by (nonlinear_arith);
            }
            assert(y * width <= 0x1000 * 0x1000) by (nonlinear_arith)
                requires
                    y <= 0x1000,
                    width <= 0x1000,
            ;
            num_dark_cells += count;
            y += 1;
        }
        assert(height * width <= 0x1000 * 0x1000 && num_dark_cells <= height * width && height
            * width >= 1) by (nonlinear_arith)
            requires
                num_dark_cells <= y * width,
                y == height,
                1 <= height <= 0x1000,
                1 <= width <= 0x1000,
        ;
        let num_total_cells: usize = height * width;
        let away: usize = if 2 * num_dark_cells >= num_total_cells {
            2 * num_dark_cells - num_total_cells
        } else {
            num_total_cells - 2 * num_dark_cells
        };
        let five_percent_variances: usize = away * 10 / num_total_cells;
        assert(away * 10 / (num_total_cells as int) <= away * 10) by (nonlinear_arith)
            requires
                num_total_cells >= 1,
                away >= 0,
        ;
        five_percent_variances * 10
    }

    /// Whether the mask of the given number, one of 0 to 7, turns the cell at column `x`
    /// of row `y`.
    pub fn get_data_mask_bit(mask_pattern: i32, x: usize, y: usize) -> (b: bool)
        requires
            0 <= mask_pattern <= 7,
        ensures
            b == data_mask_bit(mask_pattern as int, x as int, y as int),
    {
        let x2: usize = x % 2;
        let y2: usize = y % 2;
        let x3: usize = x % 3;
        let y3: usize = y % 3;
        proof {
            lemma_add_mod_noop(y as int, x as int, 2);
            lemma_add_mod_noop(y as int, x as int, 3);
            lemma_mul_mod_noop(y as int, x as int, 2);
            lemma_mul_mod_noop(y as int, x as int, 3);
            lemma_add_mod_noop((y / 2) as int, (x / 3) as int, 2);
        }
        assert(y2 * x2 <= 1 && y3 * x3 <= 4) by (nonlinear_arith)
            requires
                y2 <= 1,
                x2 <= 1,
                y3 <= 2,
                x3 <= 2,
        ;
        let sum2: usize = (y2 + x2) % 2;
        let prod2: usize = (y2 * x2) % 2;
        let prod3: usize = (y3 * x3) % 3;
        let intermediate: usize = if mask_pattern == 0 {
            sum2
        } else if mask_pattern == 1 {
            y2
        } else if mask_pattern == 2 {
            x3
        } else if mask_pattern == 3 {
            (y3 + x3) % 3
        } else if mask_pattern == 4 {
            ((y / 2) % 2 + (x / 3) % 2) % 2
        } else if mask_pattern == 5 {
            prod2 + prod3
        } else if mask_pattern == 6 {
            (prod2 + prod3) % 2
        } else {
            (prod3 + sum2) % 2
        };
        intermediate == 0
    }

    /// The penalty of the runs of five and more equal cells along the rows, or along the
    /// columns.
    fn apply_mask_penalty_rule1_internal(matrix: &ByteMatrix, is_horizontal: bool) -> (penalty: usize)
        requires
            MaskUtil::measurable(matrix),
        ensures
            is_horizontal ==> penalty == rows_penalty(matrix@, matrix.spec_height() as nat),
            !is_horizontal ==> penalty == columns_penalty(matrix@, matrix.spec_width() as nat),
            penalty <= MaskUtil::MAX_DIMENSION * MaskUtil::MAX_DIMENSION,
    {
        let mut penalty: usize = 0;
        let i_limit: usize = if is_horizontal {
            matrix.get_height()
        } else {
            matrix.get_width()
        };
        let j_limit: usize = if is_horizontal {
            matrix.get_width()
        } else {
            matrix.get_height()
        };
        let ghost m = matrix@;
        let mut i: usize = 0;
        while i < i_limit
            invariant
                MaskUtil::measurable(matrix),
                m == matrix@,
                is_horizontal ==> i_limit == matrix.spec_height() && j_limit == matrix.spec_width(),
                !is_horizontal ==> i_limit == matrix.spec_width() && j_limit == matrix.spec_height(),
                i <= i_limit,
                is_horizontal ==> penalty == rows_penalty(m, i as nat),
                !is_horizontal ==> penalty == columns_penalty(m, i as nat),
                penalty <= i * j_limit,
            decreases i_limit - i,
        {
            let ghost line = if is_horizontal {
                m[i as int]
            } else {
                column(m, i as int)
            };
            let mut line_total: usize = 0;
            let mut num_same_bit_cells: usize = 0;
            let mut prev_bit: i8 = -1;
            let mut j: usize = 0;
            while j < j_limit
                invariant
                    MaskUtil::measurable(matrix),
                    m == matrix@,
                    is_horizontal ==> i_limit == matrix.spec_height() && j_limit
                        == matrix.spec_width(),
                    !is_horizontal ==> i_limit == matrix.spec_width() && j_limit
                        == matrix.spec_height(),
                    i < i_limit,
                    j <= j_limit,
                    line.len() == j_limit,
                    forall|k: int|
                        0 <= k < j_limit ==> #[trigger] line[k] == if is_horizontal {
                            matrix.at(k, i as int)
                        } else {
                            matrix.at(i as int, k)
                        },
                    num_same_bit_cells == run_len(line, j as nat),
                    j >= 1 ==> prev_bit == line[j - 1],
                    line_total == ended_runs_penalty(line, j as nat),
                    line_total + num_same_bit_cells <= j,
                decreases j_limit - j,
            {
                let bit: i8 = if is_horizontal {
                    matrix.get(j, i)
                } else {
                    matrix.get(i, j)
                };
                proof {
                    lemma_line_penalty_bound(line, j as nat);
                    lemma_line_penalty_bound(line, (j + 1) as nat);
                    assert(bit == line[j as int]);
                }
                if j >= 1 && bit == prev_bit {
                    num_same_bit_cells += 1;
                } else {
                    if num_same_bit_cells >= 5 {
                        line_total += 3 + (num_same_bit_cells - 5);
                    }
                    num_same_bit_cells = 1;
                    prev_bit = bit;
                }
                j += 1;
            }
            if num_same_bit_cells >= 5 {
                line_total += 3 + (num_same_bit_cells - 5);
            }
            proof {
                assert(line_total == line_penalty(line));
                assert((i + 1) * j_limit == i * j_limit + j_limit) by (nonlinear_arith);
            }
            assert(i * j_limit <= 0x1000 * 0x1000) by (nonlinear_arith)
                requires
                    i <= 0x1000,
                    j_limit <= 0x1000,
            ;
            penalty += line_total;
            i += 1;
        }
        assert(penalty <= 0x1000 * 0x1000) by (nonlinear_arith)
            requires
                penalty <= i * j_limit,
                i <= 0x1000,
                j_limit <= 0x1000,
        ;
        penalty
    }
}

} // verus!
