#![allow(non_snake_case)]

use crate::common::bit_lemmas::{
    bit32, lemma_bit_after_set, lemma_bit_of_zero, lemma_bit_test, lemma_nonzero_above,
    lemma_nonzero_below, lemma_whole_word,
};
use crate::error::Error;
use vstd::prelude::*;

verus! {

/// A fixed grid of bits, `true` meaning a black cell. Each row is packed into whole
/// words, 32 cells to a word, the cell with the lowest `x` in the least significant bit.
#[derive(Debug)]
pub struct BitMatrix {
    width: usize,
    height: usize,
    row_size: usize,
    bits: Vec<u32>,
}

/// `y * row_size + wx` stays inside a store of `height` rows.
pub proof fn lemma_word_index(y: int, wx: int, row_size: int, height: int)
    by (nonlinear_arith)
    requires
        0 <= y < height,
        0 <= wx < row_size,
    ensures
        0 <= y * row_size + wx < row_size * height,
        y * row_size + row_size <= row_size * height,
        0 <= y * row_size,
{
}

/// Two places in the store are one place only if row and word agree.
pub proof fn lemma_word_index_unique(y1: int, w1: int, y2: int, w2: int, row_size: int)
    by (nonlinear_arith)
    requires
        0 <= y1,
        0 <= y2,
        0 <= w1 < row_size,
        0 <= w2 < row_size,
        y1 * row_size + w1 == y2 * row_size + w2,
    ensures
        y1 == y2,
        w1 == w2,
{
}

impl BitMatrix {
    /// The largest width, height and word count a matrix can have.
    pub const MAX_DIMENSION: usize = 0x7FFF_FFFF;

    /// Whether a matrix of this width and height can be held.
    pub open spec fn fits(width: int, height: int) -> bool {
        &&& 1 <= width <= BitMatrix::MAX_DIMENSION
        &&& 1 <= height <= BitMatrix::MAX_DIMENSION
        &&& ((width + 31) / 32) * height <= BitMatrix::MAX_DIMENSION
    }

    pub closed spec fn spec_width(&self) -> int {
        self.width as int
    }

    pub closed spec fn spec_height(&self) -> int {
        self.height as int
    }

    /// The cell at column `x` of row `y`; false outside the matrix.
    pub closed spec fn cell(&self, x: int, y: int) -> bool {
        &&& 0 <= x < self.width
        &&& 0 <= y < self.height
        &&& bit32(self.bits@[y * self.row_size + x / 32], (x % 32) as u32)
    }

    spec fn raw(&self, x: int, y: int) -> bool {
        bit32(self.bits@[y * self.row_size + x / 32], (x % 32) as u32)
    }

    /// The store matches the dimensions, and no bit is set beyond the width of a row.
    pub closed spec fn wf(&self) -> bool {
        &&& BitMatrix::fits(self.width as int, self.height as int)
        &&& self.row_size == (self.width + 31) / 32
        &&& self.bits@.len() == self.row_size * self.height
        &&& forall|x: int, y: int|
            0 <= y < self.height && self.width <= x < self.row_size * 32 ==> !#[trigger] self.raw(
                x,
                y,
            )
    }

    /// What well-formedness says of the dimensions.
    pub proof fn lemma_dimensions(&self)
        requires
            self.wf(),
        ensures
            BitMatrix::fits(self.spec_width(), self.spec_height()),
    {
    }

    /// A cell that is set lies in the matrix.
    pub proof fn lemma_cell_in_matrix(&self, x: int, y: int)
        requires
            self.cell(x, y),
        ensures
            0 <= x < self.spec_width(),
            0 <= y < self.spec_height(),
    {
    }

    /// No cell is set.
    pub open spec fn all_clear(&self) -> bool {
        forall|x: int, y: int| !#[trigger] self.cell(x, y)
    }

    /// `(x, y)` is set, no cell of a row above is, and none to its left in its own row.
    pub open spec fn is_top_left(&self, x: int, y: int) -> bool {
        &&& self.cell(x, y)
        &&& forall|x2: int, y2: int| #[trigger]
            self.cell(x2, y2) ==> y2 > y || (y2 == y && x2 >= x)
    }

    /// `(x, y)` is set, no cell of a row below is, and none to its right in its own row.
    pub open spec fn is_bottom_right(&self, x: int, y: int) -> bool {
        &&& self.cell(x, y)
        &&& forall|x2: int, y2: int| #[trigger]
            self.cell(x2, y2) ==> y2 < y || (y2 == y && x2 <= x)
    }

    /// A square matrix with every cell clear.
    pub fn new1(dimension: usize) -> (r: Result<BitMatrix, Error>)
        ensures
            r is Ok <==> BitMatrix::fits(dimension as int, dimension as int),
            r matches Err(e) ==> e is IllegalArgumentException,
            r matches Ok(m) ==> m.wf() && m.spec_width() == dimension && m.spec_height()
                == dimension && m.all_clear(),
    {
        BitMatrix::new2(dimension, dimension)
    }

    /// A matrix of the given width and height with every cell clear. Both must be at least
    /// one, and the matrix must be one that can be held.
    pub fn new2(width: usize, height: usize) -> (r: Result<BitMatrix, Error>)
        ensures
            r is Ok <==> BitMatrix::fits(width as int, height as int),
            r matches Err(e) ==> e is IllegalArgumentException,
            r matches Ok(m) ==> m.wf() && m.spec_width() == width && m.spec_height() == height
                && m.all_clear(),
    {
        if width < 1 || height < 1 {
            return Err(
                Error::IllegalArgumentException(
                    "Both dimensions must be greater than 0".to_owned(),
                ),
            );
        }
        if width > BitMatrix::MAX_DIMENSION || height > BitMatrix::MAX_DIMENSION {
            return Err(Error::IllegalArgumentException("Dimensions are too large".to_owned()));
        }
        let row_size: usize = (width + 31) / 32;
        assert((row_size as u64) * (height as u64) <= 0x400_0000u64 * 0x7FFF_FFFFu64)
            by (nonlinear_arith)
            requires
                row_size <= 0x400_0000,
                height <= 0x7FFF_FFFF,
        ;
        let words: u64 = (row_size as u64) * (height as u64);
        if words > BitMatrix::MAX_DIMENSION as u64 {
            return Err(Error::IllegalArgumentException("Dimensions are too large".to_owned()));
        }
        let m = BitMatrix { width, height, row_size, bits: vec![0u32; words as usize] };
        proof {
            assert forall|x: int, y: int| 0 <= y < m.height && 0 <= x < m.row_size * 32 implies !m.raw(
                x,
                y,
            ) by {
                lemma_word_index(y, x / 32, row_size as int, height as int);
                lemma_bit_of_zero((x % 32) as u32);
            }
            assert forall|x: int, y: int| !#[trigger] m.cell(x, y) by {
                if 0 <= x < m.width && 0 <= y < m.height {
                    assert(!m.raw(x, y));
                }
            }
        }
        Ok(m)
    }

    /// The number of columns.
    pub fn get_width(&self) -> (w: usize)
        ensures
            w == self.spec_width(),
    {
        self.width
    }

    /// The number of rows.
    pub fn get_height(&self) -> (h: usize)
        ensures
            h == self.spec_height(),
    {
        self.height
    }

    /// The cell at column `x` of row `y`.
    pub fn get(&self, x: usize, y: usize) -> (b: bool)
        requires
            self.wf(),
            x < self.spec_width(),
            y < self.spec_height(),
        ensures
            b == self.cell(x as int, y as int),
    {
        proof {
            lemma_word_index(y as int, (x / 32) as int, self.row_size as int, self.height as int);
        }
        let offset: usize = y * self.row_size + x / 32;
        let w: u32 = self.bits[offset];
        let k: u32 = (x % 32) as u32;
        proof {
            lemma_bit_test(w, k);
        }
        (w & (1u32 << k)) != 0
    }

    /// Sets the cell at column `x` of row `y`; every other cell stays as it was.
    pub fn set(&mut self, x: usize, y: usize)
        requires
            old(self).wf(),
            x < old(self).spec_width(),
            y < old(self).spec_height(),
        ensures
            final(self).wf(),
            final(self).spec_width() == old(self).spec_width(),
            final(self).spec_height() == old(self).spec_height(),
            forall|x2: int, y2: int|
                #![trigger final(self).cell(x2, y2)]
                #![trigger old(self).cell(x2, y2)]
                final(self).cell(x2, y2) == (old(self).cell(x2, y2) || (x2 == x && y2 == y)),
    {
        let ghost pre = *self;
        proof {
            lemma_word_index(y as int, (x / 32) as int, self.row_size as int, self.height as int);
        }
        let offset: usize = y * self.row_size + x / 32;
        let w: u32 = self.bits[offset];
        let k: u32 = (x % 32) as u32;
        self.bits[offset] = w | (1u32 << k);
        proof {
            assert forall|x2: int, y2: int| 0 <= y2 < self.height && 0 <= x2 < self.row_size
                * 32 implies #[trigger] self.raw(x2, y2) == (pre.raw(x2, y2) || (x2 == x && y2
                == y)) by {
                lemma_word_index(y2, x2 / 32, self.row_size as int, self.height as int);
                if y2 * self.row_size + x2 / 32 == offset {
                    lemma_word_index_unique(
                        y2,
                        x2 / 32,
                        y as int,
                        (x / 32) as int,
                        self.row_size as int,
                    );
                    lemma_bit_after_set(w, k, (x2 % 32) as u32);
                }
            }
            assert forall|x2: int, y2: int|
                0 <= y2 < self.height && self.width <= x2 < self.row_size * 32 implies !#[trigger] self.raw(
                x2,
                y2,
            ) by {
                assert(!pre.raw(x2, y2));
            }
            assert forall|x2: int, y2: int|
                #![trigger self.cell(x2, y2)]
                #![trigger pre.cell(x2, y2)]
                self.cell(x2, y2) == (pre.cell(x2, y2) || (x2 == x && y2 == y)) by {
                if 0 <= x2 < self.width && 0 <= y2 < self.height {
                    assert(self.raw(x2, y2) == (pre.raw(x2, y2) || (x2 == x && y2 == y)));
                }
            }
        }
    }

    /// Sets every cell of the rectangle whose top left corner is `(left, top)`. A rectangle
    /// without cells, or one that does not lie inside the matrix, is refused and nothing is set.
    pub fn set_region(&mut self, left: usize, top: usize, width: usize, height: usize) -> (r:
        Result<(), Error>)
        requires
            old(self).wf(),
        ensures
            final(self).wf(),
            final(self).spec_width() == old(self).spec_width(),
            final(self).spec_height() == old(self).spec_height(),
            r is Ok <==> (width >= 1 && height >= 1 && left + width <= old(self).spec_width()
                && top + height <= old(self).spec_height()),
            r matches Err(e) ==> e is IllegalArgumentException && *final(self) == *old(self),
            r is Ok ==> forall|x: int, y: int|
                #![trigger final(self).cell(x, y)]
                #![trigger old(self).cell(x, y)]
                final(self).cell(x, y) == (old(self).cell(x, y) || (left <= x < left + width
                    && top <= y < top + height)),
    {
        if height < 1 || width < 1 {
            return Err(
                Error::IllegalArgumentException("Height and width must be at least 1".to_owned()),
            );
        }
        if left > self.width || width > self.width - left || top > self.height || height
            > self.height - top {
            return Err(
                Error::IllegalArgumentException(
                    "The region must fit inside the matrix".to_owned(),
                ),
            );
        }
        let ghost pre = *self;
        let right: usize = left + width;
        let bottom: usize = top + height;
        let mut y: usize = top;
        while y < bottom
            invariant
                self.wf(),
                pre.wf(),
                self.spec_width() == pre.spec_width(),
                self.spec_height() == pre.spec_height(),
                top <= y <= bottom,
                bottom == top + height,
                right == left + width,
                left < right <= self.spec_width(),
                bottom <= self.spec_height(),
                forall|x2: int, y2: int|
                    #![trigger self.cell(x2, y2)]
                    #![trigger pre.cell(x2, y2)]
                    self.cell(x2, y2) == (pre.cell(x2, y2) || (left <= x2 < right && top <= y2
                        < y)),
            decreases bottom - y,
        {
            let mut x: usize = left;
            while x < right
                invariant
                    self.wf(),
                    pre.wf(),
                    self.spec_width() == pre.spec_width(),
                    self.spec_height() == pre.spec_height(),
                    top <= y < bottom,
                    left <= x <= right,
                    right <= self.spec_width(),
                    bottom <= self.spec_height(),
                    forall|x2: int, y2: int|
                        #![trigger self.cell(x2, y2)]
                        #![trigger pre.cell(x2, y2)]
                        self.cell(x2, y2) == (pre.cell(x2, y2) || (left <= x2 < right && top
                            <= y2 < y) || (left <= x2 < x && y2 == y)),
                decreases right - x,
            {
                let ghost before = *self;
                self.set(x, y);
                proof {
                    assert forall|x2: int, y2: int|
                        #![trigger self.cell(x2, y2)]
                        #![trigger pre.cell(x2, y2)]
                        self.cell(x2, y2) == (pre.cell(x2, y2) || (left <= x2 < right && top
                            <= y2 < y) || (left <= x2 < x + 1 && y2 == y)) by {
                        assert(self.cell(x2, y2) == (before.cell(x2, y2) || (x2 == x && y2 == y)));
                    }
                }
                x += 1;
            }
            y += 1;
        }
        Ok(())
    }

    /// The set cell of the topmost row that has one, and in that row the leftmost, as
    /// `[x, y]`; `None` when no cell is set.
    pub fn getTopLeftOnBit(&self) -> (r: Option<Vec<usize>>)
        requires
            self.wf(),
        ensures
            r is None <==> self.all_clear(),
            r matches Some(v) ==> v@.len() == 2 && self.is_top_left(v@[0] as int, v@[1] as int),
    {
        let mut y: usize = 0;
        while y < self.height
            invariant
                self.wf(),
                y <= self.height,
                forall|x2: int, y2: int| y2 < y ==> !#[trigger] self.cell(x2, y2),
            decreases self.height - y,
        {
            let mut wx: usize = 0;
            while wx < self.row_size
                invariant
                    self.wf(),
                    y < self.height,
                    wx <= self.row_size,
                    forall|x2: int, y2: int|
                        y2 < y || (y2 == y && x2 < wx * 32) ==> !#[trigger] self.cell(x2, y2),
                decreases self.row_size - wx,
            {
                proof {
                    lemma_word_index(y as int, wx as int, self.row_size as int, self.height as int);
                }
                let the_bits: u32 = self.bits[y * self.row_size + wx];
                if the_bits != 0 {
                    proof {
                        lemma_whole_word(the_bits);
                    }
                    let mut bit: u32 = 0;
                    while (the_bits & (1u32 << bit)) == 0
                        invariant
                            bit < 32,
                            the_bits >> bit != 0,
                            forall|j: u32| j < bit ==> !#[trigger] bit32(the_bits, j),
                        decreases 32 - bit,
                    {
                        proof {
                            lemma_bit_test(the_bits, bit);
                            lemma_nonzero_above(the_bits, bit);
                        }
                        bit += 1;
                    }
                    proof {
                        lemma_bit_test(the_bits, bit);
                    }
                    let x: usize = wx * 32 + bit as usize;
                    proof {
                        assert(x / 32 == wx && x % 32 == bit);
                        assert(bit32(the_bits, bit));
                        assert(self.bits@[y * self.row_size + x / 32] == the_bits);
                        assert(self.raw(x as int, y as int));
                        assert(x < self.width) by {
                            if x >= self.width {
                                assert(!self.raw(x as int, y as int));
                            }
                        }
                        assert(self.cell(x as int, y as int));
                        assert forall|x2: int, y2: int| #[trigger]
                            self.cell(x2, y2) implies y2 > y || (y2 == y && x2 >= x) by {
                            if y2 == y && wx * 32 <= x2 < x {
                                assert(!bit32(the_bits, (x2 % 32) as u32));
                            }
                        }
                    }
                    let mut v: Vec<usize> = Vec::new();
                    v.push(x);
                    v.push(y);
                    return Some(v);
                }
                proof {
                    assert forall|x2: int, y2: int|
                        y2 < y || (y2 == y && x2 < (wx + 1) * 32) implies !#[trigger] self.cell(
                        x2,
                        y2,
                    ) by {
                        if y2 == y && wx * 32 <= x2 {
                            lemma_bit_of_zero((x2 % 32) as u32);
                        }
                    }
                }
                wx += 1;
            }
            y += 1;
        }
        None
    }

    /// The set cell of the lowest row that has one, and in that row the rightmost, as
    /// `[x, y]`; `None` when no cell is set.
    pub fn getBottomRightOnBit(&self) -> (r: Option<Vec<usize>>)
        requires
            self.wf(),
        ensures
            r is None <==> self.all_clear(),
            r matches Some(v) ==> v@.len() == 2 && self.is_bottom_right(
                v@[0] as int,
                v@[1] as int,
            ),
    {
        let mut y: usize = self.height;
        while y > 0
            invariant
                self.wf(),
                y <= self.height,
                forall|x2: int, y2: int| y2 >= y ==> !#[trigger] self.cell(x2, y2),
            decreases y,
        {
            y -= 1;
            let mut wx: usize = self.row_size;
            while wx > 0
                invariant
                    self.wf(),
                    y < self.height,
                    wx <= self.row_size,
                    forall|x2: int, y2: int|
                        y2 > y || (y2 == y && x2 >= wx * 32) ==> !#[trigger] self.cell(x2, y2),
                decreases wx,
            {
                wx -= 1;
                proof {
                    lemma_word_index(y as int, wx as int, self.row_size as int, self.height as int);
                }
                let the_bits: u32 = self.bits[y * self.row_size + wx];
                if the_bits != 0 {
                    proof {
                        lemma_whole_word(the_bits);
                    }
                    let mut bit: u32 = 31;
                    while (the_bits & (1u32 << bit)) == 0
                        invariant
                            bit < 32,
                            the_bits & (0xFFFF_FFFFu32 >> (31 - bit) as u32) != 0,
                            forall|j: u32| bit < j < 32 ==> !#[trigger] bit32(the_bits, j),
                        decreases bit,
                    {
                        proof {
                            lemma_bit_test(the_bits, bit);
                            lemma_nonzero_below(the_bits, bit);
                        }
                        bit -= 1;
                    }
                    proof {
                        lemma_bit_test(the_bits, bit);
                    }
                    let x: usize = wx * 32 + bit as usize;
                    proof {
                        assert(x / 32 == wx && x % 32 == bit);
                        assert(bit32(the_bits, bit));
                        assert(self.bits@[y * self.row_size + x / 32] == the_bits);
                        assert(self.raw(x as int, y as int));
                        assert(x < self.width) by {
                            if x >= self.width {
                                assert(!self.raw(x as int, y as int));
                            }
                        }
                        assert(self.cell(x as int, y as int));
                        assert forall|x2: int, y2: int| #[trigger]
                            self.cell(x2, y2) implies y2 < y || (y2 == y && x2 <= x) by {
                            if y2 == y && x < x2 < (wx + 1) * 32 {
                                assert(!bit32(the_bits, (x2 % 32) as u32));
                            }
                        }
                    }
                    let mut v: Vec<usize> = Vec::new();
                    v.push(x);
                    v.push(y);
                    return Some(v);
                }
                proof {
                    assert forall|x2: int, y2: int|
                        y2 > y || (y2 == y && x2 >= wx * 32) implies !#[trigger] self.cell(
                        x2,
                        y2,
                    ) by {
                        if y2 == y && x2 < (wx + 1) * 32 {
                            lemma_bit_of_zero((x2 % 32) as u32);
                        }
                    }
                }
            }
        }
        None
    }

    /// Whether `image` has a row and all its rows are as long as the first.
    pub open spec fn rectangular(image: Seq<Vec<bool>>) -> bool {
        &&& image.len() >= 1
        &&& forall|y: int| 0 <= y < image.len() ==> (#[trigger] image[y])@.len() == image[0]@.len()
    }

    /// The matrix whose rows are the rows of `image`; a cell is set where the image holds
    /// `true`. An image without a row or a column, with rows of different lengths, or
    /// larger than a matrix can be, is refused.
    pub fn parse_image(image: &Vec<Vec<bool>>) -> (r: Result<BitMatrix, Error>)
        ensures
            r is Ok <==> (BitMatrix::rectangular(image@) && BitMatrix::fits(
                image@[0]@.len() as int,
                image@.len() as int,
            )),
            r matches Err(e) ==> e is IllegalArgumentException,
            r matches Ok(m) ==> m.wf() && m.spec_height() == image@.len() && m.spec_width()
                == image@[0]@.len() && forall|x: int, y: int|
                0 <= x < m.spec_width() && 0 <= y < m.spec_height() ==> #[trigger] m.cell(x, y)
                    == image@[y]@[x],
    {
        let height = image.len();
        if height == 0 {
            return Err(Error::IllegalArgumentException("An image needs a row".to_owned()));
        }
        let width = image[0].len();
        let mut y: usize = 0;
        while y < height
            invariant
                y <= height,
                height == image@.len(),
                width == image@[0]@.len(),
                forall|k: int| 0 <= k < y ==> (#[trigger] image@[k])@.len() == width,
            decreases height - y,
        {
            if image[y].len() != width {
                return Err(
                    Error::IllegalArgumentException("The rows differ in length".to_owned()),
                );
            }
            y += 1;
        }
        let mut m = match BitMatrix::new2(width, height) {
            Ok(m) => m,
            Err(e) => {
                return Err(e);
            },
        };
        let mut y: usize = 0;
        while y < height
            invariant
                y <= height,
                height == image@.len(),
                width == image@[0]@.len(),
                BitMatrix::rectangular(image@),
                m.wf(),
                m.spec_width() == width,
                m.spec_height() == height,
                forall|x2: int, y2: int|
                    0 <= x2 < width && 0 <= y2 < height ==> #[trigger] m.cell(x2, y2) == (y2 < y
                        && image@[y2]@[x2]),
            decreases height - y,
        {
            let row = &image[y];
            let mut x: usize = 0;
            while x < width
                invariant
                    x <= width,
                    y < height,
                    height == image@.len(),
                    width == image@[0]@.len(),
                    row@ == image@[y as int]@,
                    row@.len() == width,
                    m.wf(),
                    m.spec_width() == width,
                    m.spec_height() == height,
                    forall|x2: int, y2: int|
                        0 <= x2 < width && 0 <= y2 < height ==> #[trigger] m.cell(x2, y2) == ((y2
                            < y || (y2 == y && x2 < x)) && image@[y2]@[x2]),
                decreases width - x,
            {
                if row[x] {
                    m.set(x, y);
                }
                x += 1;
            }
            y += 1;
        }
        Ok(m)
    }
}

} // verus!
