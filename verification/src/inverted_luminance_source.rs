use crate::error::Error;
use crate::luminance_source::{
    fails_with, gives_height, gives_matrix, gives_part, gives_row, gives_turned, gives_turned45,
    gives_width, says_crop, says_rotate, LuminanceSource,
};
use vstd::prelude::*;

verus! {

/// A source that gives the grey levels of another one inverted: black for white and
/// white for black.
pub struct InvertedLuminanceSource<S: LuminanceSource> {
    delegate: S,
}

/// The grey levels inverted: 255 less each of them.
pub open spec fn inverted(levels: Seq<u8>) -> Seq<u8> {
    Seq::new(levels.len(), |i: int| (255 - levels[i]) as u8)
}

/// The first `n` of the grey levels inverted; the others stay.
pub open spec fn inverted_prefix(levels: Seq<u8>, n: int) -> Seq<u8> {
    Seq::new(levels.len(), |i: int| if i < n {
        (255 - levels[i]) as u8
    } else {
        levels[i]
    })
}

impl<S: LuminanceSource> InvertedLuminanceSource<S> {
    pub closed spec fn spec_delegate(&self) -> S {
        self.delegate
    }

    /// The source that inverts `delegate`.
    pub fn new(delegate: S) -> (r: InvertedLuminanceSource<S>)
        ensures
            r.spec_delegate() == delegate,
    {
        InvertedLuminanceSource { delegate }
    }

    /// The source that is inverted.
    pub fn invert(self) -> (s: S)
        ensures
            s == self.spec_delegate(),
    {
        self.delegate
    }

    /// Whether `r` is what inverting the first `width` grey levels of `row` gives: a row
    /// of fewer than `width` grey levels is refused.
    pub open spec fn row_inverted(row: Seq<u8>, width: usize, r: Result<Vec<u8>, Error>) -> bool {
        &&& r is Ok <==> width <= row.len()
        &&& r matches Ok(v) ==> v@ == inverted_prefix(row, width as int)
        &&& r matches Err(e) ==> e is IllegalArgumentException
    }

    /// Whether `r` is what inverting the first `length` grey levels of `matrix` gives: a
    /// matrix of fewer than `length` grey levels is refused.
    pub open spec fn matrix_inverted(matrix: Seq<u8>, length: usize, r: Result<Vec<u8>, Error>) -> bool {
        &&& r is Ok <==> length <= matrix.len()
        &&& r matches Ok(v) ==> v@ == inverted(matrix.subrange(0, length as int))
        &&& r matches Err(e) ==> e is IllegalArgumentException
    }

    /// Whether `r` is the inverted form of what the delegate has given for all its grey
    /// levels, `given`, and of the width and the height that it gives: its error is
    /// handed on; an image of more pixels than can be counted is refused.
    pub open spec fn matrix_from(&self, given: Result<Vec<u8>, Error>, r: Result<Vec<u8>, Error>) -> bool {
        match given {
            Err(e) => fails_with(r, e),
            Ok(levels) => exists|width: usize, height: usize|
                #![trigger gives_width(self.spec_delegate(), width), gives_height(self.spec_delegate(), height)]
                gives_width(self.spec_delegate(), width) && gives_height(
                    self.spec_delegate(),
                    height,
                ) && if width * height > usize::MAX {
                    r matches Err(e) && e is IllegalArgumentException
                } else {
                    InvertedLuminanceSource::<S>::matrix_inverted(
                        levels@,
                        (width * height) as usize,
                        r,
                    )
                },
        }
    }

    /// Whether `r` is the inverted form of what the delegate has given for a row,
    /// `given`, and of the width that it gives: its error is handed on.
    pub open spec fn row_from(&self, given: Result<Vec<u8>, Error>, r: Result<Vec<u8>, Error>) -> bool {
        match given {
            Err(e) => fails_with(r, e),
            Ok(levels) => exists|width: usize| #[trigger]
                gives_width(self.spec_delegate(), width)
                    && InvertedLuminanceSource::<S>::row_inverted(levels@, width, r),
        }
    }

    /// Whether `r` is the inverted form of the source `given` that the delegate has
    /// given: its error is handed on.
    pub open spec fn source_from(given: Result<S, Error>, r: Result<Self, Error>) -> bool {
        match given {
            Err(e) => fails_with(r, e),
            Ok(source) => r matches Ok(s) && s.spec_delegate() == source,
        }
    }

    /// The first `width` grey levels of `row` inverted. A row of fewer than `width` grey
    /// levels is refused.
    pub fn invert_row(row: Vec<u8>, width: usize) -> (r: Result<Vec<u8>, Error>)
        ensures
            InvertedLuminanceSource::<S>::row_inverted(row@, width, r),
    {
        if row.len() < width {
            return Err(Error::IllegalArgumentException("The row is too short".to_owned()));
        }
        let mut row = row;
        let ghost input = row@;
        let mut i: usize = 0;
        while i < width
            invariant
                i <= width <= row@.len(),
                row@.len() == input.len(),
                forall|j: int| 0 <= j < i ==> #[trigger] row@[j] == (255 - input[j]) as u8,
                forall|j: int| i <= j < row@.len() ==> #[trigger] row@[j] == input[j],
            decreases width - i,
        {
            let v = row[i];
            row[i] = 255 - v;
            i += 1;
        }
        proof {
            assert(row@ =~= inverted_prefix(input, width as int));
        }
        Ok(row)
    }

    /// The first `length` grey levels of `matrix` inverted, and no others. A matrix of
    /// fewer than `length` grey levels is refused.
    pub fn invert_matrix(matrix: &Vec<u8>, length: usize) -> (r: Result<Vec<u8>, Error>)
        ensures
            InvertedLuminanceSource::<S>::matrix_inverted(matrix@, length, r),
    {
        if matrix.len() < length {
            return Err(Error::IllegalArgumentException("The matrix is too short".to_owned()));
        }
        let mut inverted_matrix: Vec<u8> = Vec::new();
        let mut i: usize = 0;
        while i < length
            invariant
                i <= length <= matrix@.len(),
                inverted_matrix@.len() == i,
                forall|j: int| 0 <= j < i ==> #[trigger] inverted_matrix@[j] == (255 - matrix@[j]) as u8,
            decreases length - i,
        {
            inverted_matrix.push(255 - matrix[i]);
            i += 1;
        }
        proof {
            assert(inverted_matrix@ =~= inverted(matrix@.subrange(0, length as int)));
        }
        Ok(inverted_matrix)
    }
}

impl<S: LuminanceSource> LuminanceSource for InvertedLuminanceSource<S> {
    fn get_row(&self, y: usize, row: &Vec<u8>) -> (r: Result<Vec<u8>, Error>)
        ensures
            exists|given: Result<Vec<u8>, Error>| #[trigger]
                gives_row(self.spec_delegate(), y, *row, given) && self.row_from(given, r),
    {
        let given = self.delegate.get_row(y, row);
        match given {
            Ok(levels) => {
                let width = self.delegate.get_width();
                let r = InvertedLuminanceSource::<S>::invert_row(levels, width);
                proof {
                    assert(gives_width(self.spec_delegate(), width));
                    assert(gives_row(self.spec_delegate(), y, *row, given) && self.row_from(
                        given,
                        r,
                    ));
                }
                r
            },
            Err(e) => {
                let r = Err(e);
                proof {
                    assert(gives_row(self.spec_delegate(), y, *row, given) && self.row_from(
                        given,
                        r,
                    ));
                }
                r
            },
        }
    }

    fn get_matrix(&self) -> (r: Result<Vec<u8>, Error>)
        ensures
            exists|given: Result<Vec<u8>, Error>| #[trigger]
                gives_matrix(self.spec_delegate(), given) && self.matrix_from(given, r),
    {
        let given = self.delegate.get_matrix();
        match given {
            Ok(matrix) => {
                let width = self.delegate.get_width();
                let height = self.delegate.get_height();
                proof {
                    assert(gives_width(self.spec_delegate(), width) && gives_height(
                        self.spec_delegate(),
                        height,
                    ));
                }
                if width != 0 && height > usize::MAX / width {
                    let r = Err(
                        Error::IllegalArgumentException("The image is too large".to_owned()),
                    );
                    proof {
                        vstd::arithmetic::div_mod::lemma_fundamental_div_mod(
                            usize::MAX as int,
                            width as int,
                        );
                        assert(width * height > usize::MAX) by (nonlinear_arith)
                            requires
                                width != 0,
                                height >= usize::MAX / width + 1,
                                usize::MAX as int == width * (usize::MAX as int / width as int)
                                    + usize::MAX as int % width as int,
                                (usize::MAX as int) % (width as int) < width,
                        ;
                        assert(gives_matrix(self.spec_delegate(), given) && self.matrix_from(
                            given,
                            r,
                        ));
                    }
                    return r;
                }
                assert(width * height <= usize::MAX) by (nonlinear_arith)
                    requires
                        width == 0 || height <= usize::MAX / width,
                ;
                let r = InvertedLuminanceSource::<S>::invert_matrix(&matrix, width * height);
                proof {
                    assert(gives_matrix(self.spec_delegate(), given) && self.matrix_from(
                        given,
                        r,
                    ));
                }
                r
            },
            Err(e) => {
                let r = Err(e);
                proof {
                    assert(gives_matrix(self.spec_delegate(), given) && self.matrix_from(
                        given,
                        r,
                    ));
                }
                r
            },
        }
    }

    fn get_width(&self) -> (w: usize)
        ensures
            gives_width(self.spec_delegate(), w),
    {
        self.delegate.get_width()
    }

    fn get_height(&self) -> (h: usize)
        ensures
            gives_height(self.spec_delegate(), h),
    {
        self.delegate.get_height()
    }

    fn is_crop_supported(&self) -> (b: bool)
        ensures
            says_crop(self.spec_delegate(), b),
    {
        self.delegate.is_crop_supported()
    }

    fn is_rotate_supported(&self) -> (b: bool)
        ensures
            says_rotate(self.spec_delegate(), b),
    {
        self.delegate.is_rotate_supported()
    }

    fn crop(&self, left: usize, top: usize, width: usize, height: usize) -> (r: Result<Self, Error>)
        ensures
            exists|given: Result<S, Error>| #[trigger]
                gives_part(self.spec_delegate(), left, top, width, height, given)
                    && InvertedLuminanceSource::<S>::source_from(given, r),
    {
        let given = self.delegate.crop(left, top, width, height);
        let ghost asked = given;
        let r = match given {
            Ok(part) => Ok(InvertedLuminanceSource::new(part)),
            Err(e) => Err(e),
        };
        proof {
            assert(gives_part(self.spec_delegate(), left, top, width, height, asked)
                && InvertedLuminanceSource::<S>::source_from(asked, r));
        }
        r
    }

    fn rotate_counter_clockwise(&self) -> (r: Result<Self, Error>)
        ensures
            exists|given: Result<S, Error>| #[trigger]
                gives_turned(self.spec_delegate(), given)
                    && InvertedLuminanceSource::<S>::source_from(given, r),
    {
        let given = self.delegate.rotate_counter_clockwise();
        let ghost asked = given;
        let r = match given {
            Ok(turned) => Ok(InvertedLuminanceSource::new(turned)),
            Err(e) => Err(e),
        };
        proof {
            assert(gives_turned(self.spec_delegate(), asked)
                && InvertedLuminanceSource::<S>::source_from(asked, r));
        }
        r
    }

    fn rotate_counter_clockwise45(&self) -> (r: Result<Self, Error>)
        ensures
            exists|given: Result<S, Error>| #[trigger]
                gives_turned45(self.spec_delegate(), given)
                    && InvertedLuminanceSource::<S>::source_from(given, r),
    {
        let given = self.delegate.rotate_counter_clockwise45();
        let ghost asked = given;
        let r = match given {
            Ok(turned) => Ok(InvertedLuminanceSource::new(turned)),
            Err(e) => Err(e),
        };
        proof {
            assert(gives_turned45(self.spec_delegate(), asked)
                && InvertedLuminanceSource::<S>::source_from(asked, r));
        }
        r
    }
}

} // verus!
