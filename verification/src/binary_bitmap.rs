#![allow(non_snake_case)]

use crate::binarizer::{
    gives_black_row, gives_source, image_height, image_width, makes_binarizer, Binarizer,
};
use crate::common::bit_array::BitArray;
use crate::common::bit_matrix::BitMatrix;
use crate::error::Error;
use crate::luminance_source::{fails_with, gives_part, says_crop, LuminanceSource};
use vstd::prelude::*;

verus! {

/// An image in black and white, as a binarizer makes it of the grey levels of a source.
pub struct BinaryBitmap<B, S> {
    binarizer: B,
    source: Option<S>,
}

impl<B: Binarizer<S>, S: LuminanceSource> BinaryBitmap<B, S> {
    /// The binarizer of the image.
    pub closed spec fn spec_binarizer(&self) -> B {
        self.binarizer
    }

    /// The image that `binarizer` makes.
    pub fn new(binarizer: B) -> (b: BinaryBitmap<B, S>)
        ensures
            b.spec_binarizer() == binarizer,
    {
        BinaryBitmap { binarizer, source: None }
    }

    /// The width of the image, as the binarizer gives it.
    pub fn get_width(&self) -> (w: usize)
        ensures
            image_width(self.spec_binarizer(), w),
    {
        self.binarizer.get_width()
    }

    /// The height of the image, as the binarizer gives it.
    pub fn get_height(&self) -> (h: usize)
        ensures
            image_height(self.spec_binarizer(), h),
    {
        self.binarizer.get_height()
    }

    /// Row `y` of the image in black and white, as the binarizer gives it. `row` is a
    /// buffer that the binarizer may use.
    pub fn get_black_row(&self, y: usize, row: &BitArray) -> (r: Result<BitArray, Error>)
        ensures
            gives_black_row(self.spec_binarizer(), y, *row, r),
    {
        self.binarizer.get_black_row(y, row)
    }

    /// The image in black and white, as the binarizer gives it.
    pub fn getBlackMatrix(&mut self) -> (r: Result<BitMatrix, Error>)
        ensures
            r matches Ok(m) ==> m.wf(),
            old(self).spec_binarizer().makes_matrix(r),
    {
        self.binarizer.get_black_matrix()
    }

    /// Whether `r` is what is said of giving a part of the image: what the source of the
    /// binarizer says. Where the binarizer gives no source, its error is handed on.
    pub open spec fn crop_said(&self, r: Result<bool, Error>) -> bool {
        exists|given: Result<&S, Error>| #[trigger]
            gives_source(self.spec_binarizer(), given) && match given {
                Ok(source) => r matches Ok(b) && says_crop(*source, b),
                Err(e) => fails_with(r, e),
            }
    }

    /// Whether a part of the image can be had.
    pub fn is_crop_supported(&self) -> (r: Result<bool, Error>)
        ensures
            self.crop_said(r),
    {
        let given = self.binarizer.get_luminance_source();
        let r = match given {
            Ok(source) => Ok(source.is_crop_supported()),
            Err(e) => Err(e),
        };
        proof {
            assert(gives_source(self.spec_binarizer(), given));
        }
        r
    }

    /// Whether `r` is the part of `width` by `height` pixels at `(left, top)` of the
    /// image: the image that a binarizer of the same kind makes of the part that the
    /// source gives. Where the binarizer gives no source or the source no part, the
    /// error is handed on.
    pub open spec fn cropped(
        &self,
        left: usize,
        top: usize,
        width: usize,
        height: usize,
        r: Result<BinaryBitmap<B, S>, Error>,
    ) -> bool {
        exists|given: Result<&S, Error>| #[trigger]
            gives_source(self.spec_binarizer(), given) && match given {
                Err(e) => fails_with(r, e),
                Ok(source) => exists|part: Result<S, Error>| #[trigger]
                    gives_part(*source, left, top, width, height, part) && match part {
                        Err(e) => fails_with(r, e),
                        Ok(p) => r matches Ok(b) && makes_binarizer(
                            self.spec_binarizer(),
                            p,
                            b.spec_binarizer(),
                        ),
                    },
            }
    }

    /// The part of `width` by `height` pixels at `(left, top)` of the image, as the
    /// source gives it. A source that gives no part of itself refuses.
    pub fn crop(&self, left: usize, top: usize, width: usize, height: usize) -> (r: Result<
        BinaryBitmap<B, S>,
        Error,
    >)
        ensures
            self.cropped(left, top, width, height, r),
    {
        let given = self.binarizer.get_luminance_source();
        match given {
            Err(e) => {
                let r = Err(e);
                proof {
                    assert(gives_source(self.spec_binarizer(), given));
                }
                r
            },
            Ok(source) => {
                let part = source.crop(left, top, width, height);
                let ghost asked = part;
                let r = match part {
                    Ok(p) => Ok(BinaryBitmap::new(self.binarizer.create_binarizer(p))),
                    Err(e) => Err(e),
                };
                proof {
                    assert(gives_part(*source, left, top, width, height, asked));
                    assert(gives_source(self.spec_binarizer(), given));
                }
                r
            },
        }
    }
}

} // verus!
