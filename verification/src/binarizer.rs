use crate::common::bit_array::BitArray;
use crate::common::bit_matrix::BitMatrix;
use crate::error::Error;
use crate::luminance_source::LuminanceSource;
use vstd::prelude::*;

verus! {

/// What turns the grey levels of a source into black and white.
pub trait Binarizer<S: LuminanceSource> {
    /// Row `y` of the image in black and white. `row` is a buffer that the binarizer
    /// may use.
    fn get_black_row(&self, y: usize, row: &BitArray) -> Result<BitArray, Error>;

    /// Whether `r` is what the binarizer, as it stands, gives for the image in black and
    /// white. A binarizer that says nothing of it leaves this as it is.
    open spec fn makes_matrix(&self, r: Result<BitMatrix, Error>) -> bool {
        true
    }

    /// The image in black and white.
    fn get_black_matrix(&mut self) -> (r: Result<BitMatrix, Error>)
        ensures
            r matches Ok(m) ==> m.wf(),
            old(self).makes_matrix(r),
    ;

    /// The width of the image.
    fn get_width(&self) -> usize;

    /// The height of the image.
    fn get_height(&self) -> usize;

    /// The source of the grey levels.
    fn get_luminance_source(&self) -> Result<&S, Error>;

    /// A binarizer of the same kind for another source.
    fn create_binarizer(&self, source: S) -> Self where Self: Sized;
}

/// Whether `w` is a width that `binarizer` gives for its image.
pub open spec fn image_width<B: Binarizer<S>, S: LuminanceSource>(binarizer: B, w: usize) -> bool {
    call_ensures(B::get_width, (&binarizer,), w)
}

/// Whether `h` is a height that `binarizer` gives for its image.
pub open spec fn image_height<B: Binarizer<S>, S: LuminanceSource>(binarizer: B, h: usize) -> bool {
    call_ensures(B::get_height, (&binarizer,), h)
}

/// Whether `r` is what `binarizer` gives when it is asked for row `y` in black and white
/// with the buffer `row`.
pub open spec fn gives_black_row<B: Binarizer<S>, S: LuminanceSource>(
    binarizer: B,
    y: usize,
    row: BitArray,
    r: Result<BitArray, Error>,
) -> bool {
    call_ensures(B::get_black_row, (&binarizer, y, &row), r)
}

/// Whether `r` is what `binarizer` gives when it is asked for its source.
pub open spec fn gives_source<B: Binarizer<S>, S: LuminanceSource>(
    binarizer: B,
    r: Result<&S, Error>,
) -> bool {
    call_ensures(B::get_luminance_source, (&binarizer,), r)
}

/// Whether `made` is a binarizer that `binarizer` makes for `source`.
pub open spec fn makes_binarizer<B: Binarizer<S>, S: LuminanceSource>(
    binarizer: B,
    source: S,
    made: B,
) -> bool {
    call_ensures(B::create_binarizer, (&binarizer, source), made)
}

} // verus!
