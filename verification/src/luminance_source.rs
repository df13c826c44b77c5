use crate::common::charset::push_char;
use crate::error::Error;
use vstd::prelude::*;

verus! {

/// A source of grey levels: an image of `get_width()` by `get_height()` pixels, each
/// from 0 for black to 255 for white.
pub trait LuminanceSource {
    /// The grey levels of row `y`, left to right. `row` is a buffer that the source
    /// may use.
    fn get_row(&self, y: usize, row: &Vec<u8>) -> Result<Vec<u8>, Error>;

    /// The grey levels of all rows, one behind the other from the top.
    fn get_matrix(&self) -> Result<Vec<u8>, Error>;

    /// The width of the image.
    fn get_width(&self) -> usize;

    /// The height of the image.
    fn get_height(&self) -> usize;

    /// Whether the source can give a part of itself.
    fn is_crop_supported(&self) -> bool;

    /// Whether the source can give itself turned.
    fn is_rotate_supported(&self) -> bool;

    /// The part of `width` by `height` pixels at `(left, top)` of the image. A source
    /// that does not say otherwise gives no part of itself and refuses.
    fn crop(&self, left: usize, top: usize, width: usize, height: usize) -> (r: Result<
        Self,
        Error,
    >) where Self: Sized
        default_ensures
            r matches Err(e) && e is UnsupportedOperationException,
    {
        Err(
            Error::UnsupportedOperationException(
                "This luminance source does not support cropping.".to_owned(),
            ),
        )
    }

    /// The image turned by 90 degrees against the clock. A source that does not say
    /// otherwise does not give itself turned and refuses.
    fn rotate_counter_clockwise(&self) -> (r: Result<Self, Error>) where Self: Sized
        default_ensures
            r matches Err(e) && e is UnsupportedOperationException,
    {
        Err(
            Error::UnsupportedOperationException(
                "This luminance source does not support rotation by 90 degrees.".to_owned(),
            ),
        )
    }

    /// The image turned by 45 degrees against the clock. A source that does not say
    /// otherwise does not give itself turned and refuses.
    fn rotate_counter_clockwise45(&self) -> (r: Result<Self, Error>) where Self: Sized
        default_ensures
            r matches Err(e) && e is UnsupportedOperationException,
    {
        Err(
            Error::UnsupportedOperationException(
                "This luminance source does not support rotation by 45 degrees.".to_owned(),
            ),
        )
    }
}

/// Whether `w` is a width that `source` gives for itself.
pub open spec fn gives_width<S: LuminanceSource>(source: S, w: usize) -> bool {
    call_ensures(S::get_width, (&source,), w)
}

/// Whether `h` is a height that `source` gives for itself.
pub open spec fn gives_height<S: LuminanceSource>(source: S, h: usize) -> bool {
    call_ensures(S::get_height, (&source,), h)
}

/// Whether `r` is what `source` gives when it is asked for row `y` with the buffer
/// `buffer`.
pub open spec fn gives_row<S: LuminanceSource>(
    source: S,
    y: usize,
    buffer: Vec<u8>,
    r: Result<Vec<u8>, Error>,
) -> bool {
    call_ensures(S::get_row, (&source, y, &buffer), r)
}

/// Whether `r` is what `source` gives when it is asked for all its grey levels.
pub open spec fn gives_matrix<S: LuminanceSource>(source: S, r: Result<Vec<u8>, Error>) -> bool {
    call_ensures(S::get_matrix, (&source,), r)
}

/// Whether `b` is what `source` says of giving a part of itself.
pub open spec fn says_crop<S: LuminanceSource>(source: S, b: bool) -> bool {
    call_ensures(S::is_crop_supported, (&source,), b)
}

/// Whether `b` is what `source` says of giving itself turned.
pub open spec fn says_rotate<S: LuminanceSource>(source: S, b: bool) -> bool {
    call_ensures(S::is_rotate_supported, (&source,), b)
}

/// Whether `r` is what `source` gives when it is asked for the part of `width` by
/// `height` pixels at `(left, top)`.
pub open spec fn gives_part<S: LuminanceSource>(
    source: S,
    left: usize,
    top: usize,
    width: usize,
    height: usize,
    r: Result<S, Error>,
) -> bool {
    call_ensures(S::crop, (&source, left, top, width, height), r)
}

/// Whether `r` is what `source` gives when it is asked for itself turned by 90 degrees.
pub open spec fn gives_turned<S: LuminanceSource>(source: S, r: Result<S, Error>) -> bool {
    call_ensures(S::rotate_counter_clockwise, (&source,), r)
}

/// Whether `r` is what `source` gives when it is asked for itself turned by 45 degrees.
pub open spec fn gives_turned45<S: LuminanceSource>(source: S, r: Result<S, Error>) -> bool {
    call_ensures(S::rotate_counter_clockwise45, (&source,), r)
}

/// Whether `r` fails with the error `e`.
pub open spec fn fails_with<T>(r: Result<T, Error>, e: Error) -> bool {
    r matches Err(f) && f == e
}

/// The sign that stands for a grey level where an image is shown as text: `#` for the
/// darkest quarter, then `+`, `.` and the blank.
pub open spec fn shade_of(luminance: u8) -> char {
    if luminance < 0x40 {
        '#'
    } else if luminance < 0x80 {
        '+'
    } else if luminance < 0xC0 {
        '.'
    } else {
        ' '
    }
}

/// The sign that stands for a grey level where an image is shown as text.
pub fn shade(luminance: u8) -> (c: char)
    ensures
        c == shade_of(luminance),
{
    if luminance < 0x40 {
        '#'
    } else if luminance < 0x80 {
        '+'
    } else if luminance < 0xC0 {
        '.'
    } else {
        ' '
    }
}

/// The grey levels of an image of `width` by `height` pixels as text: one sign for each
/// pixel and a line feed behind each row.
pub open spec fn shown(luminances: Seq<u8>, width: int, height: int) -> Seq<char> {
    Seq::new(
        (height * (width + 1)) as nat,
        |i: int|
            if i % (width + 1) == width {
                '\n'
            } else {
                shade_of(luminances[(i / (width + 1)) * width + i % (width + 1)])
            },
    )
}

/// The grey levels of an image of `width` by `height` pixels as text. Fewer grey levels
/// than the image has pixels are refused.
pub fn show(luminances: &Vec<u8>, width: usize, height: usize) -> (r: Result<String, Error>)
    ensures
        r is Ok <==> width * height <= luminances@.len(),
        r matches Ok(text) ==> text@ == shown(luminances@, width as int, height as int),
        r matches Err(e) ==> e is IllegalArgumentException,
{
    let length = luminances.len();
    if height > 0 && width > length / height {
        proof {
            vstd::arithmetic::div_mod::lemma_fundamental_div_mod(length as int, height as int);
            assert(width * height > length) by (nonlinear_arith)
                requires
                    height > 0,
                    width >= length / height + 1,
                    length == height * (length / height) + length % height,
                    length % height < height,
            ;
        }
        return Err(Error::IllegalArgumentException("Too few grey levels".to_owned()));
    }
    proof {
        if height > 0 {
            vstd::arithmetic::div_mod::lemma_fundamental_div_mod(length as int, height as int);
            assert(width * height <= length) by (nonlinear_arith)
                requires
                    height > 0,
                    0 <= width <= length / height,
                    length == height * (length / height) + length % height,
                    length % height >= 0,
            ;
        } else {
            assert(width * height == 0) by (nonlinear_arith)
                requires
                    height == 0,
            ;
        }
    }
    let ghost wanted = shown(luminances@, width as int, height as int);
    let mut text = String::new();
    let mut y: usize = 0;
    while y < height
        invariant
            y <= height,
            length == luminances@.len(),
            width * height <= luminances@.len(),
            wanted == shown(luminances@, width as int, height as int),
            text@.len() == y * (width + 1),
            forall|i: int| 0 <= i < text@.len() ==> #[trigger] text@[i] == wanted[i],
        decreases height - y,
    {
        proof {
            assert((y + 1) * width <= height * width) by (nonlinear_arith)
                requires
                    y + 1 <= height,
                    width >= 0,
            ;
            assert((y + 1) * width == y * width + width) by (nonlinear_arith);
            assert(height * width == width * height) by (nonlinear_arith);
            assert((y + 1) * (width + 1) == y * (width + 1) + width + 1) by (nonlinear_arith);
            assert((y + 1) * (width + 1) <= height * (width + 1)) by (nonlinear_arith)
                requires
                    y + 1 <= height,
                    width >= 0,
            ;
            assert(y * width >= 0) by (nonlinear_arith)
                requires
                    y >= 0,
                    width >= 0,
            ;
        }
        let mut x: usize = 0;
        while x < width
            invariant
                x <= width,
                y < height,
                length == luminances@.len(),
                y * width + width <= luminances@.len(),
                y * (width + 1) + width + 1 <= height * (width + 1),
                y * width >= 0,
                wanted == shown(luminances@, width as int, height as int),
                text@.len() == y * (width + 1) + x,
                forall|i: int| 0 <= i < text@.len() ==> #[trigger] text@[i] == wanted[i],
            decreases width - x,
        {
            let ghost before = text@;
            let place = y * width + x;
            push_char(&mut text, shade(luminances[place]));
            proof {
                let i = y * (width + 1) + x;
                vstd::arithmetic::div_mod::lemma_fundamental_div_mod_converse(
                    i,
                    width + 1,
                    y as int,
                    x as int,
                );
                assert forall|j: int| 0 <= j < text@.len() implies #[trigger] text@[j]
                    == wanted[j] by {
                    if j < before.len() {
                        assert(text@[j] == before[j]);
                    }
                }
            }
            x += 1;
        }
        let ghost before = text@;
        push_char(&mut text, '\n');
        proof {
            let i = y * (width + 1) + width;
            vstd::arithmetic::div_mod::lemma_fundamental_div_mod_converse(
                i,
                width + 1,
                y as int,
                width as int,
            );
            assert forall|j: int| 0 <= j < text@.len() implies #[trigger] text@[j]
                == wanted[j] by {
                if j < before.len() {
                    assert(text@[j] == before[j]);
                }
            }
        }
        y += 1;
    }
    proof {
        assert(text@ =~= wanted);
    }
    Ok(text)
}

} // verus!
