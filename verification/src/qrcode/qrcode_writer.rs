use crate::barcode_format::BarcodeFormat;
use crate::common::bit_matrix::BitMatrix;
use crate::encode_hint_type::EncodeHints;
use crate::error::Error;
use crate::qrcode::decoder::error_correction_level::ErrorCorrectionLevel;
use crate::qrcode::encoder::byte_matrix::ByteMatrix;
use crate::qrcode::encoder::encoder::Encoder;
use crate::qrcode::encoder::qrcode::QRCode;
use crate::writer::Writer;
use vstd::prelude::*;

verus! {

/// Turns text into the image of a QR code.
pub struct QRCodeWriter {
    encoder: Encoder,
}

/// How a symbol lies in its image.
pub struct Layout {
    /// The width of the image.
    pub width: int,
    /// The height of the image.
    pub height: int,
    /// The number of cells of the image along one side of a module.
    pub multiple: int,
    /// The number of cells left of the symbol.
    pub left: int,
    /// The number of cells above the symbol.
    pub top: int,
}

/// The layout of a symbol of `input_width` by `input_height` modules with a quiet zone
/// of `quiet_zone` modules in an image that is to be at least `width` wide and `height`
/// high: the image is no smaller than the symbol with its quiet zone, a module takes as
/// many cells along a side as fit in both directions, and the symbol lies in the middle.
pub open spec fn layout_of(
    input_width: int,
    input_height: int,
    width: int,
    height: int,
    quiet_zone: int,
) -> Layout {
    let qr_width = input_width + quiet_zone * 2;
    let qr_height = input_height + quiet_zone * 2;
    let output_width = if qr_width >= width {
        qr_width
    } else {
        width
    };
    let output_height = if qr_height >= height {
        qr_height
    } else {
        height
    };
    let multiple = if output_width / qr_width <= output_height / qr_height {
        output_width / qr_width
    } else {
        output_height / qr_height
    };
    Layout {
        width: output_width,
        height: output_height,
        multiple,
        left: (output_width - input_width * multiple) / 2,
        top: (output_height - input_height * multiple) / 2,
    }
}

/// Whether the cell at column `x` of row `y` of the image lies in a black module among
/// the first `rows` rows of modules and the first `columns` modules of the row behind
/// them.
pub open spec fn painted(
    modules: Seq<Seq<i8>>,
    input_width: int,
    layout: Layout,
    rows: int,
    columns: int,
    x: int,
    y: int,
) -> bool {
    exists|ix: int, iy: int|
        0 <= ix < input_width && (0 <= iy < rows || (iy == rows && ix < columns)) && 0 <= iy
            && in_module(modules, layout, ix, iy, x, y)
}

/// Whether the module at column `ix` of row `iy` is black and holds the cell at column
/// `x` of row `y` of the image.
pub open spec fn in_module(modules: Seq<Seq<i8>>, layout: Layout, ix: int, iy: int, x: int, y: int) -> bool {
    &&& modules[iy][ix] == 1
    &&& layout.left + ix * layout.multiple <= x < layout.left + ix * layout.multiple
        + layout.multiple
    &&& layout.top + iy * layout.multiple <= y < layout.top + iy * layout.multiple
        + layout.multiple
}

/// Whether a symbol can be rendered: it has modules.
pub open spec fn renderable(input_width: int, input_height: int, quiet_zone: int) -> bool {
    &&& 1 <= input_width
    &&& 1 <= input_height
    &&& 0 <= quiet_zone
}

/// What follows from the layout.
pub proof fn lemma_layout(input_width: int, input_height: int, width: int, height: int, quiet_zone: int)
    requires
        renderable(input_width, input_height, quiet_zone),
        0 <= width,
        0 <= height,
    ensures
        ({
            let l = layout_of(input_width, input_height, width, height, quiet_zone);
            &&& l.multiple >= 1
            &&& l.left >= 0
            &&& l.top >= 0
            &&& l.left + input_width * l.multiple <= l.width
            &&& l.top + input_height * l.multiple <= l.height
            &&& input_width * l.multiple >= 0
            &&& input_height * l.multiple >= 0
        }),
{
    let qr_width = input_width + quiet_zone * 2;
    let qr_height = input_height + quiet_zone * 2;
    let l = layout_of(input_width, input_height, width, height, quiet_zone);
    vstd::arithmetic::div_mod::lemma_fundamental_div_mod(l.width, qr_width);
    vstd::arithmetic::div_mod::lemma_fundamental_div_mod(l.height, qr_height);
    let a = l.width / qr_width;
    let b = l.height / qr_height;
    assert(a >= 1) by {
        vstd::arithmetic::div_mod::lemma_div_is_ordered(qr_width, l.width, qr_width);
        vstd::arithmetic::div_mod::lemma_div_basics(qr_width);
    }
    assert(b >= 1) by {
        vstd::arithmetic::div_mod::lemma_div_is_ordered(qr_height, l.height, qr_height);
        vstd::arithmetic::div_mod::lemma_div_basics(qr_height);
    }
    let m = l.multiple;
    assert(qr_width * a <= l.width);
    assert(qr_height * b <= l.height);
    assert(input_width * m <= qr_width * a) by (nonlinear_arith)
        requires
            0 <= input_width <= qr_width,
            1 <= m <= a,
    ;
    assert(input_height * m <= qr_height * b) by (nonlinear_arith)
        requires
            0 <= input_height <= qr_height,
            1 <= m <= b,
    ;
    assert(input_width * m >= 0 && input_height * m >= 0) by (nonlinear_arith)
        requires
            0 <= input_width,
            0 <= input_height,
            1 <= m,
    ;
}

impl QRCodeWriter {
    /// The width of the quiet zone where no hint names one.
    pub const QUIET_ZONE_SIZE: usize = 4;

    #[verifier::type_invariant]
    spec fn inv(&self) -> bool {
        self.encoder.wf()
    }

    /// The encoder of the writer.
    pub closed spec fn spec_encoder(&self) -> Encoder {
        self.encoder
    }

    pub fn new() -> (w: QRCodeWriter)
        ensures
            w.spec_encoder().wf(),
    {
        QRCodeWriter { encoder: Encoder::new() }
    }

    /// The image of the symbol `code`: it is at least `width` wide and `height` high and
    /// no smaller than the symbol with a quiet zone of `quiet_zone` modules; a module
    /// takes as many cells along a side as fit in both directions, and the symbol lies
    /// in the middle. A symbol that cannot be rendered is refused, and so is an image
    /// that cannot be held.
    pub fn render_result(&self, code: &QRCode, width: usize, height: usize, quiet_zone: usize) -> (r:
        Result<BitMatrix, Error>)
        requires
            code.spec_matrix().wf(),
        ensures
            r is Ok <==> (renderable(
                code.spec_matrix().spec_width(),
                code.spec_matrix().spec_height(),
                quiet_zone as int,
            ) && BitMatrix::fits(
                layout_of(
                    code.spec_matrix().spec_width(),
                    code.spec_matrix().spec_height(),
                    width as int,
                    height as int,
                    quiet_zone as int,
                ).width,
                layout_of(
                    code.spec_matrix().spec_width(),
                    code.spec_matrix().spec_height(),
                    width as int,
                    height as int,
                    quiet_zone as int,
                ).height,
            )),
            r matches Err(e) ==> e is WriterException,
            r matches Ok(m) ==> QRCodeWriter::renders(
                m,
                code.spec_matrix()@,
                code.spec_matrix().spec_width(),
                code.spec_matrix().spec_height(),
                width as int,
                height as int,
                quiet_zone as int,
            ),
    {
        QRCodeWriter::render_matrix(code.get_matrix(), width, height, quiet_zone)
    }

    /// Whether `m` is the image of the modules under the layout for the given sizes.
    pub open spec fn renders(
        m: BitMatrix,
        modules: Seq<Seq<i8>>,
        input_width: int,
        input_height: int,
        width: int,
        height: int,
        quiet_zone: int,
    ) -> bool {
        let layout = layout_of(input_width, input_height, width, height, quiet_zone);
        &&& m.wf()
        &&& m.spec_width() == layout.width
        &&& m.spec_height() == layout.height
        &&& forall|x: int, y: int|
            0 <= x < layout.width && 0 <= y < layout.height ==> (#[trigger] m.cell(x, y) == painted(
                modules,
                input_width,
                layout,
                input_height,
                0,
                x,
                y,
            ))
    }

    /// The image of the modules of `input`.
    pub fn render_matrix(input: &ByteMatrix, width: usize, height: usize, quiet_zone: usize) -> (r:
        Result<BitMatrix, Error>)
        requires
            input.wf(),
        ensures
            r is Ok <==> (renderable(input.spec_width(), input.spec_height(), quiet_zone as int)
                && BitMatrix::fits(
                layout_of(
                    input.spec_width(),
                    input.spec_height(),
                    width as int,
                    height as int,
                    quiet_zone as int,
                ).width,
                layout_of(
                    input.spec_width(),
                    input.spec_height(),
                    width as int,
                    height as int,
                    quiet_zone as int,
                ).height,
            )),
            r matches Err(e) ==> e is WriterException,
            r matches Ok(m) ==> QRCodeWriter::renders(
                m,
                input@,
                input.spec_width(),
                input.spec_height(),
                width as int,
                height as int,
                quiet_zone as int,
            ),
    {
        let input_width = input.get_width();
        let input_height = input.get_height();
        if input_width < 1 || input_height < 1 {
            return Err(Error::WriterException("The symbol cannot be rendered".to_owned()));
        }
        // No matrix holds an image so large.
        if input_width > BitMatrix::MAX_DIMENSION || input_height > BitMatrix::MAX_DIMENSION
            || quiet_zone > BitMatrix::MAX_DIMENSION / 2 {
            return Err(Error::WriterException("The symbol cannot be rendered".to_owned()));
        }
        let qr_width = input_width + (quiet_zone * 2);
        let qr_height = input_height + (quiet_zone * 2);
        let output_width = if qr_width >= width {
            qr_width
        } else {
            width
        };
        let output_height = if qr_height >= height {
            qr_height
        } else {
            height
        };
        let by_width = output_width / qr_width;
        let by_height = output_height / qr_height;
        let multiple = if by_width <= by_height {
            by_width
        } else {
            by_height
        };
        let ghost layout = layout_of(
            input_width as int,
            input_height as int,
            width as int,
            height as int,
            quiet_zone as int,
        );
        let ghost modules = input@;
        proof {
            lemma_layout(
                input_width as int,
                input_height as int,
                width as int,
                height as int,
                quiet_zone as int,
            );
            input.lemma_view();
        }
        let mut output = match BitMatrix::new2(output_width, output_height) {
            Ok(output) => output,
            Err(e) => {
                return Err(Error::WriterException("The image cannot be held".to_owned()));
            },
        };
        proof {
            output.lemma_dimensions();
        }
        // The padding holds the quiet zone and what the image has beyond the symbol.
        let left_padding = (output_width - (input_width * multiple)) / 2;
        let top_padding = (output_height - (input_height * multiple)) / 2;
        let mut output_y = top_padding;
        let mut input_y: usize = 0;
        while input_y < input_height
            invariant
                input.wf(),
                modules == input@,
                input_width == input.spec_width(),
                input_height == input.spec_height(),
                layout.width == output_width,
                layout.height == output_height,
                layout.multiple == multiple,
                layout.left == left_padding,
                layout.top == top_padding,
                multiple >= 1,
                layout.left + input_width * layout.multiple <= layout.width,
                layout.top + input_height * layout.multiple <= layout.height,
                output.wf(),
                output.spec_width() == output_width,
                output.spec_height() == output_height,
                input_y <= input_height,
                output_y == top_padding + input_y * multiple,
                forall|x: int, y: int|
                    0 <= x < output_width && 0 <= y < output_height ==> (#[trigger] output.cell(x, y)
                        == painted(modules, input_width as int, layout, input_y as int, 0, x, y)),
            decreases input_height - input_y,
        {
            let mut output_x = left_padding;
            let mut input_x: usize = 0;
            proof {
                assert((input_y + 1) * multiple == input_y * multiple + multiple) by (nonlinear_arith);
                assert((input_y + 1) * multiple <= input_height * multiple) by (nonlinear_arith)
                    requires
                        input_y + 1 <= input_height,
                        multiple >= 0,
                ;
                assert(input_y * multiple >= 0) by (nonlinear_arith)
                    requires
                        input_y >= 0,
                        multiple >= 0,
                ;
            }
            while input_x < input_width
                invariant
                    input.wf(),
                    modules == input@,
                    input_width == input.spec_width(),
                    input_height == input.spec_height(),
                    layout.width == output_width,
                    layout.height == output_height,
                    layout.multiple == multiple,
                    layout.left == left_padding,
                    layout.top == top_padding,
                    multiple >= 1,
                    layout.left + input_width * layout.multiple <= layout.width,
                    layout.top + input_height * layout.multiple <= layout.height,
                    output.wf(),
                    output.spec_width() == output_width,
                    output.spec_height() == output_height,
                    input_y < input_height,
                    input_x <= input_width,
                    output_y == top_padding + input_y * multiple,
                    output_y + multiple <= output_height,
                    top_padding <= output_y,
                    output_x == left_padding + input_x * multiple,
                    forall|x: int, y: int|
                        0 <= x < output_width && 0 <= y < output_height ==> (#[trigger] output.cell(
                            x,
                            y,
                        ) == painted(
                            modules,
                            input_width as int,
                            layout,
                            input_y as int,
                            input_x as int,
                            x,
                            y,
                        )),
                decreases input_width - input_x,
            {
                proof {
                    assert((input_x + 1) * multiple == input_x * multiple + multiple) by (nonlinear_arith);
                    assert((input_x + 1) * multiple <= input_width * multiple) by (nonlinear_arith)
                        requires
                            input_x + 1 <= input_width,
                            multiple >= 0,
                    ;
                    assert(input_x * multiple >= 0) by (nonlinear_arith)
                        requires
                            input_x >= 0,
                            multiple >= 0,
                    ;
                }
                let ghost before = output;
                let black = input.get(input_x, input_y) == 1;
                if black {
                    let done = output.set_region(output_x, output_y, multiple, multiple);
                }
                proof {
                    assert forall|x: int, y: int|
                        0 <= x < output_width && 0 <= y < output_height implies (#[trigger] output.cell(
                        x,
                        y,
                    ) == painted(
                        modules,
                        input_width as int,
                        layout,
                        input_y as int,
                        input_x + 1,
                        x,
                        y,
                    )) by {
                        let here = in_module(modules, layout, input_x as int, input_y as int, x, y);
                        let was = painted(
                            modules,
                            input_width as int,
                            layout,
                            input_y as int,
                            input_x as int,
                            x,
                            y,
                        );
                        let now = painted(
                            modules,
                            input_width as int,
                            layout,
                            input_y as int,
                            input_x + 1,
                            x,
                            y,
                        );
                        assert(modules[input_y as int][input_x as int] == input.at(
                            input_x as int,
                            input_y as int,
                        ));
                        assert(output.cell(x, y) == (before.cell(x, y) || here));
                        assert(before.cell(x, y) == was);
                        if was {
                            let (ix, iy) = choose|ix: int, iy: int|
                                0 <= ix < input_width && (0 <= iy < input_y || (iy == input_y && ix
                                    < input_x)) && 0 <= iy && in_module(
                                    modules,
                                    layout,
                                    ix,
                                    iy,
                                    x,
                                    y,
                                );
                            assert(0 <= ix < input_width && (0 <= iy < input_y || (iy == input_y
                                && ix < input_x + 1)) && 0 <= iy && in_module(
                                modules,
                                layout,
                                ix,
                                iy,
                                x,
                                y,
                            ));
                        }
                        if here {
                            assert(0 <= input_x < input_width && (0 <= input_y < input_y || (
                            input_y == input_y && input_x < input_x + 1)) && 0 <= input_y
                                && in_module(modules, layout, input_x as int, input_y as int, x, y));
                        }
                        if now {
                            let (ix, iy) = choose|ix: int, iy: int|
                                0 <= ix < input_width && (0 <= iy < input_y || (iy == input_y && ix
                                    < input_x + 1)) && 0 <= iy && in_module(
                                    modules,
                                    layout,
                                    ix,
                                    iy,
                                    x,
                                    y,
                                );
                            if iy == input_y && ix == input_x {
                                assert(here);
                            } else {
                                assert(0 <= ix < input_width && (0 <= iy < input_y || (iy
                                    == input_y && ix < input_x)) && 0 <= iy && in_module(
                                    modules,
                                    layout,
                                    ix,
                                    iy,
                                    x,
                                    y,
                                ));
                                assert(was);
                            }
                        }
                    }
                }
                output_x += multiple;
                input_x += 1;
            }
            proof {
                assert forall|x: int, y: int|
                    0 <= x < output_width && 0 <= y < output_height implies (#[trigger] output.cell(
                    x,
                    y,
                ) == painted(modules, input_width as int, layout, input_y + 1, 0, x, y)) by {
                    let was = painted(
                        modules,
                        input_width as int,
                        layout,
                        input_y as int,
                        input_width as int,
                        x,
                        y,
                    );
                    let now = painted(modules, input_width as int, layout, input_y + 1, 0, x, y);
                    if was {
                        let (ix, iy) = choose|ix: int, iy: int|
                            0 <= ix < input_width && (0 <= iy < input_y || (iy == input_y && ix
                                < input_width)) && 0 <= iy && in_module(
                                modules,
                                layout,
                                ix,
                                iy,
                                x,
                                y,
                            );
                        assert(0 <= ix < input_width && (0 <= iy < input_y + 1 || (iy == input_y
                            + 1 && ix < 0)) && 0 <= iy && in_module(modules, layout, ix, iy, x, y));
                    }
                    if now {
                        let (ix, iy) = choose|ix: int, iy: int|
                            0 <= ix < input_width && (0 <= iy < input_y + 1 || (iy == input_y + 1
                                && ix < 0)) && 0 <= iy && in_module(modules, layout, ix, iy, x, y);
                        assert(0 <= ix < input_width && (0 <= iy < input_y || (iy == input_y && ix
                            < input_width)) && 0 <= iy && in_module(modules, layout, ix, iy, x, y));
                    }
                }
            }
            output_y += multiple;
            input_y += 1;
        }
        Ok(output)
    }

    /// The level of error correction for the hints: the hinted one, or L.
    pub open spec fn spec_level(hints: EncodeHints) -> ErrorCorrectionLevel {
        match hints.error_correction {
            Some(level) => level,
            None => ErrorCorrectionLevel::L,
        }
    }

    /// The quiet zone for the hints: the hinted margin, or four modules.
    pub open spec fn spec_quiet_zone(hints: EncodeHints) -> int {
        match hints.margin {
            Some(margin) => margin as int,
            None => 4,
        }
    }

    /// Whether `r` is what the writer gives for `contents`: empty contents, another
    /// format and an image without width or height are refused, and so is what the
    /// encoder refuses; else the symbol is rendered, which fails where the image
    /// would be larger than a matrix can be.
    pub open spec fn writes(
        &self,
        contents: &str,
        format: BarcodeFormat,
        width: usize,
        height: usize,
        hints: EncodeHints,
        r: Result<BitMatrix, Error>,
    ) -> bool {
        &&& (contents@.len() == 0 || format != BarcodeFormat::QRCode || width == 0 || height == 0)
            ==> r is Err
        &&& r matches Err(e) ==> e is WriterException
        &&& (contents@.len() > 0 && format == BarcodeFormat::QRCode && width > 0 && height > 0)
            ==> match self.spec_encoder().spec_encode(
            contents,
            QRCodeWriter::spec_level(hints),
            hints,
        ) {
            None => r is Err,
            Some(s) => {
                &&& r is Ok <==> (BitMatrix::fits(
                    layout_of(
                        4 * s.number + 17,
                        4 * s.number + 17,
                        width as int,
                        height as int,
                        QRCodeWriter::spec_quiet_zone(hints),
                    ).width,
                    layout_of(
                        4 * s.number + 17,
                        4 * s.number + 17,
                        width as int,
                        height as int,
                        QRCodeWriter::spec_quiet_zone(hints),
                    ).height,
                ))
                &&& r matches Ok(m) ==> QRCodeWriter::renders(
                    m,
                    s.modules,
                    4 * s.number + 17,
                    4 * s.number + 17,
                    width as int,
                    height as int,
                    QRCodeWriter::spec_quiet_zone(hints),
                )
            },
        }
    }

    /// The image of the QR code for `contents`, at least `width` wide and `height` high.
    /// Empty contents, another format and an image without width or height are refused.
    pub fn encode_symbol(
        &self,
        contents: &str,
        format: &BarcodeFormat,
        width: usize,
        height: usize,
        hints: &EncodeHints,
    ) -> (r: Result<BitMatrix, Error>)
        ensures
            self.writes(contents, *format, width, height, *hints, r),
    {
        proof {
            use_type_invariant(self);
        }
        if contents.is_empty() {
            return Err(Error::WriterException("Found empty contents.".to_owned()));
        }
        if *format != BarcodeFormat::QRCode {
            return Err(Error::WriterException("Can only encode QRCode".to_owned()));
        }
        if width == 0 || height == 0 {
            return Err(Error::WriterException("Requested dimensions are too small".to_owned()));
        }
        let error_correction_level = match hints.error_correction {
            Some(level) => level,
            None => ErrorCorrectionLevel::L,
        };
        let quiet_zone = match hints.margin {
            Some(margin) => margin,
            None => QRCodeWriter::QUIET_ZONE_SIZE,
        };
        let code = match self.encoder.encode_hints(contents, error_correction_level, hints) {
            Ok(code) => code,
            Err(e) => {
                return Err(e);
            },
        };
        self.render_result(&code, width, height, quiet_zone)
    }
}

impl Writer for QRCodeWriter {
    fn encode(&self, contents: &str, format: &BarcodeFormat, width: usize, height: usize) -> (r:
        Result<BitMatrix, Error>)
        ensures
            self.writes(contents, *format, width, height, Encoder::no_hints(), r),
    {
        let hints = EncodeHints::new();
        self.encode_symbol(contents, format, width, height, &hints)
    }

    fn encode_hints(
        &self,
        contents: &str,
        format: &BarcodeFormat,
        width: usize,
        height: usize,
        hints: &EncodeHints,
    ) -> (r: Result<BitMatrix, Error>)
        ensures
            self.writes(contents, *format, width, height, *hints, r),
    {
        self.encode_symbol(contents, format, width, height, hints)
    }
}

} // verus!
