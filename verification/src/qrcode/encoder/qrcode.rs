use crate::qrcode::decoder::error_correction_level::ErrorCorrectionLevel;
use crate::qrcode::decoder::mode::Mode;
use crate::qrcode::decoder::version::Version;
use crate::qrcode::encoder::byte_matrix::ByteMatrix;
use vstd::prelude::*;

verus! {

/// A symbol as the encoder describes it: the mode of its segment, its level of error
/// correction, its version, the mask applied and the modules.
pub struct QRCode<'a> {
    mode: Mode,
    ec_level: ErrorCorrectionLevel,
    version: &'a Version,
    mask_pattern: i32,
    matrix: ByteMatrix,
}

impl<'a> QRCode<'a> {
    /// The number of masks there are.
    pub const NUM_MASK_PATTERNS: i32 = 8;

    pub closed spec fn spec_mode(&self) -> Mode {
        self.mode
    }

    pub closed spec fn spec_ec_level(&self) -> ErrorCorrectionLevel {
        self.ec_level
    }

    pub closed spec fn spec_version(&self) -> &'a Version {
        self.version
    }

    pub closed spec fn spec_mask_pattern(&self) -> i32 {
        self.mask_pattern
    }

    pub closed spec fn spec_matrix(&self) -> ByteMatrix {
        self.matrix
    }

    /// The description made of its five parts.
    pub fn new(
        mode: Mode,
        ec_level: ErrorCorrectionLevel,
        version: &'a Version,
        mask_pattern: i32,
        matrix: ByteMatrix,
    ) -> (r: QRCode<'a>)
        ensures
            r.spec_mode() == mode,
            r.spec_ec_level() == ec_level,
            r.spec_version() == version,
            r.spec_mask_pattern() == mask_pattern,
            r.spec_matrix() == matrix,
    {
        QRCode { mode, ec_level, version, mask_pattern, matrix }
    }

    /// The mode of the segment.
    pub fn get_mode(&self) -> (m: &Mode)
        ensures
            *m == self.spec_mode(),
    {
        &self.mode
    }

    /// The level of error correction.
    pub fn get_ec_level(&self) -> (l: &ErrorCorrectionLevel)
        ensures
            *l == self.spec_ec_level(),
    {
        &self.ec_level
    }

    /// The version.
    pub fn get_version(&self) -> (v: &Version)
        ensures
            v == self.spec_version(),
    {
        self.version
    }

    /// The number of the mask applied.
    pub fn get_mask_pattern(&self) -> (m: i32)
        ensures
            m == self.spec_mask_pattern(),
    {
        self.mask_pattern
    }

    /// The modules: 1 for a black one, 0 for a white one.
    pub fn get_matrix(&self) -> (m: &ByteMatrix)
        ensures
            *m == self.spec_matrix(),
    {
        &self.matrix
    }

    /// Whether `mask_pattern` is the number of a mask, one of 0 to 7.
    pub fn is_valid_mask_pattern(mask_pattern: i32) -> (b: bool)
        ensures
            b == (0 <= mask_pattern < QRCode::NUM_MASK_PATTERNS),
    {
        if mask_pattern < 0 {
            return false;
        }
        mask_pattern < QRCode::NUM_MASK_PATTERNS
    }
}

} // verus!
