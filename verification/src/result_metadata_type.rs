use vstd::prelude::*;

verus! {

/// The kinds of thing that a decoder can say about what it has found.
#[derive(Debug, PartialEq, Eq, Hash, Clone, Copy, Structural)]
pub enum ResultMetadataType {
    /// Something that only the application knows.
    OTHER,
    /// The orientation of the barcode in the image, in degrees.
    ORIENTATION,
    /// The bytes of the byte segments.
    ByteSegments,
    /// The level of error correction.
    ErrorCorrectionLevel,
    /// The issue number of a periodical.
    IssueNumber,
    /// The suggested retail price of a product.
    SuggestedPrice,
    /// The possible country of manufacture of a product.
    PossibleCountry,
    /// The text of the extension of a product code.
    UpcEanExtension,
    /// What PDF417 says beyond the text.
    Pdf417ExtraMetadata,
    /// The place of the symbol in a structured append.
    StructuredAppendSequence,
    /// The parity of the structured append.
    StructuredAppendParity,
    /// The symbology identifier.
    SymbologyIdentifier,
}

/// The value of a piece of metadata.
#[derive(Debug)]
pub enum ResultMetadataValue {
    STRING(String),
}

} // verus!
