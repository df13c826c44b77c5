use vstd::prelude::*;

verus! {

/// The data codewords of one block and its error correction codewords.
pub struct BlockPair {
    data_bytes: Vec<u8>,
    error_correction_bytes: Vec<u8>,
}

impl BlockPair {
    pub closed spec fn spec_data_bytes(&self) -> Seq<u8> {
        self.data_bytes@
    }

    pub closed spec fn spec_error_correction_bytes(&self) -> Seq<u8> {
        self.error_correction_bytes@
    }

    /// The pair of the given codewords.
    pub fn new(data_bytes: Vec<u8>, error_correction_bytes: Vec<u8>) -> (r: BlockPair)
        ensures
            r.spec_data_bytes() == data_bytes@,
            r.spec_error_correction_bytes() == error_correction_bytes@,
    {
        BlockPair { data_bytes, error_correction_bytes }
    }

    /// The data codewords.
    pub fn get_data_bytes(&self) -> (b: &Vec<u8>)
        ensures
            b@ == self.spec_data_bytes(),
    {
        &self.data_bytes
    }

    /// The error correction codewords.
    pub fn get_error_correction_bytes(&self) -> (b: &Vec<u8>)
        ensures
            b@ == self.spec_error_correction_bytes(),
    {
        &self.error_correction_bytes
    }
}

} // verus!
