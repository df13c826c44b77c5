use crate::common::reedsolomon::generic_gf::{gf_exp, GenericGF};
use crate::common::reedsolomon::generic_gf_poly::{
    lemma_normalize, poly_div, poly_in_field, poly_mul, poly_mul_monomial, poly_normalize,
    GenericGFPoly,
};
use crate::error::{Error, ErrorKind};
use vstd::prelude::*;

verus! {

/// Appends the error correction codewords of a block. The generator polynomials it has
/// built are kept, one for each degree from zero up.
pub struct ReedSolomonEncoder<'a> {
    field: &'a GenericGF,
    cached_generators: Vec<GenericGFPoly<'a>>,
}

/// The generator polynomial of degree `d`: the product of `x + 2^(i + base)` for `i`
/// below `d`.
pub open spec fn rs_generator(primitive: u32, size: u32, base: u32, d: nat) -> Seq<u32>
    decreases d,
{
    if d == 0 {
        seq![1u32]
    } else {
        poly_mul(
            primitive,
            size,
            rs_generator(primitive, size, base, (d - 1) as nat),
            seq![1u32, gf_exp(primitive, size, (d - 1 + base) as nat)],
        )
    }
}

/// `ec` codewords: `rem` behind as many zeros as it is short of `ec`.
pub open spec fn rs_padded(rem: Seq<u32>, ec: nat) -> Seq<u32> {
    Seq::new(ec, |i: int| if i < ec - rem.len() {
        0u32
    } else {
        rem[i - (ec - rem.len())]
    })
}

/// The `ec` error correction codewords of `data`: the remainder of `data * x^ec` by the
/// generator of degree `ec`, padded with zeros in front. The division is refused where the
/// generator is zero or the remainder comes out longer than `ec`, and it can get stuck,
/// which does not happen where the tables are those of a field.
pub open spec fn rs_parity(primitive: u32, size: u32, base: u32, data: Seq<u32>, ec: nat) -> Result<
    Seq<u32>,
    ErrorKind,
> {
    let generator = rs_generator(primitive, size, base, ec);
    let info = poly_mul_monomial(primitive, size, poly_normalize(data), ec, 1);
    if generator[0] == 0 {
        Err(ErrorKind::IllegalArgument)
    } else {
        match poly_div(primitive, size, seq![0u32], info, generator) {
            None => Err(ErrorKind::IllegalState),
            Some((q, rem)) => if rem.len() > ec {
                Err(ErrorKind::IllegalArgument)
            } else {
                Ok(rs_padded(rem, ec))
            },
        }
    }
}

/// Whether a block of `len` codewords, `ec` of them for error correction, can be encoded
/// over a field of order `size` with generator base `base`.
pub open spec fn rs_encodable(size: u32, base: u32, block: Seq<u32>, ec: nat) -> bool {
    &&& 1 <= ec < block.len()
    &&& ec - 1 + base < size
    &&& poly_in_field(block.subrange(0, block.len() - ec), size)
}

impl<'a> ReedSolomonEncoder<'a> {
    /// The field of the codewords.
    pub closed spec fn spec_field(&self) -> &'a GenericGF {
        self.field
    }

    /// The generators kept so far, by degree.
    pub closed spec fn cached(&self) -> Seq<GenericGFPoly<'a>> {
        self.cached_generators@
    }

    /// The field is well formed, and the generator kept for a degree is the generator of
    /// that degree.
    pub open spec fn wf(&self) -> bool {
        &&& self.spec_field().wf()
        &&& 1 <= self.cached().len() <= self.spec_field().spec_size() + 1
        &&& self.cached().len() >= 2 ==> self.cached().len() - 2
            + self.spec_field().spec_generator_base() < self.spec_field().spec_size()
        &&& forall|d: int|
            0 <= d < self.cached().len() ==> {
                &&& (#[trigger] self.cached()[d]).wf()
                &&& self.cached()[d].spec_field() == self.spec_field()
                &&& self.cached()[d]@.len() <= d + 1
                &&& self.cached()[d]@ == rs_generator(
                    self.spec_field().spec_primitive(),
                    self.spec_field().spec_size(),
                    self.spec_field().spec_generator_base(),
                    d as nat,
                )
            }
    }

    /// An encoder over `field`, which keeps the generator of degree zero.
    pub fn new(field: &'a GenericGF) -> (r: Result<ReedSolomonEncoder<'a>, Error>)
        requires
            field.wf(),
        ensures
            r matches Ok(e) && e.wf() && e.spec_field() == field && e.cached().len() == 1,
    {
        let mut cached_generators: Vec<GenericGFPoly<'a>> = Vec::new();
        cached_generators.push(field.get_one());
        proof {
            field.lemma_order();
        }
        Ok(ReedSolomonEncoder { field, cached_generators })
    }

    /// The generator polynomial of the given degree, built from the last one kept where
    /// it is not there yet. A degree whose last root has an exponent beyond the field's
    /// table is refused.
    pub fn build_generator(&mut self, degree: usize) -> (r: Result<GenericGFPoly<'a>, Error>)
        requires
            old(self).wf(),
        ensures
            final(self).wf(),
            final(self).spec_field() == old(self).spec_field(),
            final(self).cached().len() >= old(self).cached().len(),
            r is Ok <==> (degree == 0 || degree - 1 + old(self).spec_field().spec_generator_base()
                < old(self).spec_field().spec_size()),
            r matches Ok(g) ==> g.wf() && g.spec_field() == old(self).spec_field() && g@.len()
                <= degree + 1 && g@ == rs_generator(
                old(self).spec_field().spec_primitive(),
                old(self).spec_field().spec_size(),
                old(self).spec_field().spec_generator_base(),
                degree as nat,
            ),
            r matches Err(e) ==> e is IllegalArgumentException,
    {
        let size = self.field.get_size();
        let base = self.field.get_generator_base();
        if degree >= 1 && (degree - 1 >= size as usize || (degree - 1) as u32 >= size - base.min(
            size,
        ) || base >= size) {
            return Err(Error::IllegalArgumentException("Build generator error".to_owned()));
        }
        if degree >= self.cached_generators.len() {
            let mut d: usize = self.cached_generators.len();
            while d <= degree
                invariant
                    self.wf(),
                    self.field == old(self).field,
                    size == self.field.spec_size(),
                    base == self.field.spec_generator_base(),
                    d == self.cached_generators@.len(),
                    self.cached_generators@.len() >= old(self).cached_generators@.len(),
                    1 <= d <= degree + 1,
                    degree - 1 + base < size,
                decreases degree + 1 - d,
            {
                let e = match self.field.exp((d - 1) as u32 + base) {
                    Ok(e) => e,
                    Err(err) => {
                        return Err(err);
                    },
                };
                let mut pair: Vec<u32> = Vec::new();
                pair.push(1);
                pair.push(e);
                proof {
                    self.field.lemma_order();
                    assert(pair@ =~= seq![1u32, e]);
                    lemma_normalize(pair@);
                }
                let other = GenericGFPoly::from_elements(self.field, pair);
                let last_generator = &self.cached_generators[d - 1];
                assert(last_generator@.len() <= d);
                let next_generator = match last_generator.multiply_by_other(&other) {
                    Ok(g) => g,
                    Err(err) => {
                        return Err(err);
                    },
                };
                proof {
                    let raw = Seq::new(
                        (last_generator@.len() + 2 - 1) as nat,
                        |k: int|
                            crate::common::reedsolomon::generic_gf_poly::conv_upto(
                                self.field.spec_primitive(),
                                size,
                                last_generator@,
                                other@,
                                k,
                                last_generator@.len(),
                            ),
                    );
                    lemma_normalize(raw);
                }
                self.cached_generators.push(next_generator);
                d += 1;
            }
        }
        Ok(self.cached_generators[degree].clone())
    }

    /// Fills the last `ec_bytes` places of `to_encode` with the error correction codewords
    /// of the codewords before them. Nothing changes where the call fails.
    pub fn encode(&mut self, to_encode: &mut Vec<u32>, ec_bytes: usize) -> (r: Result<(), Error>)
        requires
            old(self).wf(),
            old(to_encode)@.len() <= GenericGFPoly::MAX_LEN,
        ensures
            final(self).wf(),
            final(self).spec_field() == old(self).spec_field(),
            final(to_encode)@.len() == old(to_encode)@.len(),
            r is Ok ==> forall|j: int|
                #![trigger final(to_encode)@[j]]
                old(to_encode)@.len() - ec_bytes <= j < old(to_encode)@.len()
                    ==> final(to_encode)@[j] < old(self).spec_field().spec_size(),
            !rs_encodable(
                old(self).spec_field().spec_size(),
                old(self).spec_field().spec_generator_base(),
                old(to_encode)@,
                ec_bytes as nat,
            ) ==> (r matches Err(e) && e is IllegalArgumentException && final(to_encode)@ == old(
                to_encode,
            )@),
            rs_encodable(
                old(self).spec_field().spec_size(),
                old(self).spec_field().spec_generator_base(),
                old(to_encode)@,
                ec_bytes as nat,
            ) ==> match rs_parity(
                old(self).spec_field().spec_primitive(),
                old(self).spec_field().spec_size(),
                old(self).spec_field().spec_generator_base(),
                old(to_encode)@.subrange(0, old(to_encode)@.len() - ec_bytes),
                ec_bytes as nat,
            ) {
                Ok(parity) => r is Ok && final(to_encode)@ == old(to_encode)@.subrange(
                    0,
                    old(to_encode)@.len() - ec_bytes,
                ) + parity,
                Err(kind) => r matches Err(e) && e.spec_kind() == kind && final(to_encode)@ == old(
                    to_encode,
                )@,
            },
    {
        if ec_bytes == 0 {
            return Err(Error::IllegalArgumentException("No error correction bytes".to_owned()));
        }
        if to_encode.len() <= ec_bytes {
            return Err(Error::IllegalArgumentException("No data bytes provided".to_owned()));
        }
        let data_bytes: usize = to_encode.len() - ec_bytes;
        let ghost data = to_encode@.subrange(0, data_bytes as int);
        let generator = match self.build_generator(ec_bytes) {
            Ok(g) => g,
            Err(e) => {
                return Err(e);
            },
        };
        let mut info_coefficients: Vec<u32> = Vec::new();
        let mut i: usize = 0;
        while i < data_bytes
            invariant
                i <= data_bytes,
                data_bytes <= to_encode@.len(),
                info_coefficients@ == to_encode@.subrange(0, i as int),
            decreases data_bytes - i,
        {
            info_coefficients.push(to_encode[i]);
            proof {
                assert(info_coefficients@ =~= to_encode@.subrange(0, i + 1));
            }
            i += 1;
        }
        let info = match GenericGFPoly::new(self.field, info_coefficients) {
            Ok(p) => p,
            Err(e) => {
                return Err(e);
            },
        };
        proof {
            lemma_normalize(data);
            self.field.lemma_order();
        }
        let info = info.times_monomial(ec_bytes, 1);
        if generator.is_zero() {
            return Err(Error::IllegalArgumentException("Divide by 0".to_owned()));
        }
        let parts = match info.divide(&generator) {
            Ok(v) => v,
            Err(e) => {
                return Err(e);
            },
        };
        let remainder = &parts[1];
        let coefficients = remainder.get_coefficients();
        if coefficients.len() > ec_bytes {
            return Err(Error::IllegalArgumentException("Error num zero coefficients".to_owned()));
        }
        let num_zero_coefficients: usize = ec_bytes - coefficients.len();
        let ghost before = to_encode@;
        let ghost parity = rs_padded(coefficients@, ec_bytes as nat);
        let ghost size = self.field.spec_size();
        let mut k: usize = 0;
        while k < ec_bytes
            invariant
                k <= ec_bytes,
                data_bytes + ec_bytes == to_encode@.len(),
                to_encode@.len() == before.len(),
                before.len() <= GenericGFPoly::MAX_LEN,
                num_zero_coefficients == ec_bytes - coefficients@.len(),
                coefficients@.len() <= ec_bytes,
                parity == rs_padded(coefficients@, ec_bytes as nat),
                size >= 1,
                poly_in_field(coefficients@, size),
                forall|j: int| 0 <= j < k ==> #[trigger] to_encode@[data_bytes + j] < size,
                forall|j: int| 0 <= j < data_bytes ==> to_encode@[j] == before[j],
                forall|j: int| 0 <= j < k ==> #[trigger] to_encode@[data_bytes + j] == parity[j],
            decreases ec_bytes - k,
        {
            if k < num_zero_coefficients {
                to_encode[data_bytes + k] = 0;
            } else {
                to_encode[data_bytes + k] = coefficients[k - num_zero_coefficients];
            }
            k += 1;
        }
        proof {
            let joined = before.subrange(0, data_bytes as int) + parity;
            assert forall|j: int| 0 <= j < to_encode@.len() implies to_encode@[j] == joined[j] by {
                if j >= data_bytes {
                    assert(to_encode@[data_bytes + (j - data_bytes)] == parity[j - data_bytes]);
                }
            }
            assert(to_encode@ =~= before.subrange(0, data_bytes as int) + parity);
            assert forall|j: int| before.len() - ec_bytes <= j < before.len() implies #[trigger] to_encode@[j]
                < size by {
                assert(to_encode@[data_bytes + (j - data_bytes)] < size);
            }
        }
        Ok(())
    }
}

} // verus!
