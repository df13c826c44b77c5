#![allow(non_snake_case)]

use crate::common::bit_lemmas::lemma_xor_bound;
use crate::common::reedsolomon::generic_gf::{
    gf_exp, gf_inv, gf_log, gf_mul, is_field_order, GenericGF,
};
use crate::common::reedsolomon::generic_gf_poly::{
    poly_add, poly_coef, poly_div, poly_eval, poly_in_field, poly_monomial, poly_mul,
    poly_normalize, poly_scale, GenericGFPoly,
};
use crate::error::{Error, ErrorKind};
use vstd::prelude::*;

verus! {

/// Finds and repairs wrong codewords of a block by its error correction codewords.
pub struct ReedSolomonDecoder<'a> {
    field: &'a GenericGF,
}

/// A field by its primitive polynomial, its order and its generator base.
pub struct FieldSpec {
    pub primitive: u32,
    pub size: u32,
    pub base: u32,
}

/// The syndromes of the received codewords as the coefficients of a polynomial: the
/// value of the codewords, taken as a polynomial, at `2^(i + base)` stands at the power
/// `i`, for `i` below `two_s`.
pub open spec fn rs_syndromes(f: FieldSpec, received: Seq<u32>, two_s: nat) -> Seq<u32> {
    Seq::new(
        two_s,
        |k: int|
            poly_eval(
                f.primitive,
                f.size,
                poly_normalize(received),
                gf_exp(f.primitive, f.size, (two_s - 1 - k + f.base) as nat),
            ),
    )
}

/// The error locator and the error evaluator that the Euclidean algorithm gives from the
/// state `r_last`, `r`, `t_last`, `t`, run until the degree of `r` is below half of
/// `two_s`. The algorithm fails where `r` comes out zero too early or where the locator
/// has no constant term; it can get stuck in a division, which does not happen where the
/// tables are those of a field.
pub open spec fn rs_euclid(
    f: FieldSpec,
    r_last: Seq<u32>,
    r: Seq<u32>,
    t_last: Seq<u32>,
    t: Seq<u32>,
    two_s: int,
) -> Result<(Seq<u32>, Seq<u32>), ErrorKind>
    decreases r.len(),
{
    if 2 * (r.len() - 1) >= two_s {
        if r.len() == 0 || r[0] == 0 {
            Err(ErrorKind::ReedSolomon)
        } else {
            match poly_div(f.primitive, f.size, seq![0u32], r_last, r) {
                None => Err(ErrorKind::IllegalState),
                Some((q, rem)) => if rem.len() >= r.len() {
                    Err(ErrorKind::IllegalState)
                } else {
                    rs_euclid(
                        f,
                        r,
                        rem,
                        t,
                        poly_add(poly_mul(f.primitive, f.size, q, t), t_last),
                        two_s,
                    )
                },
            }
        }
    } else {
        let sigma_tilde_at_zero = poly_coef(t, 0);
        if sigma_tilde_at_zero == 0 {
            Err(ErrorKind::ReedSolomon)
        } else {
            let inverse = gf_inv(f.primitive, f.size, sigma_tilde_at_zero);
            Ok((poly_scale(f.primitive, f.size, t, inverse), poly_scale(f.primitive, f.size, r, inverse)))
        }
    }
}

/// The inverses of the roots of the error locator among the elements from 1 up to but
/// without `up_to`, as far as the locator has degree for them.
pub open spec fn rs_roots(f: FieldSpec, sigma: Seq<u32>, up_to: nat) -> Seq<u32>
    decreases up_to,
{
    if up_to <= 1 {
        Seq::empty()
    } else {
        let before = rs_roots(f, sigma, (up_to - 1) as nat);
        if before.len() < sigma.len() - 1 && poly_eval(f.primitive, f.size, sigma, (up_to - 1) as u32)
            == 0 {
            before.push(gf_inv(f.primitive, f.size, (up_to - 1) as u32))
        } else {
            before
        }
    }
}

/// The error locations: for a locator of degree one its leading coefficient, else the
/// inverses of its roots, of which there must be as many as it has degree.
pub open spec fn rs_locations(f: FieldSpec, sigma: Seq<u32>) -> Result<Seq<u32>, ErrorKind> {
    if sigma.len() == 2 {
        Ok(seq![sigma[0]])
    } else if rs_roots(f, sigma, f.size as nat).len() != sigma.len() - 1 {
        Err(ErrorKind::ReedSolomon)
    } else {
        Ok(rs_roots(f, sigma, f.size as nat))
    }
}

/// The product, over the first `n` locations but the `i`-th, of one plus the location
/// times the inverse of the `i`-th.
pub open spec fn rs_denominator(f: FieldSpec, locations: Seq<u32>, i: int, n: nat) -> u32
    decreases n,
{
    if n == 0 {
        1
    } else {
        let before = rs_denominator(f, locations, i, (n - 1) as nat);
        if n - 1 == i {
            before
        } else {
            gf_mul(
                f.primitive,
                f.size,
                before,
                gf_mul(
                    f.primitive,
                    f.size,
                    locations[n - 1],
                    gf_inv(f.primitive, f.size, locations[i]),
                ) ^ 1,
            )
        }
    }
}

/// The magnitude of the error at the `i`-th location, by Forney's formula.
pub open spec fn rs_magnitude(f: FieldSpec, omega: Seq<u32>, locations: Seq<u32>, i: int) -> u32 {
    let xi_inverse = gf_inv(f.primitive, f.size, locations[i]);
    let plain = gf_mul(
        f.primitive,
        f.size,
        poly_eval(f.primitive, f.size, omega, xi_inverse),
        gf_inv(f.primitive, f.size, rs_denominator(f, locations, i, locations.len())),
    );
    if f.base != 0 {
        gf_mul(f.primitive, f.size, plain, xi_inverse)
    } else {
        plain
    }
}

/// Whether the magnitude at the `i`-th location can be formed: the location and the
/// denominator have inverses.
pub open spec fn rs_magnitude_defined(f: FieldSpec, locations: Seq<u32>, i: int) -> bool {
    locations[i] != 0 && rs_denominator(f, locations, i, locations.len()) != 0
}

/// The place of the codeword that the location stands for, counted from the first
/// codeword.
pub open spec fn rs_position(f: FieldSpec, length: int, location: u32) -> int {
    length - 1 - gf_log(f.primitive, f.size, location)
}

/// The codewords with the first `n` errors repaired.
pub open spec fn rs_corrected(
    f: FieldSpec,
    received: Seq<u32>,
    omega: Seq<u32>,
    locations: Seq<u32>,
    n: nat,
) -> Seq<u32>
    decreases n,
{
    if n == 0 {
        received
    } else {
        let before = rs_corrected(f, received, omega, locations, (n - 1) as nat);
        let position = rs_position(f, received.len() as int, locations[n - 1]);
        before.update(position, before[position] ^ rs_magnitude(f, omega, locations, n - 1))
    }
}

/// The codewords repaired, or the way in which the repair fails.
pub open spec fn rs_decoded(f: FieldSpec, received: Seq<u32>, two_s: nat) -> Result<Seq<u32>, ErrorKind> {
    if received.len() == 0 || !poly_in_field(received, f.size) || (two_s >= 1 && two_s - 1
        + f.base >= f.size) {
        Err(ErrorKind::IllegalArgument)
    } else {
        let syndromes = rs_syndromes(f, received, two_s);
        if forall|k: int| 0 <= k < two_s ==> #[trigger] syndromes[k] == 0 {
            Ok(received)
        } else {
            match rs_euclid(
                f,
                poly_monomial(two_s, 1),
                poly_normalize(syndromes),
                seq![0u32],
                seq![1u32],
                two_s as int,
            ) {
                Err(kind) => Err(kind),
                Ok((sigma, omega)) => match rs_locations(f, sigma) {
                    Err(kind) => Err(kind),
                    Ok(locations) => if exists|i: int|
                        0 <= i < locations.len() && !rs_magnitude_defined(f, locations, i) {
                        Err(ErrorKind::Arithmetic)
                    } else if exists|i: int|
                        0 <= i < locations.len() && rs_position(
                            f,
                            received.len() as int,
                            #[trigger] locations[i],
                        ) < 0 {
                        Err(ErrorKind::ReedSolomon)
                    } else {
                        Ok(rs_corrected(f, received, omega, locations, locations.len()))
                    },
                },
            }
        }
    }
}

impl<'a> ReedSolomonDecoder<'a> {
    pub closed spec fn spec_field(&self) -> &'a GenericGF {
        self.field
    }

    /// The field of the decoder by its primitive polynomial, order and generator base.
    pub open spec fn field_spec(&self) -> FieldSpec {
        FieldSpec {
            primitive: self.spec_field().spec_primitive(),
            size: self.spec_field().spec_size(),
            base: self.spec_field().spec_generator_base(),
        }
    }

    /// The greatest number of codewords of a block that is decoded.
    pub const MAX_BLOCK: usize = 0x10_0000;

    /// The decoder over `field`.
    pub fn new(field: &'a GenericGF) -> (d: ReedSolomonDecoder<'a>)
        ensures
            d.spec_field() == field,
    {
        ReedSolomonDecoder { field }
    }

    /// Repairs the wrong codewords among `received`, of which the last `twoS` are error
    /// correction codewords. Where the repair fails, the codewords stay as they are.
    pub fn decode(&self, received: &mut Vec<u32>, twoS: usize) -> (r: Result<(), Error>)
        requires
            self.spec_field().wf(),
            old(received)@.len() <= ReedSolomonDecoder::MAX_BLOCK,
            twoS <= ReedSolomonDecoder::MAX_BLOCK,
        ensures
            final(received)@.len() == old(received)@.len(),
            match rs_decoded(self.field_spec(), old(received)@, twoS as nat) {
                Ok(codewords) => r is Ok && final(received)@ == codewords,
                Err(kind) => r matches Err(e) && e.spec_kind() == kind && final(received)@ == old(
                    received,
                )@,
            },
    {
        let ghost f = self.field_spec();
        let ghost input = received@;
        let size = self.field.get_size();
        let base = self.field.get_generator_base();
        proof {
            self.field.lemma_order();
        }
        let mut copy: Vec<u32> = Vec::new();
        let mut i: usize = 0;
        while i < received.len()
            invariant
                i <= received@.len(),
                received@ == input,
                copy@ == input.subrange(0, i as int),
            decreases received@.len() - i,
        {
            copy.push(received[i]);
            proof {
                assert(copy@ =~= input.subrange(0, i + 1));
            }
            i += 1;
        }
        proof {
            assert(input.subrange(0, input.len() as int) =~= input);
        }
        let poly = match GenericGFPoly::new(self.field, copy) {
            Ok(poly) => poly,
            Err(e) => {
                return Err(e);
            },
        };
        if twoS >= 1 && (twoS - 1 >= size as usize || base >= size || (twoS - 1) as u32 >= size
            - base) {
            return Err(Error::IllegalArgumentException("Too many syndromes".to_owned()));
        }
        let ghost syndromes = rs_syndromes(f, input, twoS as nat);
        let mut syndromeCoefficients: Vec<u32> = vec![0u32; twoS];
        let mut noError = true;
        let mut i: usize = 0;
        while i < twoS
            invariant
                i <= twoS,
                self.spec_field().wf(),
                f == self.field_spec(),
                size == f.size,
                base == f.base,
                twoS >= 1 ==> twoS - 1 + base < size,
                poly.wf(),
                poly.spec_field() == self.spec_field(),
                poly@ == poly_normalize(input),
                syndromes == rs_syndromes(f, input, twoS as nat),
                syndromeCoefficients@.len() == twoS,
                forall|k: int|
                    twoS - i <= k < twoS ==> #[trigger] syndromeCoefficients@[k] == syndromes[k],
                forall|k: int| 0 <= k < twoS ==> #[trigger] syndromeCoefficients@[k] < size,
                noError == forall|k: int| twoS - i <= k < twoS ==> #[trigger] syndromes[k] == 0,
            decreases twoS - i,
        {
            let point = match self.field.exp(i as u32 + base) {
                Ok(point) => point,
                Err(e) => {
                    return Err(e);
                },
            };
            let eval = match poly.evaluate_at(point) {
                Ok(eval) => eval,
                Err(e) => {
                    return Err(e);
                },
            };
            syndromeCoefficients[twoS - 1 - i] = eval;
            if eval != 0 {
                noError = false;
                proof {
                    assert(syndromes[twoS - 1 - i] != 0);
                }
            }
            i += 1;
        }
        if noError {
            return Ok(());
        }
        proof {
            assert(syndromeCoefficients@ =~= syndromes);
        }
        let syndrome = GenericGFPoly::from_elements(self.field, syndromeCoefficients);
        let monomial = GenericGFPoly::monomial(self.field, twoS, 1);
        proof {
            crate::common::reedsolomon::generic_gf_poly::lemma_normalize(syndromes);
        }
        let sigmaOmega = match self.runEuclideanAlgorithm(monomial, syndrome, twoS) {
            Ok(sigmaOmega) => sigmaOmega,
            Err(e) => {
                return Err(e);
            },
        };
        let sigma = sigmaOmega.0;
        let omega = sigmaOmega.1;
        let errorLocations = match self.findErrorLocations(&sigma) {
            Ok(errorLocations) => errorLocations,
            Err(e) => {
                return Err(e);
            },
        };
        let errorMagnitudes = match self.findErrorMagnitudes(&omega, &errorLocations) {
            Ok(errorMagnitudes) => errorMagnitudes,
            Err(e) => {
                return Err(e);
            },
        };
        // The places of the errors are looked up before anything is repaired.
        let length = received.len();
        let mut positions: Vec<usize> = Vec::new();
        let mut i: usize = 0;
        proof {
            assert forall|k: int| 0 <= k < errorLocations@.len() implies 0
                < #[trigger] errorLocations@[k] < f.size by {
                assert(errorMagnitudes@[k] == rs_magnitude(f, omega@, errorLocations@, k));
            }
            assert forall|k: int| 0 <= k < errorLocations@.len() implies #[trigger] rs_magnitude_defined(
                f,
                errorLocations@,
                k,
            ) by {}
            assert(rs_decoded(f, input, twoS as nat) == ReedSolomonDecoder::repaired(
                f,
                input,
                omega@,
                errorLocations@,
            ));
        }
        while i < errorLocations.len()
            invariant
                i <= errorLocations@.len(),
                self.spec_field().wf(),
                f == self.field_spec(),
                received@ == input,
                length == input.len(),
                length >= 1,
                rs_decoded(f, input, twoS as nat) == ReedSolomonDecoder::repaired(
                    f,
                    input,
                    omega@,
                    errorLocations@,
                ),
                forall|k: int|
                    0 <= k < errorLocations@.len() ==> #[trigger] rs_magnitude_defined(
                        f,
                        errorLocations@,
                        k,
                    ),
                forall|k: int|
                    0 <= k < errorLocations@.len() ==> 0 < #[trigger] errorLocations@[k] < f.size,
                positions@.len() == i,
                forall|k: int|
                    0 <= k < i ==> #[trigger] positions@[k] == rs_position(
                        f,
                        length as int,
                        errorLocations@[k],
                    ) && positions@[k] < length,
                forall|k: int|
                    0 <= k < i ==> rs_position(f, length as int, #[trigger] errorLocations@[k])
                        >= 0,
            decreases errorLocations@.len() - i,
        {
            let log = match self.field.log(errorLocations[i]) {
                Ok(log) => log as usize,
                Err(e) => {
                    return Err(e);
                },
            };
            if log > length - 1 {
                proof {
                    assert(rs_position(f, length as int, errorLocations@[i as int]) < 0);
                }
                return Err(Error::ReedSolomonException("Bad error location".to_owned()));
            }
            positions.push(length - 1 - log);
            i += 1;
        }
        let mut i: usize = 0;
        while i < errorLocations.len()
            invariant
                i <= errorLocations@.len(),
                f == self.field_spec(),
                is_field_order(f.size),
                length == input.len(),
                received@.len() == length,
                positions@.len() == errorLocations@.len(),
                errorMagnitudes@.len() == errorLocations@.len(),
                rs_decoded(f, input, twoS as nat) == ReedSolomonDecoder::repaired(
                    f,
                    input,
                    omega@,
                    errorLocations@,
                ),
                forall|k: int|
                    0 <= k < errorLocations@.len() ==> rs_position(
                        f,
                        length as int,
                        #[trigger] errorLocations@[k],
                    ) >= 0,
                forall|k: int|
                    0 <= k < errorLocations@.len() ==> #[trigger] positions@[k] == rs_position(
                        f,
                        length as int,
                        errorLocations@[k],
                    ) && positions@[k] < length,
                forall|k: int|
                    0 <= k < errorLocations@.len() ==> #[trigger] errorMagnitudes@[k]
                        == rs_magnitude(f, omega@, errorLocations@, k),
                received@ == rs_corrected(f, input, omega@, errorLocations@, i as nat),
            decreases errorLocations@.len() - i,
        {
            let position = positions[i];
            let old_value = received[position];
            received[position] = GenericGF::add_or_subtract(old_value, errorMagnitudes[i]);
            i += 1;
        }
        Ok(())
    }

    /// The codewords with the errors at the locations repaired, where every location
    /// stands for a place among the codewords.
    pub open spec fn repaired(f: FieldSpec, received: Seq<u32>, omega: Seq<u32>, locations: Seq<u32>) -> Result<
        Seq<u32>,
        ErrorKind,
    > {
        if exists|i: int|
            0 <= i < locations.len() && rs_position(
                f,
                received.len() as int,
                #[trigger] locations[i],
            ) < 0 {
            Err(ErrorKind::ReedSolomon)
        } else {
            Ok(rs_corrected(f, received, omega, locations, locations.len()))
        }
    }

    /// The error locator and the error evaluator for the syndromes `b`, by the Euclidean
    /// algorithm on `a`, which is `x^R`, and `b`.
    pub fn runEuclideanAlgorithm(&self, a: GenericGFPoly<'a>, b: GenericGFPoly<'a>, R: usize) -> (r:
        Result<(GenericGFPoly<'a>, GenericGFPoly<'a>), Error>)
        requires
            self.spec_field().wf(),
            a.wf(),
            b.wf(),
            a.spec_field() == self.spec_field(),
            b.spec_field() == self.spec_field(),
            b@.len() <= a@.len() <= R + 1,
            R <= ReedSolomonDecoder::MAX_BLOCK,
        ensures
            match rs_euclid(self.field_spec(), a@, b@, seq![0u32], seq![1u32], R as int) {
                Ok((sigma, omega)) => r matches Ok(pair) && pair.0@ == sigma && pair.1@ == omega
                    && pair.0.wf() && pair.1.wf() && pair.0.spec_field() == self.spec_field()
                    && pair.1.spec_field() == self.spec_field(),
                Err(kind) => r matches Err(e) && e.spec_kind() == kind,
            },
    {
        let ghost f = self.field_spec();
        proof {
            self.field.lemma_order();
        }
        let mut rLast = a;
        let mut r = b;
        let mut tLast = self.field.get_zero();
        let mut t = self.field.get_one();
        // The algorithm runs until the degree of r is below half of R.
        while 2 * (r.coefficients_len() - 1) >= R
            invariant
                self.spec_field().wf(),
                f == self.field_spec(),
                R <= ReedSolomonDecoder::MAX_BLOCK,
                rLast.wf(),
                r.wf(),
                tLast.wf(),
                t.wf(),
                rLast.spec_field() == self.spec_field(),
                r.spec_field() == self.spec_field(),
                tLast.spec_field() == self.spec_field(),
                t.spec_field() == self.spec_field(),
                r@.len() <= rLast@.len() <= R + 1,
                t@.len() + rLast@.len() <= R + 2,
                tLast@.len() + rLast@.len() <= R + 2,
                rs_euclid(f, a@, b@, seq![0u32], seq![1u32], R as int) == rs_euclid(
                    f,
                    rLast@,
                    r@,
                    tLast@,
                    t@,
                    R as int,
                ),
            decreases r@.len(),
        {
            // r is divided into the r before it.
            if r.is_zero() {
                // The algorithm has come to its end too early.
                return Err(Error::ReedSolomonException("r_{i-1} was zero".to_owned()));
            }
            let mut parts = match rLast.divide(&r) {
                Ok(parts) => parts,
                Err(e) => {
                    return Err(e);
                },
            };
            let remainder = match parts.pop() {
                Some(remainder) => remainder,
                None => {
                    return Err(Error::IllegalStateException("No remainder".to_owned()));
                },
            };
            let q = match parts.pop() {
                Some(q) => q,
                None => {
                    return Err(Error::IllegalStateException("No quotient".to_owned()));
                },
            };
            let product = match q.multiply_by_other(&t) {
                Ok(product) => product,
                Err(e) => {
                    return Err(e);
                },
            };
            let next = product.sum(&tLast);
            if remainder.coefficients_len() >= r.coefficients_len() {
                return Err(
                    Error::IllegalStateException(
                        "Division algorithm failed to reduce polynomial?".to_owned(),
                    ),
                );
            }
            rLast = r;
            r = remainder;
            tLast = t;
            t = next;
        }
        let sigmaTildeAtZero = t.get_coefficient(0);
        if sigmaTildeAtZero == 0 {
            return Err(Error::ReedSolomonException("sigmaTilde(0) was zero".to_owned()));
        }
        let inverse = match self.field.inverse(sigmaTildeAtZero) {
            Ok(inverse) => inverse,
            Err(e) => {
                return Err(e);
            },
        };
        let sigma = match t.multiply_by_scalar(inverse) {
            Ok(sigma) => sigma,
            Err(e) => {
                return Err(e);
            },
        };
        let omega = match r.multiply_by_scalar(inverse) {
            Ok(omega) => omega,
            Err(e) => {
                return Err(e);
            },
        };
        Ok((sigma, omega))
    }

    /// The error locations for the error locator: the inverses of its roots among the
    /// elements of the field but zero, by trying them all. A locator with fewer roots than
    /// it has degree is refused.
    pub fn findErrorLocations(&self, errorLocator: &GenericGFPoly<'a>) -> (r: Result<Vec<u32>, Error>)
        requires
            self.spec_field().wf(),
            errorLocator.wf(),
            errorLocator.spec_field() == self.spec_field(),
        ensures
            match rs_locations(self.field_spec(), errorLocator@) {
                Ok(locations) => r matches Ok(v) && v@ == locations && forall|k: int|
                    0 <= k < v@.len() ==> #[trigger] v@[k] < self.spec_field().spec_size(),
                Err(kind) => r matches Err(e) && e.spec_kind() == kind,
            },
    {
        let ghost f = self.field_spec();
        let numErrors = errorLocator.get_degree();
        if numErrors == 1 {
            let mut result: Vec<u32> = Vec::new();
            result.push(errorLocator.get_coefficient(1));
            proof {
                assert(result@ =~= seq![errorLocator@[0]]);
            }
            return Ok(result);
        }
        let size = self.field.get_size();
        proof {
            self.field.lemma_order();
        }
        let mut result: Vec<u32> = Vec::new();
        let mut i: u32 = 1;
        while i < size && result.len() < numErrors
            invariant
                self.spec_field().wf(),
                f == self.field_spec(),
                size == f.size,
                errorLocator.wf(),
                errorLocator.spec_field() == self.spec_field(),
                numErrors == errorLocator@.len() - 1,
                1 <= i <= size,
                result@ == rs_roots(f, errorLocator@, i as nat),
                result@.len() <= numErrors,
                forall|k: int| 0 <= k < result@.len() ==> #[trigger] result@[k] < size,
            decreases size - i,
        {
            let value = match errorLocator.evaluate_at(i) {
                Ok(value) => value,
                Err(e) => {
                    return Err(e);
                },
            };
            if value == 0 {
                let inverse = match self.field.inverse(i) {
                    Ok(inverse) => inverse,
                    Err(e) => {
                        return Err(e);
                    },
                };
                result.push(inverse);
            }
            i += 1;
        }
        proof {
            ReedSolomonDecoder::lemma_roots_full(f, errorLocator@, i as nat, size as nat);
        }
        if result.len() != numErrors {
            return Err(
                Error::ReedSolomonException(
                    "Error locator degree does not match number of roots".to_owned(),
                ),
            );
        }
        Ok(result)
    }

    /// Once there are as many roots as the locator has degree, no more are taken.
    pub proof fn lemma_roots_full(f: FieldSpec, sigma: Seq<u32>, from: nat, to: nat)
        requires
            from <= to,
            from >= 1,
            rs_roots(f, sigma, from).len() >= sigma.len() - 1 || from == to,
        ensures
            rs_roots(f, sigma, to) == rs_roots(f, sigma, from),
        decreases to - from,
    {
        if from < to {
            ReedSolomonDecoder::lemma_roots_full(f, sigma, from, (to - 1) as nat);
        }
    }

    /// The magnitudes of the errors at the locations, by Forney's formula. A location
    /// or a denominator without an inverse is refused.
    pub fn findErrorMagnitudes(&self, errorEvaluator: &GenericGFPoly<'a>, errorLocations: &Vec<u32>) -> (r:
        Result<Vec<u32>, Error>)
        requires
            self.spec_field().wf(),
            errorEvaluator.wf(),
            errorEvaluator.spec_field() == self.spec_field(),
            forall|k: int|
                0 <= k < errorLocations@.len() ==> #[trigger] errorLocations@[k]
                    < self.spec_field().spec_size(),
        ensures
            r is Ok <==> forall|i: int|
                0 <= i < errorLocations@.len() ==> #[trigger] rs_magnitude_defined(
                    self.field_spec(),
                    errorLocations@,
                    i,
                ),
            r matches Err(e) ==> e is ArithmeticException,
            r matches Ok(v) ==> v@.len() == errorLocations@.len() && forall|i: int|
                0 <= i < v@.len() ==> #[trigger] v@[i] == rs_magnitude(
                    self.field_spec(),
                    errorEvaluator@,
                    errorLocations@,
                    i,
                ) && errorLocations@[i] != 0,
    {
        let ghost f = self.field_spec();
        let size = self.field.get_size();
        proof {
            self.field.lemma_order();
        }
        let s = errorLocations.len();
        let mut result: Vec<u32> = Vec::new();
        let mut i: usize = 0;
        while i < s
            invariant
                i <= s,
                s == errorLocations@.len(),
                self.spec_field().wf(),
                f == self.field_spec(),
                size == f.size,
                is_field_order(size),
                errorEvaluator.wf(),
                errorEvaluator.spec_field() == self.spec_field(),
                forall|k: int| 0 <= k < s ==> #[trigger] errorLocations@[k] < size,
                result@.len() == i,
                forall|k: int| 0 <= k < i ==> #[trigger] rs_magnitude_defined(f, errorLocations@, k),
                forall|k: int|
                    0 <= k < i ==> #[trigger] result@[k] == rs_magnitude(
                        f,
                        errorEvaluator@,
                        errorLocations@,
                        k,
                    ),
            decreases s - i,
        {
            let xiInverse = match self.field.inverse(errorLocations[i]) {
                Ok(xiInverse) => xiInverse,
                Err(e) => {
                    proof {
                        assert(!rs_magnitude_defined(f, errorLocations@, i as int));
                    }
                    return Err(e);
                },
            };
            let mut denominator: u32 = 1;
            let mut j: usize = 0;
            while j < s
                invariant
                    j <= s,
                    i < s,
                    s == errorLocations@.len(),
                    self.spec_field().wf(),
                    f == self.field_spec(),
                    size == f.size,
                    is_field_order(size),
                    forall|k: int| 0 <= k < s ==> #[trigger] errorLocations@[k] < size,
                    xiInverse == gf_inv(f.primitive, f.size, errorLocations@[i as int]),
                    xiInverse < size,
                    denominator < size,
                    denominator == rs_denominator(f, errorLocations@, i as int, j as nat),
                decreases s - j,
            {
                if i != j {
                    let term = self.field.multiply_elements(errorLocations[j], xiInverse);
                    proof {
                        lemma_xor_bound(term, 1, size);
                    }
                    let termPlus1 = term ^ 1;
                    denominator = self.field.multiply_elements(denominator, termPlus1);
                }
                j += 1;
            }
            let denominatorInverse = match self.field.inverse(denominator) {
                Ok(denominatorInverse) => denominatorInverse,
                Err(e) => {
                    proof {
                        assert(!rs_magnitude_defined(f, errorLocations@, i as int));
                    }
                    return Err(e);
                },
            };
            let value = match errorEvaluator.evaluate_at(xiInverse) {
                Ok(value) => value,
                Err(e) => {
                    return Err(Error::ArithmeticException("No value".to_owned()));
                },
            };
            let mut magnitude = self.field.multiply_elements(value, denominatorInverse);
            if self.field.get_generator_base() != 0 {
                magnitude = self.field.multiply_elements(magnitude, xiInverse);
            }
            result.push(magnitude);
            i += 1;
        }
        proof {
            assert forall|k: int| 0 <= k < result@.len() implies #[trigger] result@[k]
                == rs_magnitude(f, errorEvaluator@, errorLocations@, k) && errorLocations@[k]
                != 0 by {
                assert(rs_magnitude_defined(f, errorLocations@, k));
            }
        }
        Ok(result)
    }
}

} // verus!
